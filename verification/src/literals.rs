//! Extraction of the string literals of a source file (Rust or Lua), for
//! building the message catalog: comments and character literals are
//! skipped, escapes are decoded.
use vstd::prelude::*;
use crate::text::{chars_of, string_push};

verus! {

/// The value of a hexadecimal digit.
pub open spec fn hex_digit(c: char) -> Option<nat> {
    if '0' <= c <= '9' {
        Some((c as nat - '0' as nat) as nat)
    } else if 'a' <= c <= 'f' {
        Some((c as nat - 'a' as nat + 10) as nat)
    } else if 'A' <= c <= 'F' {
        Some((c as nat - 'A' as nat + 10) as nat)
    } else {
        None
    }
}

/// Whether every character of `s` is a hexadecimal digit.
pub open spec fn all_hex(s: Seq<char>) -> bool {
    forall|i: int| 0 <= i < s.len() ==> #[trigger] hex_digit(s[i]) is Some
}

/// The number that the hexadecimal digits `s` denote.
pub open spec fn hex_value(s: Seq<char>) -> nat
    decreases s.len(),
{
    if s.len() == 0 {
        0
    } else {
        16 * hex_value(s.drop_last()) + hex_digit(s.last())->Some_0
    }
}

/// What `from_str_radix(s, 16)` gives for an unsigned type whose values
/// are below `bound`: an optional `+` then at least one hexadecimal digit,
/// denoting a value below `bound`; `None` for anything else.
pub open spec fn parse_hex(s: Seq<char>, bound: nat) -> Option<nat> {
    let d = if s.len() > 0 && s[0] == '+' { s.drop_first() } else { s };
    if d.len() > 0 && all_hex(d) && hex_value(d) < bound {
        Some(hex_value(d))
    } else {
        None
    }
}

/// Whether `v` is a Unicode scalar value (a valid `char`).
pub open spec fn is_scalar(v: nat) -> bool {
    v < 0xD800 || (0xE000 <= v <= 0x10FFFF)
}

/// Calls `char::from_u32`, which gives the character with code point `v`
/// when `v` is a Unicode scalar value and `None` otherwise.
#[verifier::external_body]
fn char_from_u32(v: u32) -> (r: Option<char>)
    ensures
        r == (if is_scalar(v as nat) { Some(v as char) } else { None::<char> }),
{
    char::from_u32(v)
}

/// Index just past the end of a line comment whose text starts at `i`
/// (past its `'\n'`, or the end).
pub open spec fn skip_line(s: Seq<char>, i: int) -> int
    decreases s.len() - i,
{
    if i < 0 || i >= s.len() {
        s.len() as int
    } else if s[i] == '\n' {
        i + 1
    } else {
        skip_line(s, i + 1)
    }
}

/// Index just past a block comment whose text starts at `i`, `depth`
/// comments deep (comments nest).
pub open spec fn block_end(s: Seq<char>, i: int, depth: nat) -> int
    decreases s.len() - i,
{
    if i < 0 || i >= s.len() {
        s.len() as int
    } else if s[i] == '/' && i + 1 < s.len() && s[i + 1] == '*' {
        block_end(s, i + 2, depth + 1)
    } else if s[i] == '*' && i + 1 < s.len() && s[i + 1] == '/' {
        if depth <= 1 { i + 2 } else { block_end(s, i + 2, (depth - 1) as nat) }
    } else {
        block_end(s, i + 1, depth)
    }
}

/// Index just past a character literal whose text starts at `i`; a
/// backslash escapes the next character.
pub open spec fn char_end(s: Seq<char>, i: int, escaped: bool) -> int
    decreases s.len() - i,
{
    if i < 0 || i >= s.len() {
        s.len() as int
    } else if escaped {
        char_end(s, i + 1, false)
    } else if s[i] == '\\' {
        char_end(s, i + 1, true)
    } else if s[i] == '\'' {
        i + 1
    } else {
        char_end(s, i + 1, false)
    }
}

/// Whether `c` is skipped after a backslash at the end of a line.
pub open spec fn is_gap(c: char) -> bool {
    c == ' ' || c == '\t' || c == '\n' || c == '\r'
}

/// The first index at or after `i` whose character is not a gap.
pub open spec fn skip_gap(s: Seq<char>, i: int) -> int
    decreases s.len() - i,
{
    if 0 <= i < s.len() && is_gap(s[i]) { skip_gap(s, i + 1) } else { i }
}

/// The first index at or after `i` holding `c`, or the length.
pub open spec fn find_from(s: Seq<char>, i: int, c: char) -> int
    decreases s.len() - i,
{
    if 0 <= i < s.len() && s[i] != c { find_from(s, i + 1, c) } else { i }
}

pub proof fn lemma_scans(s: Seq<char>, i: int, c: char)
    requires
        0 <= i <= s.len(),
    ensures
        i <= skip_gap(s, i) <= s.len(),
        i <= find_from(s, i, c) <= s.len(),
        find_from(s, i, c) < s.len() ==> s[find_from(s, i, c)] == c,
    decreases s.len() - i,
{
    if i < s.len() {
        lemma_scans(s, i + 1, c);
    }
}

/// The character of a simple escape (`\n`, `\t`, `\r`, `\0`, `\\`, `\"`,
/// `\'`); other characters stand for themselves.
pub open spec fn simple_escape(e: char) -> char {
    if e == 'n' { '\n' }
    else if e == 't' { '\t' }
    else if e == 'r' { '\r' }
    else if e == '0' { '\0' }
    else { e }
}

/// The value of a string literal whose text starts at `i`, with `acc`
/// decoded so far, and the index after it; `None` when the input ends
/// before the closing quote.
pub open spec fn string_body(s: Seq<char>, i: int, acc: Seq<char>) -> (Option<Seq<char>>, int)
    decreases s.len() - i,
{
    if i < 0 || i >= s.len() {
        (None, s.len() as int)
    } else if s[i] == '"' {
        (Some(acc), i + 1)
    } else if s[i] != '\\' {
        string_body(s, i + 1, acc.push(s[i]))
    } else if i + 1 >= s.len() {
        (None, s.len() as int)
    } else {
        let e = s[i + 1];
        let j = i + 2;
        if e == '\n' {
            proof {
                lemma_scans(s, j, '}');
            }
            string_body(s, skip_gap(s, j), acc)
        } else if e == 'x' {
            let k = if j + 2 <= s.len() { j + 2 } else { s.len() as int };
            match parse_hex(s.subrange(j, k), 256) {
                Some(b) => string_body(s, k, acc.push(b as char)),
                None => string_body(s, k, acc),
            }
        } else if e == 'u' {
            if j < s.len() && s[j] == '{' {
                proof {
                    lemma_scans(s, j + 1, '}');
                }
                let c = find_from(s, j + 1, '}');
                let k = if c < s.len() { c + 1 } else { c };
                match parse_hex(s.subrange(j + 1, c), 0x1_0000_0000) {
                    Some(v) => if is_scalar(v) {
                        string_body(s, k, acc.push(v as char))
                    } else {
                        string_body(s, k, acc)
                    },
                    None => string_body(s, k, acc),
                }
            } else {
                string_body(s, j, acc)
            }
        } else {
            string_body(s, j, acc.push(simple_escape(e)))
        }
    }
}

pub proof fn lemma_skip_line(s: Seq<char>, i: int)
    requires
        0 <= i <= s.len(),
    ensures
        i <= skip_line(s, i) <= s.len(),
    decreases s.len() - i,
{
    if i < s.len() && s[i] != '\n' {
        lemma_skip_line(s, i + 1);
    }
}

pub proof fn lemma_block_end(s: Seq<char>, i: int, depth: nat)
    requires
        0 <= i <= s.len(),
    ensures
        i <= block_end(s, i, depth) <= s.len(),
    decreases s.len() - i,
{
    if i < s.len() {
        if s[i] == '/' && i + 1 < s.len() && s[i + 1] == '*' {
            lemma_block_end(s, i + 2, depth + 1);
        } else if s[i] == '*' && i + 1 < s.len() && s[i + 1] == '/' {
            if depth > 1 {
                lemma_block_end(s, i + 2, (depth - 1) as nat);
            }
        } else {
            lemma_block_end(s, i + 1, depth);
        }
    }
}

pub proof fn lemma_char_end(s: Seq<char>, i: int, escaped: bool)
    requires
        0 <= i <= s.len(),
    ensures
        i <= char_end(s, i, escaped) <= s.len(),
    decreases s.len() - i,
{
    if i < s.len() {
        if escaped || s[i] == '\\' || s[i] != '\'' {
            lemma_char_end(s, i + 1, !escaped && s[i] == '\\');
        }
    }
}

pub proof fn lemma_string_body(s: Seq<char>, i: int, acc: Seq<char>)
    requires
        0 <= i <= s.len(),
    ensures
        i <= string_body(s, i, acc).1 <= s.len(),
        string_body(s, i, acc).0 is None ==> string_body(s, i, acc).1 == s.len(),
    decreases s.len() - i,
{
    if i < s.len() && s[i] != '"' {
        if s[i] != '\\' {
            lemma_string_body(s, i + 1, acc.push(s[i]));
        } else if i + 1 < s.len() {
            let e = s[i + 1];
            let j = i + 2;
            lemma_scans(s, j, '}');
            if e == '\n' {
                lemma_string_body(s, skip_gap(s, j), acc);
            } else if e == 'x' {
                let k = if j + 2 <= s.len() { j + 2 } else { s.len() as int };
                match parse_hex(s.subrange(j, k), 256) {
                    Some(b) => lemma_string_body(s, k, acc.push(b as char)),
                    None => lemma_string_body(s, k, acc),
                }
            } else if e == 'u' {
                if j < s.len() && s[j] == '{' {
                    lemma_scans(s, j + 1, '}');
                    let c = find_from(s, j + 1, '}');
                    let k = if c < s.len() { c + 1 } else { c };
                    match parse_hex(s.subrange(j + 1, c), 0x1_0000_0000) {
                        Some(v) => if is_scalar(v) {
                            lemma_string_body(s, k, acc.push(v as char));
                        } else {
                            lemma_string_body(s, k, acc);
                        },
                        None => lemma_string_body(s, k, acc),
                    }
                } else {
                    lemma_string_body(s, j, acc);
                }
            } else {
                lemma_string_body(s, j, acc.push(simple_escape(e)));
            }
        }
    }
}

/// The values of the string literals of `s` from index `i` on, in order.
pub open spec fn literals_from(s: Seq<char>, i: int) -> Seq<Seq<char>>
    decreases s.len() - i,
{
    if i < 0 || i >= s.len() {
        Seq::empty()
    } else {
        let c = s[i];
        if c == '/' && i + 1 < s.len() && s[i + 1] == '/' {
            proof {
                lemma_skip_line(s, i + 2);
            }
            literals_from(s, skip_line(s, i + 2))
        } else if c == '/' && i + 1 < s.len() && s[i + 1] == '*' {
            proof {
                lemma_block_end(s, i + 2, 1);
            }
            literals_from(s, block_end(s, i + 2, 1))
        } else if c == '\'' {
            proof {
                lemma_char_end(s, i + 1, false);
            }
            literals_from(s, char_end(s, i + 1, false))
        } else if c != '"' {
            literals_from(s, i + 1)
        } else {
            proof {
                lemma_string_body(s, i + 1, Seq::empty());
            }
            let r = string_body(s, i + 1, Seq::empty());
            match r.0 {
                Some(v) => seq![v] + literals_from(s, r.1),
                None => literals_from(s, r.1),
            }
        }
    }
}

/// The values of the string literals of a source text, in order.
pub open spec fn literals(s: Seq<char>) -> Seq<Seq<char>> {
    literals_from(s, 0)
}

/// A prefix of hexadecimal digits denotes at most the whole.
pub proof fn lemma_hex_prefix(d: Seq<char>, m: int)
    requires
        all_hex(d),
        0 <= m <= d.len(),
    ensures
        hex_value(d.take(m)) <= hex_value(d),
    decreases d.len(),
{
    if m < d.len() {
        assert(all_hex(d.drop_last())) by {
            assert forall|i: int| 0 <= i < d.drop_last().len() implies #[trigger] hex_digit(d.drop_last()[i]) is Some by {
                assert(d.drop_last()[i] == d[i]);
            }
        }
        lemma_hex_prefix(d.drop_last(), m);
        assert(d.drop_last().take(m) =~= d.take(m));
    } else {
        assert(d.take(m) =~= d);
    }
}

fn hex_digit_exec(c: char) -> (r: Option<u64>)
    ensures
        match r {
            Some(v) => hex_digit(c) == Some(v as nat) && v < 16,
            None => hex_digit(c) is None,
        },
{
    if '0' <= c && c <= '9' {
        Some((c as u32 - '0' as u32) as u64)
    } else if 'a' <= c && c <= 'f' {
        Some((c as u32 - 'a' as u32 + 10) as u64)
    } else if 'A' <= c && c <= 'F' {
        Some((c as u32 - 'A' as u32 + 10) as u64)
    } else {
        None
    }
}

fn parse_hex_exec(s: &Vec<char>, from: usize, to: usize, bound: u64) -> (r: Option<u64>)
    requires
        from <= to <= s.len(),
        0 < bound <= 0x1_0000_0000,
    ensures
        match r {
            Some(v) => parse_hex(s@.subrange(from as int, to as int), bound as nat) == Some(v as nat),
            None => parse_hex(s@.subrange(from as int, to as int), bound as nat) is None,
        },
{
    let ghost w = s@.subrange(from as int, to as int);
    let mut k = from;
    if k < to && s[k] == '+' {
        k += 1;
    }
    let start = k;
    let ghost d = s@.subrange(start as int, to as int);
    assert(d =~= (if w.len() > 0 && w[0] == '+' { w.drop_first() } else { w }));
    if k == to {
        assert(d.len() == 0);
        return None;
    }
    let mut v: u64 = 0;
    assert(s@.subrange(start as int, start as int) =~= Seq::<char>::empty());
    while k < to
        invariant
            start <= k <= to <= s.len(),
            d == s@.subrange(start as int, to as int),
            w == s@.subrange(from as int, to as int),
            d == (if w.len() > 0 && w[0] == '+' { w.drop_first() } else { w }),
            all_hex(s@.subrange(start as int, k as int)),
            v as nat == hex_value(s@.subrange(start as int, k as int)),
            v < bound,
            bound <= 0x1_0000_0000,
        decreases to - k,
    {
        let ghost pre = s@.subrange(start as int, k as int);
        let ghost pre1 = s@.subrange(start as int, k + 1);
        assert(pre1.drop_last() =~= pre);
        assert(pre1.last() == s@[k as int]);
        match hex_digit_exec(s[k]) {
            None => {
                assert(!all_hex(d)) by {
                    assert(d[k - start] == s@[k as int]);
                }
                return None;
            },
            Some(dv) => {
                let nv = v * 16 + dv;
                assert(hex_value(pre1) == 16 * hex_value(pre) + dv);
                assert(all_hex(pre1)) by {
                    assert forall|i: int| 0 <= i < pre1.len() implies #[trigger] hex_digit(pre1[i]) is Some by {
                        if i < pre.len() {
                            assert(pre1[i] == pre[i]);
                        }
                    }
                }
                if nv >= bound {
                    proof {
                        if all_hex(d) {
                            lemma_hex_prefix(d, k + 1 - start);
                            assert(d.take(k + 1 - start) =~= pre1);
                        }
                    }
                    return None;
                }
                v = nv;
            },
        }
        k += 1;
    }
    Some(v)
}

fn skip_line_exec(s: &Vec<char>, i: usize) -> (r: usize)
    requires
        i <= s.len(),
    ensures
        r == skip_line(s@, i as int),
        i <= r <= s.len(),
{
    let mut k = i;
    while k < s.len()
        invariant
            i <= k <= s.len(),
            skip_line(s@, i as int) == skip_line(s@, k as int),
        decreases s.len() - k,
    {
        if s[k] == '\n' {
            return k + 1;
        }
        k += 1;
    }
    k
}

fn block_end_exec(s: &Vec<char>, i: usize) -> (r: usize)
    requires
        i <= s.len(),
    ensures
        r == block_end(s@, i as int, 1),
        i <= r <= s.len(),
{
    let mut k = i;
    let mut depth: usize = 1;
    while k < s.len()
        invariant
            i <= k <= s.len(),
            1 <= depth <= k + 1,
            block_end(s@, i as int, 1) == block_end(s@, k as int, depth as nat),
        decreases s.len() - k,
    {
        if s[k] == '/' && k + 1 < s.len() && s[k + 1] == '*' {
            depth += 1;
            k += 2;
        } else if s[k] == '*' && k + 1 < s.len() && s[k + 1] == '/' {
            if depth <= 1 {
                return k + 2;
            }
            depth -= 1;
            k += 2;
        } else {
            k += 1;
        }
    }
    k
}

fn char_end_exec(s: &Vec<char>, i: usize) -> (r: usize)
    requires
        i <= s.len(),
    ensures
        r == char_end(s@, i as int, false),
        i <= r <= s.len(),
{
    let mut k = i;
    let mut escaped = false;
    while k < s.len()
        invariant
            i <= k <= s.len(),
            char_end(s@, i as int, false) == char_end(s@, k as int, escaped),
        decreases s.len() - k,
    {
        if escaped {
            escaped = false;
        } else if s[k] == '\\' {
            escaped = true;
        } else if s[k] == '\'' {
            return k + 1;
        }
        k += 1;
    }
    k
}

fn skip_gap_exec(s: &Vec<char>, i: usize) -> (r: usize)
    requires
        i <= s.len(),
    ensures
        r == skip_gap(s@, i as int),
{
    let mut k = i;
    while k < s.len() && (s[k] == ' ' || s[k] == '\t' || s[k] == '\n' || s[k] == '\r')
        invariant
            i <= k <= s.len(),
            skip_gap(s@, i as int) == skip_gap(s@, k as int),
        decreases s.len() - k,
    {
        k += 1;
    }
    k
}

fn find_from_exec(s: &Vec<char>, i: usize, c: char) -> (r: usize)
    requires
        i <= s.len(),
    ensures
        r == find_from(s@, i as int, c),
{
    let mut k = i;
    while k < s.len() && s[k] != c
        invariant
            i <= k <= s.len(),
            find_from(s@, i as int, c) == find_from(s@, k as int, c),
        decreases s.len() - k,
    {
        k += 1;
    }
    k
}

fn simple_escape_exec(e: char) -> (r: char)
    ensures
        r == simple_escape(e),
{
    if e == 'n' { '\n' }
    else if e == 't' { '\t' }
    else if e == 'r' { '\r' }
    else if e == '0' { '\0' }
    else { e }
}

/// Decodes the string literal whose text starts at `i`: its value (or
/// `None` when the input ends first) and the index after it.
#[verifier::rlimit(40)]
fn string_body_exec(s: &Vec<char>, i: usize) -> (r: (Option<String>, usize))
    requires
        i <= s.len(),
    ensures
        string_body(s@, i as int, Seq::empty()).1 == r.1 as int,
        match r.0 {
            Some(v) => string_body(s@, i as int, Seq::empty()).0 == Some(v@),
            None => string_body(s@, i as int, Seq::empty()).0 is None,
        },
{
    let mut value = String::new();
    let mut k = i;
    let len = s.len();
    while k < len
        invariant
            len == s.len(),
            i <= k <= len,
            string_body(s@, i as int, Seq::empty()) == string_body(s@, k as int, value@),
        decreases len - k,
    {
        let c = s[k];
        if c == '"' {
            return (Some(value), k + 1);
        }
        if c != '\\' {
            string_push(&mut value, c);
            k += 1;
            continue;
        }
        if k + 1 >= len {
            return (None, len);
        }
        let e = s[k + 1];
        let j = k + 2;
        if e == '\n' {
            k = skip_gap_exec(s, j);
            proof {
                lemma_scans(s@, j as int, '}');
            }
        } else if e == 'x' {
            let kk = if len - j >= 2 { j + 2 } else { len };
            match parse_hex_exec(s, j, kk, 256) {
                Some(b) => {
                    match char_from_u32(b as u32) {
                        Some(ch) => {
                            string_push(&mut value, ch);
                        },
                        None => {
                            assert(false);
                        },
                    }
                },
                None => {},
            }
            k = kk;
        } else if e == 'u' {
            if j < len && s[j] == '{' {
                let c2 = find_from_exec(s, j + 1, '}');
                proof {
                    lemma_scans(s@, j + 1, '}');
                }
                let kk = if c2 < len { c2 + 1 } else { c2 };
                match parse_hex_exec(s, j + 1, c2, 0x1_0000_0000) {
                    Some(v) => {
                        match char_from_u32(v as u32) {
                            Some(ch) => {
                                string_push(&mut value, ch);
                            },
                            None => {},
                        }
                    },
                    None => {},
                }
                k = kk;
            } else {
                k = j;
            }
        } else {
            string_push(&mut value, simple_escape_exec(e));
            k = j;
        }
    }
    (None, len)
}

/// The values of the string literals of a source text, in order (see
/// `literals`).
#[verifier::rlimit(40)]
pub fn string_literals(source: &str) -> (r: Vec<String>)
    ensures
        r@.map_values(|x: String| x@) == literals(source@),
{
    let s = chars_of(source);
    let len = s.len();
    let mut result: Vec<String> = Vec::new();
    let mut k: usize = 0;
    assert(result@.map_values(|x: String| x@) =~= Seq::<Seq<char>>::empty());
    while k < len
        invariant
            len == s.len(),
            s@ == source@,
            k <= len,
            literals(s@) == result@.map_values(|x: String| x@) + literals_from(s@, k as int),
        decreases len - k,
    {
        let c = s[k];
        let ghost before = result@.map_values(|x: String| x@);
        if c == '/' && k + 1 < len && s[k + 1] == '/' {
            k = skip_line_exec(&s, k + 2);
        } else if c == '/' && k + 1 < len && s[k + 1] == '*' {
            k = block_end_exec(&s, k + 2);
        } else if c == '\'' {
            k = char_end_exec(&s, k + 1);
        } else if c != '"' {
            k += 1;
        } else {
            proof {
                lemma_string_body(s@, k + 1, Seq::empty());
            }
            let (v, next) = string_body_exec(&s, k + 1);
            match v {
                Some(x) => {
                    let ghost xv = x@;
                    result.push(x);
                    assert(result@.map_values(|x: String| x@) =~= before.push(xv));
                    assert(before.push(xv) + literals_from(s@, next as int) =~= before + (seq![xv] + literals_from(s@, next as int)));
                },
                None => {},
            }
            k = next;
        }
    }
    assert(result@.map_values(|x: String| x@) + Seq::<Seq<char>>::empty() =~= result@.map_values(|x: String| x@));
    result
}

} // verus!
