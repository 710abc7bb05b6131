//! The Japanese message catalog: which string literals are messages, the
//! sorted set of messages, and their YAML entries.
use vstd::prelude::*;
use crate::literals::{literals, literals_from, string_body, simple_escape};
use crate::text::{chars_of, lex_le, lemma_lex_total, lemma_lex_trans, str_eq, str_lex_le, string_push};

verus! {

/// Whether `c` lies in the range from hiragana `ぁ` (U+3041) to the
/// ideograph U+9FAF, which covers kana and the common kanji.
pub open spec fn is_japanese_char(c: char) -> bool {
    '\u{3041}' <= c && c <= '\u{9FAF}'
}

/// Whether `s` holds a Japanese character.
pub open spec fn has_japanese_spec(s: Seq<char>) -> bool {
    exists|i: int| 0 <= i < s.len() && is_japanese_char(s[i])
}

/// Whether `s` holds a Japanese character.
pub fn has_japanese(s: &str) -> (r: bool)
    ensures
        r == has_japanese_spec(s@),
{
    let chars = chars_of(s);
    let mut i: usize = 0;
    while i < chars.len()
        invariant
            i <= chars.len(),
            chars@ == s@,
            forall|j: int| 0 <= j < i ==> !is_japanese_char(chars@[j]),
        decreases chars.len() - i,
    {
        let c = chars[i];
        if '\u{3041}' <= c && c <= '\u{9FAF}' {
            assert(is_japanese_char(s@[i as int]));
            return true;
        }
        i += 1;
    }
    false
}

/// The lower-case hexadecimal digit of `d` (below 16).
pub open spec fn hex_lower(d: nat) -> char {
    if d < 10 { ((d + '0' as nat) as char) } else { ((d - 10 + 'a' as nat) as char) }
}

/// A character escaped for a double-quoted YAML scalar: backslash, quote,
/// newline, carriage return and tab by their short escapes, other control
/// characters as `\u00XX`, everything else as itself.
pub open spec fn yaml_escape_char(c: char) -> Seq<char> {
    if c == '\\' {
        seq!['\\', '\\']
    } else if c == '"' {
        seq!['\\', '"']
    } else if c == '\n' {
        seq!['\\', 'n']
    } else if c == '\r' {
        seq!['\\', 'r']
    } else if c == '\t' {
        seq!['\\', 't']
    } else if (c as nat) < 0x20 {
        seq!['\\', 'u', '0', '0', hex_lower((c as nat) / 16), hex_lower((c as nat) % 16)]
    } else {
        seq![c]
    }
}

/// `s` escaped for a double-quoted YAML scalar.
pub open spec fn yaml_escape(s: Seq<char>) -> Seq<char>
    decreases s.len(),
{
    if s.len() == 0 {
        Seq::empty()
    } else {
        yaml_escape(s.drop_last()) + yaml_escape_char(s.last())
    }
}

fn hex_lower_exec(d: u32) -> (c: char)
    requires
        d < 16,
    ensures
        c == hex_lower(d as nat),
{
    if d == 0 { '0' } else if d == 1 { '1' } else if d == 2 { '2' } else if d == 3 { '3' }
    else if d == 4 { '4' } else if d == 5 { '5' } else if d == 6 { '6' } else if d == 7 { '7' }
    else if d == 8 { '8' } else if d == 9 { '9' } else if d == 10 { 'a' } else if d == 11 { 'b' }
    else if d == 12 { 'c' } else if d == 13 { 'd' } else if d == 14 { 'e' } else { 'f' }
}

fn push_escaped_char(out: &mut String, c: char)
    ensures
        final(out)@ == old(out)@ + yaml_escape_char(c),
{
    let ghost o = out@;
    if c == '\\' {
        string_push(out, '\\');
        string_push(out, '\\');
    } else if c == '"' {
        string_push(out, '\\');
        string_push(out, '"');
    } else if c == '\n' {
        string_push(out, '\\');
        string_push(out, 'n');
    } else if c == '\r' {
        string_push(out, '\\');
        string_push(out, 'r');
    } else if c == '\t' {
        string_push(out, '\\');
        string_push(out, 't');
    } else if (c as u32) < 0x20 {
        let v = c as u32;
        string_push(out, '\\');
        string_push(out, 'u');
        string_push(out, '0');
        string_push(out, '0');
        string_push(out, hex_lower_exec(v / 16));
        string_push(out, hex_lower_exec(v % 16));
    } else {
        string_push(out, c);
    }
    assert(out@ =~= o + yaml_escape_char(c));
}

/// `message` escaped for a double-quoted YAML scalar (see `yaml_escape`).
pub fn escape_yaml_double_quoted(message: &str) -> (r: String)
    ensures
        r@ == yaml_escape(message@),
{
    let chars = chars_of(message);
    let mut out = String::new();
    let mut i: usize = 0;
    assert(chars@.take(0) =~= Seq::<char>::empty());
    while i < chars.len()
        invariant
            i <= chars.len(),
            chars@ == message@,
            out@ == yaml_escape(chars@.take(i as int)),
        decreases chars.len() - i,
    {
        push_escaped_char(&mut out, chars[i]);
        assert(chars@.take(i + 1).drop_last() =~= chars@.take(i as int));
        i += 1;
    }
    assert(chars@.take(i as int) =~= chars@);
    out
}

/// Strict code-point order.
pub open spec fn lex_lt(a: Seq<char>, b: Seq<char>) -> bool {
    lex_le(a, b) && a != b
}

/// Each element sorts strictly before the next ones.
pub open spec fn strictly_sorted(s: Seq<Seq<char>>) -> bool {
    forall|i: int, j: int| 0 <= i < j < s.len() ==> lex_lt(#[trigger] s[i], #[trigger] s[j])
}

/// The texts of some strings.
pub open spec fn texts(v: Seq<String>) -> Seq<Seq<char>> {
    v.map_values(|x: String| x@)
}

/// Code-point order is antisymmetric.
pub proof fn lemma_lex_antisym(a: Seq<char>, b: Seq<char>)
    requires
        lex_le(a, b),
        lex_le(b, a),
    ensures
        a == b,
    decreases a.len(),
{
    if a.len() > 0 {
        assert(b.len() > 0);
        lemma_lex_antisym(a.drop_first(), b.drop_first());
        assert(a =~= seq![a[0]] + a.drop_first());
        assert(b =~= seq![b[0]] + b.drop_first());
    } else {
        if b.len() > 0 {
            assert(!lex_le(b, a));
        }
        assert(a =~= b);
    }
}

/// Adds `m` to the strictly sorted `messages` unless it is there already.
pub fn insert_message(messages: &mut Vec<String>, m: String)
    requires
        strictly_sorted(texts(old(messages)@)),
    ensures
        strictly_sorted(texts(final(messages)@)),
        texts(final(messages)@).to_set() == texts(old(messages)@).to_set().insert(m@),
{
    let ghost s = texts(messages@);
    let mut p: usize = 0;
    while p < messages.len() && !str_lex_le(m.as_str(), messages[p].as_str())
        invariant
            p <= messages.len(),
            s == texts(messages@),
            strictly_sorted(s),
            forall|j: int| 0 <= j < p ==> lex_lt(#[trigger] s[j], m@),
        decreases messages.len() - p,
    {
        proof {
            lemma_lex_total(m@, s[p as int]);
        }
        p += 1;
    }
    if p < messages.len() && str_eq(m.as_str(), messages[p].as_str()) {
        assert(s.to_set().insert(m@) =~= s.to_set()) by {
            assert(s[p as int] == m@);
        }
        return;
    }
    let ghost mv = m@;
    messages.insert(p, m);
    let ghost t = texts(messages@);
    assert(t =~= s.insert(p as int, mv));
    assert forall|i: int, j: int| 0 <= i < j < t.len() implies lex_lt(#[trigger] t[i], #[trigger] t[j]) by {
        if p < s.len() {
            assert(lex_le(mv, s[p as int]));
            assert(mv != s[p as int]);
        }
        if j == p {
            assert(t[i] == s[i]);
        } else if i == p {
            assert(t[j] == s[j - 1]);
            if j - 1 > p {
                assert(lex_lt(s[p as int], s[j - 1]));
                lemma_lex_trans(mv, s[p as int], s[j - 1]);
                if mv == s[j - 1] {
                    lemma_lex_antisym(s[p as int], s[j - 1]);
                }
            }
        } else if j < p {
            assert(t[i] == s[i] && t[j] == s[j]);
        } else if i < p {
            assert(t[i] == s[i] && t[j] == s[j - 1]);
            assert(lex_lt(s[i], mv));
            if p < s.len() {
                lemma_lex_trans(s[i], mv, s[p as int]);
                if j - 1 > p {
                    lemma_lex_trans(s[i], s[p as int], s[j - 1]);
                }
                assert(lex_le(s[i], s[j - 1]));
                if i < j - 1 {
                    assert(lex_lt(s[i], s[j - 1]));
                }
            }
        } else {
            assert(t[i] == s[i - 1] && t[j] == s[j - 1]);
        }
    }
    assert(t.to_set() =~= s.to_set().insert(mv)) by {
        assert forall|x: Seq<char>| t.to_set().contains(x) <==> s.to_set().insert(mv).contains(x) by {
            if t.to_set().contains(x) {
                let k = choose|k: int| 0 <= k < t.len() && t[k] == x;
                if k < p { assert(t[k] == s[k]); } else if k > p { assert(t[k] == s[k - 1]); }
            }
            if s.to_set().contains(x) {
                let k = choose|k: int| 0 <= k < s.len() && s[k] == x;
                if k < p { assert(t[k] == s[k]); } else { assert(t[k + 1] == s[k]); }
            }
            if x == mv {
                assert(t[p as int] == mv);
            }
        }
    }
}

/// The elements of a sequence with one more element pushed.
pub proof fn lemma_push_to_set<A>(s: Seq<A>, x: A)
    ensures
        s.push(x).to_set() == s.to_set().insert(x),
{
    assert forall|y: A| s.push(x).to_set().contains(y) <==> s.to_set().insert(x).contains(y) by {
        if s.push(x).to_set().contains(y) {
            let k = choose|k: int| 0 <= k < s.push(x).len() && s.push(x)[k] == y;
            if k < s.len() {
                assert(s[k] == y);
            }
        }
        if s.to_set().contains(y) {
            let k = choose|k: int| 0 <= k < s.len() && s[k] == y;
            assert(s.push(x)[k] == y);
        }
        if y == x {
            assert(s.push(x)[s.len() as int] == x);
        }
    }
    assert(s.push(x).to_set() =~= s.to_set().insert(x));
}

/// The messages among `literals`: those with Japanese characters, without
/// repetition, in code-point order.
pub fn collect_messages(literals: &Vec<String>) -> (r: Vec<String>)
    ensures
        strictly_sorted(texts(r@)),
        texts(r@).to_set() == texts(literals@).to_set().filter(|x: Seq<char>| has_japanese_spec(x)),
{
    let mut out: Vec<String> = Vec::new();
    let mut i: usize = 0;
    assert(texts(out@).to_set() =~= texts(literals@).take(0).to_set().filter(|x: Seq<char>| has_japanese_spec(x)));
    while i < literals.len()
        invariant
            i <= literals.len(),
            strictly_sorted(texts(out@)),
            texts(out@).to_set() == texts(literals@).take(i as int).to_set().filter(|x: Seq<char>| has_japanese_spec(x)),
        decreases literals.len() - i,
    {
        let ghost before = texts(literals@).take(i as int);
        let ghost after = texts(literals@).take(i + 1);
        assert(after =~= before.push(literals@[i as int]@));
        proof {
            lemma_push_to_set(before, literals@[i as int]@);
        }
        if has_japanese(literals[i].as_str()) {
            let m = literals[i].clone();
            insert_message(&mut out, m);
            assert(texts(out@).to_set() =~= after.to_set().filter(|x: Seq<char>| has_japanese_spec(x)));
        } else {
            assert(after.to_set().filter(|x: Seq<char>| has_japanese_spec(x)) =~= before.to_set().filter(|x: Seq<char>| has_japanese_spec(x)));
        }
        i += 1;
    }
    assert(texts(literals@).take(i as int) =~= texts(literals@));
    out
}

/// The catalog entry of a message: `"m": "m"` with `m` escaped, and a
/// newline.
pub open spec fn entry_line(m: Seq<char>) -> Seq<char> {
    seq!['"'] + yaml_escape(m) + seq!['"', ':', ' ', '"'] + yaml_escape(m) + seq!['"', '\n']
}

/// The catalog entries of `msgs`, in order.
pub open spec fn entries_text(msgs: Seq<Seq<char>>) -> Seq<char>
    decreases msgs.len(),
{
    if msgs.len() == 0 {
        Seq::empty()
    } else {
        entries_text(msgs.drop_last()) + entry_line(msgs.last())
    }
}

/// The catalog entries of `messages`, each mapping a message to itself.
pub fn catalog_entries(messages: &Vec<String>) -> (r: String)
    ensures
        r@ == entries_text(texts(messages@)),
{
    let mut out = String::new();
    let mut i: usize = 0;
    assert(texts(messages@).take(0) =~= Seq::<Seq<char>>::empty());
    while i < messages.len()
        invariant
            i <= messages.len(),
            out@ == entries_text(texts(messages@).take(i as int)),
        decreases messages.len() - i,
    {
        let ghost o = out@;
        let e = escape_yaml_double_quoted(messages[i].as_str());
        string_push(&mut out, '"');
        out.append(e.as_str());
        string_push(&mut out, '"');
        string_push(&mut out, ':');
        string_push(&mut out, ' ');
        string_push(&mut out, '"');
        out.append(e.as_str());
        string_push(&mut out, '"');
        string_push(&mut out, '\n');
        assert(texts(messages@).take(i + 1).drop_last() =~= texts(messages@).take(i as int));
        assert(out@ =~= o + entry_line(messages@[i as int]@));
        i += 1;
    }
    assert(texts(messages@).take(i as int) =~= texts(messages@));
    out
}

/// Escaping distributes over concatenation.
pub proof fn lemma_yaml_escape_concat(a: Seq<char>, b: Seq<char>)
    ensures
        yaml_escape(a + b) == yaml_escape(a) + yaml_escape(b),
    decreases b.len(),
{
    if b.len() == 0 {
        assert(a + b =~= a);
        assert(yaml_escape(a) + yaml_escape(b) =~= yaml_escape(a));
    } else {
        lemma_yaml_escape_concat(a, b.drop_last());
        assert((a + b).drop_last() =~= a + b.drop_last());
        assert((a + b).last() == b.last());
        assert(yaml_escape(a) + yaml_escape(b) =~= yaml_escape(a) + yaml_escape(b.drop_last()) + yaml_escape_char(b.last()));
    }
}

/// Characters that the catalog writes without a `\u` escape.
pub open spec fn printable_or_layout(c: char) -> bool {
    c as nat >= 0x20 || c == '\n' || c == '\r' || c == '\t'
}

proof fn lemma_escaped_body(s: Seq<char>, k: int)
    requires
        0 <= k <= s.len(),
        forall|i: int| 0 <= i < s.len() ==> printable_or_layout(#[trigger] s[i]),
    ensures
        ({
            let t = seq!['"'] + yaml_escape(s) + seq!['"'];
            string_body(t, 1 + yaml_escape(s.take(k)).len() as int, s.take(k)) == (Some(s), t.len() as int)
        }),
    decreases s.len() - k,
{
    let e = yaml_escape(s);
    let t = seq!['"'] + e + seq!['"'];
    let pre = yaml_escape(s.take(k));
    let pos: int = 1 + pre.len() as int;
    if k == s.len() {
        assert(s.take(k) =~= s);
        assert(t[pos] == '"');
    } else {
        let c = s[k];
        let ec = yaml_escape_char(c);
        lemma_yaml_escape_concat(s.take(k + 1), s.skip(k + 1));
        assert(s.take(k + 1) + s.skip(k + 1) =~= s);
        assert(s.take(k + 1).drop_last() =~= s.take(k));
        assert(yaml_escape(s.take(k + 1)) == pre + ec);
        assert(e == pre + ec + yaml_escape(s.skip(k + 1)));
        assert(t =~= seq!['"'] + pre + ec + yaml_escape(s.skip(k + 1)) + seq!['"']);
        assert(t[pos] == ec[0]);
        assert(printable_or_layout(c));
        lemma_escaped_body(s, k + 1);
        assert(s.take(k).push(c) =~= s.take(k + 1));
        if ec.len() == 2 {
            assert(t[pos + 1] == ec[1]);
            assert(simple_escape(ec[1]) == c);
        }
    }
}

/// Round trip between `escape_yaml_double_quoted` and `string_literals`:
/// for a message `s` without control characters other than newline,
/// carriage return and tab, the string literals of `"` + the escaped
/// message + `"` are exactly `[s]` (`escape_yaml_double_quoted` returns
/// `yaml_escape(s)` and `string_literals` returns `literals` of its input).
pub proof fn law_string_literals_read_back_escape(s: Seq<char>)
    requires
        forall|i: int| 0 <= i < s.len() ==> printable_or_layout(#[trigger] s[i]),
    ensures
        literals(seq!['"'] + yaml_escape(s) + seq!['"']) == seq![s],
{
    let t = seq!['"'] + yaml_escape(s) + seq!['"'];
    assert(s.take(0) =~= Seq::<char>::empty());
    assert(yaml_escape(s.take(0)).len() == 0);
    lemma_escaped_body(s, 0);
    assert(t[0] == '"');
    assert(literals_from(t, t.len() as int) == Seq::<Seq<char>>::empty());
    assert(seq![s] + Seq::<Seq<char>>::empty() =~= seq![s]);
}

} // verus!
