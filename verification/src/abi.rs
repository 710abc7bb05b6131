//! Plain types shared with effect, object and expression plugins.
use vstd::prelude::*;
use crate::text::{push_str, chars_of};
use crate::expression::count_char;

verus! {

/// Which spaces a plugin supports.
#[derive(Clone, Copy, Debug, PartialEq, Eq, Structural)]
pub enum Dimensionality {
    TwoD,
    ThreeD,
    Both,
}

impl Dimensionality {
    /// The byte that stands for this value across the plugin boundary.
    pub fn code(self) -> (r: u8)
        ensures
            r == match self {
                Dimensionality::TwoD => 0u8,
                Dimensionality::ThreeD => 1u8,
                Dimensionality::Both => 2u8,
            },
    {
        match self {
            Dimensionality::TwoD => 0,
            Dimensionality::ThreeD => 1,
            Dimensionality::Both => 2,
        }
    }
}

/// The kind of an editable plugin parameter.
#[derive(Clone, Copy, Debug, PartialEq, Eq, Structural)]
pub enum ParamKind {
    Float,
    Bool,
    Color,
    Enum,
    Text,
    FilePath,
    Track,
    Separator,
    Group,
    Folder,
}

impl ParamKind {
    /// The byte that stands for this value across the plugin boundary.
    pub fn code(self) -> (r: u8)
        ensures
            r == match self {
                ParamKind::Float => 0u8,
                ParamKind::Bool => 1u8,
                ParamKind::Color => 2u8,
                ParamKind::Enum => 3u8,
                ParamKind::Text => 4u8,
                ParamKind::FilePath => 5u8,
                ParamKind::Track => 6u8,
                ParamKind::Separator => 7u8,
                ParamKind::Group => 8u8,
                ParamKind::Folder => 9u8,
            },
    {
        match self {
            ParamKind::Float => 0,
            ParamKind::Bool => 1,
            ParamKind::Color => 2,
            ParamKind::Enum => 3,
            ParamKind::Text => 4,
            ParamKind::FilePath => 5,
            ParamKind::Track => 6,
            ParamKind::Separator => 7,
            ParamKind::Group => 8,
            ParamKind::Folder => 9,
        }
    }
}

/// What an effect processes.
#[derive(Clone, Copy, Debug, PartialEq, Eq, Structural)]
pub enum EffectKind {
    Image,
    Audio,
    Both,
}

impl EffectKind {
    /// The byte that stands for this value across the plugin boundary.
    pub fn code(self) -> (r: u8)
        ensures
            r == match self {
                EffectKind::Image => 0u8,
                EffectKind::Audio => 1u8,
                EffectKind::Both => 2u8,
            },
    {
        match self {
            EffectKind::Image => 0,
            EffectKind::Audio => 1,
            EffectKind::Both => 2,
        }
    }
}

/// A borrowed string handed across the plugin boundary; `None` stands for
/// the null reference.
#[derive(Clone, Copy)]
pub struct StrRef {
    pub text: Option<&'static str>,
}

impl StrRef {
    /// Refers to `s`.
    pub fn from_str(s: &'static str) -> (r: Self)
        ensures
            r.text == Some(s),
    {
        StrRef { text: Some(s) }
    }

    /// The null reference.
    pub fn empty() -> (r: Self)
        ensures
            r.text is None,
    {
        StrRef { text: None }
    }

    /// The characters referred to (none for the null reference).
    pub fn as_str(&self) -> (r: &'static str)
        ensures
            r@ == match self.text {
                Some(s) => s@,
                None => Seq::<char>::empty(),
            },
    {
        match self.text {
            Some(s) => s,
            None => {
                let e: &'static str = "";
                proof {
                    reveal_strlit("");
                }
                e
            },
        }
    }
}

/// A borrowed slice handed across the plugin boundary; `None` stands for
/// the null pointer.
pub struct FfiSlice<T: 'static> {
    pub items: Option<&'static [T]>,
}

impl<T> FfiSlice<T> {
    /// The null slice.
    pub fn empty() -> (r: Self)
        ensures
            r.items is None,
    {
        FfiSlice { items: None }
    }

    /// Refers to `items`.
    pub fn from_static(items: &'static [T]) -> (r: Self)
        ensures
            r.items == Some(items),
    {
        FfiSlice { items: Some(items) }
    }

    /// Null or of length zero.
    pub fn is_empty(&self) -> (r: bool)
        ensures
            r == match self.items {
                Some(s) => s@.len() == 0,
                None => true,
            },
    {
        match self.items {
            Some(s) => s.len() == 0,
            None => true,
        }
    }

    /// The items referred to (none for the null slice).
    pub fn as_slice(&self) -> (r: &'static [T])
        ensures
            r@ == match self.items {
                Some(s) => s@,
                None => Seq::<T>::empty(),
            },
    {
        match self.items {
            Some(s) => s,
            None => {
                let e: &'static [T] = &[];
                e
            },
        }
    }
}

/// Identification of an expression engine.
pub struct ExpressionEngineMeta {
    pub id: StrRef,
    pub name: StrRef,
    pub version: StrRef,
}

/// The parts of `s` between the separator characters `sep`, in order
/// (one empty part for the empty sequence).
pub open spec fn split_parts(s: Seq<char>, sep: char) -> Seq<Seq<char>>
    decreases s.len(),
{
    if s.len() == 0 {
        seq![Seq::<char>::empty()]
    } else {
        let prev = split_parts(s.drop_last(), sep);
        if s.last() == sep {
            prev.push(Seq::<char>::empty())
        } else {
            prev.update(prev.len() - 1, prev.last().push(s.last()))
        }
    }
}

proof fn lemma_split_parts_nonempty(s: Seq<char>, sep: char)
    ensures
        split_parts(s, sep).len() >= 1,
    decreases s.len(),
{
    if s.len() > 0 {
        lemma_split_parts_nonempty(s.drop_last(), sep);
    }
}

/// The options of an enumeration parameter, stored joined by NUL
/// characters: none for the empty string, else the NUL-separated parts.
pub fn split_enum_options(joined: &str) -> (r: Vec<&str>)
    ensures
        joined@.len() == 0 ==> r@.len() == 0,
        joined@.len() > 0 ==> r@.map_values(|p: &str| p@) == split_parts(joined@, '\0'),
{
    let n = joined.unicode_len();
    let mut parts: Vec<&str> = Vec::new();
    if n == 0 {
        return parts;
    }
    let chars = chars_of(joined);
    let ghost s = joined@;
    let mut start: usize = 0;
    let mut i: usize = 0;
    assert(s.take(0) =~= Seq::<char>::empty());
    while i < n
        invariant
            s == joined@,
            chars@ == s,
            n == s.len(),
            start <= i <= n,
            parts@.map_values(|p: &str| p@).push(s.subrange(start as int, i as int)) == split_parts(
                s.take(i as int),
                '\0',
            ),
        decreases n - i,
    {
        let ghost prev = split_parts(s.take(i as int), '\0');
        proof {
            lemma_split_parts_nonempty(s.take(i as int), '\0');
            assert(s.take(i + 1).drop_last() =~= s.take(i as int));
            assert(s.take(i + 1).last() == s[i as int]);
        }
        if chars[i] == '\0' {
            let piece = joined.substring_char(start, i);
            parts.push(piece);
            start = i + 1;
            assert(s.subrange(start as int, (i + 1) as int) =~= Seq::<char>::empty());
            assert(parts@.map_values(|p: &str| p@) =~= prev);
        } else {
            assert(s.subrange(start as int, i + 1) =~= s.subrange(start as int, i as int).push(s[i as int]));
            assert(parts@.map_values(|p: &str| p@).push(s.subrange(start as int, i + 1)) =~= prev.update(
                prev.len() - 1,
                prev.last().push(s[i as int]),
            ));
        }
        i += 1;
    }
    let piece = joined.substring_char(start, n);
    parts.push(piece);
    assert(s.take(n as int) =~= s);
    assert(parts@.map_values(|p: &str| p@) =~= split_parts(s, '\0'));
    parts
}

/// The parts joined back together with `sep` between consecutive parts.
pub open spec fn join_parts(parts: Seq<Seq<char>>, sep: char) -> Seq<char>
    decreases parts.len(),
{
    if parts.len() == 0 {
        Seq::empty()
    } else if parts.len() == 1 {
        parts[0]
    } else {
        join_parts(parts.drop_last(), sep).push(sep) + parts.last()
    }
}

/// Splitting at a separator loses nothing: joining the parts with the
/// separator gives the input back, there is one more part than there are
/// separators, and no part holds a separator.
pub proof fn law_split_parts(s: Seq<char>, sep: char)
    ensures
        join_parts(split_parts(s, sep), sep) == s,
        split_parts(s, sep).len() == count_char(s, sep) + 1,
        forall|i: int, k: int| 0 <= i < split_parts(s, sep).len() && 0 <= k < split_parts(s, sep)[i].len()
            ==> split_parts(s, sep)[i][k] != sep,
    decreases s.len(),
{
    if s.len() == 0 {
        assert(split_parts(s, sep)[0] =~= s);
    } else {
        let d = s.drop_last();
        let c = s.last();
        law_split_parts(d, sep);
        let prev = split_parts(d, sep);
        let parts = split_parts(s, sep);
        let n = prev.len();
        if c == sep {
            assert(parts == prev.push(Seq::<char>::empty()));
            assert(parts.drop_last() =~= prev);
            assert(join_parts(parts, sep) =~= d.push(sep));
            assert forall|i: int, k: int| 0 <= i < parts.len() && 0 <= k < parts[i].len() implies parts[i][k] != sep by {
                if i < n {
                    assert(parts[i] == prev[i]);
                }
            }
        } else {
            assert(parts == prev.update(n - 1, prev.last().push(c)));
            if n == 1 {
                assert(join_parts(parts, sep) =~= d.push(c));
            } else {
                assert(parts.drop_last() =~= prev.drop_last());
                assert(join_parts(parts, sep) =~= join_parts(prev.drop_last(), sep).push(sep) + prev.last().push(c));
                assert(join_parts(prev, sep) == join_parts(prev.drop_last(), sep).push(sep) + prev.last());
                assert(join_parts(parts, sep) =~= join_parts(prev, sep).push(c));
            }
            assert forall|i: int, k: int| 0 <= i < parts.len() && 0 <= k < parts[i].len() implies parts[i][k] != sep by {
                if i < n - 1 {
                    assert(parts[i] == prev[i]);
                } else {
                    assert(parts[i] == prev[n - 1].push(c));
                    if k < prev[n - 1].len() {
                        assert(parts[i][k] == prev[n - 1][k]);
                    }
                }
            }
        }
        assert(d.push(c) =~= s);
    }
}

/// Bytes of the uniform buffer that holds `count` float parameters packed
/// four to a 16-byte row.
pub fn uniform_size_std(count: u32) -> (r: u32)
    requires
        ((count as int + 3) / 4) * 16 <= u32::MAX,
    ensures
        r == ((count as int + 3) / 4) * 16,
{
    let rows = count / 4 + if count % 4 != 0 { 1u32 } else { 0u32 };
    assert(rows == (count as int + 3) / 4);
    rows * 16
}

/// Byte `k` (0 is the least significant) of `w`.
pub open spec fn byte_of(w: u32, k: int) -> u8 {
    ((w >> (8 * k) as u32) & 0xff) as u8
}

/// The uniform buffer of float parameters given by their bit patterns:
/// each parameter's four bytes in little-endian order, one after another,
/// then zeros up to `uniform_size_std` bytes.
pub fn pack_uniform_std(param_bits: &[u32]) -> (r: Vec<u8>)
    requires
        ((param_bits@.len() + 3) / 4) * 16 <= u32::MAX,
    ensures
        r@.len() == ((param_bits@.len() + 3) / 4) * 16,
        forall|i: int| 0 <= i < 4 * param_bits@.len() ==> #[trigger] r@[i] == byte_of(param_bits@[i / 4], i % 4),
        forall|i: int| 4 * param_bits@.len() <= i < r@.len() ==> #[trigger] r@[i] == 0,
{
    let n = param_bits.len();
    let total = uniform_size_std(n as u32) as usize;
    let mut out: Vec<u8> = Vec::new();
    let mut j: usize = 0;
    while j < n
        invariant
            j <= n == param_bits@.len(),
            4 * n <= total,
            out@.len() == 4 * j,
            forall|i: int| 0 <= i < 4 * j ==> #[trigger] out@[i] == byte_of(param_bits@[i / 4], i % 4),
        decreases n - j,
    {
        let w = param_bits[j];
        let ghost o = out@;
        out.push((w & 0xff) as u8);
        out.push(((w >> 8) & 0xff) as u8);
        out.push(((w >> 16) & 0xff) as u8);
        out.push(((w >> 24) & 0xff) as u8);
        assert forall|i: int| 0 <= i < 4 * (j + 1) implies #[trigger] out@[i] == byte_of(param_bits@[i / 4], i % 4) by {
            if i >= 4 * j {
                assert(i / 4 == j);
                assert(w >> 0u32 == w) by (bit_vector);
            } else {
                assert(out@[i] == o[i]);
            }
        }
        j += 1;
    }
    while out.len() < total
        invariant
            4 * n <= out@.len() <= total,
            n == param_bits@.len(),
            forall|i: int| 0 <= i < 4 * n ==> #[trigger] out@[i] == byte_of(param_bits@[i / 4], i % 4),
            forall|i: int| 4 * n <= i < out@.len() ==> #[trigger] out@[i] == 0,
        decreases total - out.len(),
    {
        out.push(0);
    }
    out
}

/// Errors reported by plugins.
pub enum PluginError {
    Load(String),
    Runtime(String),
    MissingField(&'static str),
    InvalidField(&'static str),
    Unknown(String),
}

impl PluginError {
    /// The user-facing message of the error.
    pub fn message(&self) -> (r: String)
        ensures
            r@ == match self {
                PluginError::Load(m) => "読み込み失敗: "@ + m@,
                PluginError::Runtime(m) => "実行エラー: "@ + m@,
                PluginError::MissingField(n) => "必須フィールド欠落: "@ + n@,
                PluginError::InvalidField(n) => "フィールド型不正: "@ + n@,
                PluginError::Unknown(w) => "未知の識別子: "@ + w@,
            },
    {
        let mut s = String::new();
        match self {
            PluginError::Load(m) => {
                push_str(&mut s, "読み込み失敗: ");
                push_str(&mut s, m.as_str());
            },
            PluginError::Runtime(m) => {
                push_str(&mut s, "実行エラー: ");
                push_str(&mut s, m.as_str());
            },
            PluginError::MissingField(n) => {
                push_str(&mut s, "必須フィールド欠落: ");
                push_str(&mut s, n);
            },
            PluginError::InvalidField(n) => {
                push_str(&mut s, "フィールド型不正: ");
                push_str(&mut s, n);
            },
            PluginError::Unknown(w) => {
                push_str(&mut s, "未知の識別子: ");
                push_str(&mut s, w.as_str());
            },
        }
        s
    }
}

} // verus!
