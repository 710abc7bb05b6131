//! Stable sorting of records by a text key in code-point order.
use vstd::prelude::*;
use crate::text::{lex_le, lemma_lex_total, lemma_lex_trans, str_lex_le};

verus! {

/// A record with a text key to sort by.
pub trait TextKey {
    /// The key.
    spec fn key_view(&self) -> Seq<char>;

    /// The key.
    fn key(&self) -> (r: &str)
        ensures
            r@ == self.key_view();
}

/// Number of leading records whose key sorts before or equal to `k`.
pub open spec fn key_upper_bound<T: TextKey>(s: Seq<T>, k: Seq<char>) -> nat
    decreases s.len(),
{
    if s.len() == 0 {
        0
    } else if lex_le(s[0].key_view(), k) {
        1 + key_upper_bound(s.drop_first(), k)
    } else {
        0
    }
}

/// `s` stably sorted by key: each record in turn inserted after every
/// record whose key sorts before or equal to its own.
pub open spec fn sorted_by_key<T: TextKey>(s: Seq<T>) -> Seq<T>
    decreases s.len(),
{
    if s.len() == 0 {
        s
    } else {
        let r = sorted_by_key(s.drop_last());
        r.insert(key_upper_bound(r, s.last().key_view()) as int, s.last())
    }
}

fn find_key_upper_bound<T: TextKey>(s: &Vec<T>, k: &str) -> (p: usize)
    ensures
        p == key_upper_bound(s@, k@),
        p <= s.len(),
{
    let mut i: usize = 0;
    assert(s@.skip(0) =~= s@);
    while i < s.len() && str_lex_le(s[i].key(), k)
        invariant
            i <= s.len(),
            key_upper_bound(s@, k@) == i + key_upper_bound(s@.skip(i as int), k@),
        decreases s.len() - i,
    {
        assert(s@.skip(i as int)[0] == s@[i as int]);
        assert(s@.skip(i as int).drop_first() =~= s@.skip(i + 1));
        i += 1;
    }
    if i < s.len() {
        assert(s@.skip(i as int)[0] == s@[i as int]);
    }
    i
}

/// Stably sorts records by key (see `sorted_by_key`).
pub fn sort_by_key<T: TextKey>(list: Vec<T>) -> (r: Vec<T>)
    ensures
        r@ == sorted_by_key(list@),
{
    let ghost s = list@;
    let mut rest = list;
    let mut out: Vec<T> = Vec::new();
    let ghost mut i: int = 0;
    while rest.len() > 0
        invariant
            0 <= i <= s.len(),
            rest@ == s.skip(i),
            out@ == sorted_by_key(s.take(i)),
        decreases rest.len(),
    {
        assert(s.skip(i)[0] == s[i]);
        let x = rest.remove(0);
        let p = find_key_upper_bound(&out, x.key());
        out.insert(p, x);
        proof {
            assert(s.take(i + 1).drop_last() =~= s.take(i));
            assert(s.take(i + 1).last() == s[i]);
            assert(rest@ =~= s.skip(i + 1));
            i = i + 1;
        }
    }
    assert(s.take(i) =~= s);
    out
}

/// Keys never decrease along the sequence.
pub open spec fn keys_sorted<T: TextKey>(s: Seq<T>) -> bool {
    forall|i: int, j: int| 0 <= i < j < s.len() ==> lex_le(s[i].key_view(), s[j].key_view())
}

proof fn lemma_key_upper_bound<T: TextKey>(s: Seq<T>, k: Seq<char>)
    ensures
        key_upper_bound(s, k) <= s.len(),
        forall|j: int| 0 <= j < key_upper_bound(s, k) ==> lex_le(#[trigger] s[j].key_view(), k),
        key_upper_bound(s, k) < s.len() ==> !lex_le(s[key_upper_bound(s, k) as int].key_view(), k),
    decreases s.len(),
{
    if s.len() > 0 && lex_le(s[0].key_view(), k) {
        lemma_key_upper_bound(s.drop_first(), k);
        assert forall|j: int| 0 <= j < key_upper_bound(s, k) implies lex_le(#[trigger] s[j].key_view(), k) by {
            if j > 0 {
                assert(s[j] == s.drop_first()[j - 1]);
            }
        }
    }
}

/// Sorting by key yields a sequence whose keys never decrease and which
/// holds the same records, each as often as before.
pub proof fn law_sort_by_key<T: TextKey>(s: Seq<T>)
    ensures
        keys_sorted(sorted_by_key(s)),
        sorted_by_key(s).to_multiset() == s.to_multiset(),
        sorted_by_key(s).len() == s.len(),
    decreases s.len(),
{
    broadcast use vstd::seq_lib::to_multiset_insert, vstd::seq_lib::to_multiset_build;

    if s.len() > 0 {
        let d = s.drop_last();
        let x = s.last();
        law_sort_by_key(d);
        let t = sorted_by_key(d);
        let p = key_upper_bound(t, x.key_view()) as int;
        lemma_key_upper_bound(t, x.key_view());
        let r = t.insert(p, x);
        if p < t.len() {
            lemma_lex_total(t[p].key_view(), x.key_view());
        }
        assert forall|i: int, j: int| 0 <= i < j < r.len() implies lex_le(r[i].key_view(), r[j].key_view()) by {
            if j < p {
            } else if j == p {
            } else if i < p {
                assert(r[j] == t[j - 1]);
                lemma_lex_trans(t[i].key_view(), x.key_view(), t[p].key_view());
                if j - 1 > p {
                    lemma_lex_trans(t[i].key_view(), t[p].key_view(), t[j - 1].key_view());
                }
            } else if i == p {
                assert(r[j] == t[j - 1]);
                if j - 1 > p {
                    lemma_lex_trans(x.key_view(), t[p].key_view(), t[j - 1].key_view());
                }
            } else {
                assert(r[i] == t[i - 1]);
                assert(r[j] == t[j - 1]);
            }
        }
        assert(d.push(x) =~= s);
    }
}

} // verus!
