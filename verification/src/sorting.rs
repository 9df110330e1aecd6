//! Ordering records by their string ids, as the snapshot logic does to make
//! rebuilt ids deterministic.
use vstd::prelude::*;

use crate::text::{chars_lt, lemma_chars_lt_transitive, lemma_chars_lt_trichotomy, str_lt};

verus! {

/// A record with a string id to order by.
pub trait Keyed {
    /// The id, as characters.
    spec fn sort_key(&self) -> Seq<char>;

    /// The id.
    fn key_str(&self) -> (r: &str)
        ensures
            r@ == self.sort_key();
}

/// Ids strictly increasing (so distinct).
pub open spec fn ids_sorted<T: Keyed>(v: Seq<T>) -> bool {
    forall|i: int, j: int| 0 <= i < j < v.len() ==> chars_lt(#[trigger] v[i].sort_key(), #[trigger] v[j].sort_key())
}

/// No two records share an id.
pub open spec fn ids_distinct<T: Keyed>(v: Seq<T>) -> bool {
    forall|i: int, j: int| 0 <= i < j < v.len() ==> #[trigger] v[i].sort_key() != #[trigger] v[j].sort_key()
}

/// Inserts `x` into the id-sorted `v` at the place its id belongs.
pub(crate) fn insert_by_key<T: Keyed>(v: &mut Vec<T>, x: T)
    requires
        ids_sorted(old(v)@),
        forall|i: int| 0 <= i < old(v)@.len() ==> (#[trigger] old(v)@[i]).sort_key() != x.sort_key(),
    ensures
        ids_sorted(final(v)@),
        final(v)@.len() == old(v)@.len() + 1,
        forall|y: T| final(v)@.contains(y) <==> (old(v)@.contains(y) || y == x),
{
    let n = v.len();
    let mut i: usize = 0;
    while i < n && str_lt(v[i].key_str(), x.key_str())
        invariant
            n == v@.len(),
            i <= n,
            v@ == old(v)@,
            forall|j: int| 0 <= j < i ==> chars_lt((#[trigger] v@[j]).sort_key(), x.sort_key()),
        decreases n - i,
    {
        i = i + 1;
    }
    let ghost old_v = v@;
    let ghost xk = x.sort_key();
    proof {
        if i < n {
            lemma_chars_lt_trichotomy(old_v[i as int].sort_key(), xk);
        }
    }
    let ghost xv = x;
    v.insert(i, x);
    proof {
        let t = v@;
        assert(t =~= old_v.insert(i as int, xv));
        assert forall|p: int, q: int| 0 <= p < q < t.len() implies chars_lt(#[trigger] t[p].sort_key(), #[trigger] t[q].sort_key()) by {
            if q < i {
                assert(t[p] == old_v[p] && t[q] == old_v[q]);
            } else if q == i {
                assert(t[q] == xv && t[p] == old_v[p]);
            } else if p == i {
                assert(t[p] == xv && t[q] == old_v[q - 1]);
                if q - 1 > i {
                    assert(chars_lt(old_v[i as int].sort_key(), old_v[q - 1].sort_key()));
                    lemma_chars_lt_transitive(xk, old_v[i as int].sort_key(), old_v[q - 1].sort_key());
                }
            } else if p < i {
                assert(t[p] == old_v[p] && t[q] == old_v[q - 1]);
                if q - 1 > i {
                    assert(chars_lt(old_v[i as int].sort_key(), old_v[q - 1].sort_key()));
                    lemma_chars_lt_transitive(xk, old_v[i as int].sort_key(), old_v[q - 1].sort_key());
                }
                lemma_chars_lt_transitive(old_v[p].sort_key(), xk, old_v[q - 1].sort_key());
            } else {
                assert(t[p] == old_v[p - 1] && t[q] == old_v[q - 1]);
            }
        }
        assert forall|y: T| t.contains(y) <==> (old_v.contains(y) || y == xv) by {
            if t.contains(y) {
                let j = choose|j: int| 0 <= j < t.len() && t[j] == y;
                if j < i {
                    assert(old_v[j] == y);
                } else if j > i {
                    assert(old_v[j - 1] == y);
                }
            }
            if old_v.contains(y) {
                let j = choose|j: int| 0 <= j < old_v.len() && old_v[j] == y;
                if j < i {
                    assert(t[j] == y);
                } else {
                    assert(t[j + 1] == y);
                }
            }
            if y == xv {
                assert(t[i as int] == y);
            }
        }
    }
}

/// The records of `items` in increasing order of their (distinct) ids.
pub fn sort_by_key<T: Keyed>(items: Vec<T>) -> (r: Vec<T>)
    requires
        ids_distinct(items@),
    ensures
        ids_sorted(r@),
        r@.len() == items@.len(),
        forall|y: T| r@.contains(y) <==> items@.contains(y),
{
    let ghost all = items@;
    let mut rest = items;
    let mut out: Vec<T> = Vec::new();
    while rest.len() > 0
        invariant
            ids_distinct(all),
            ids_sorted(out@),
            out@.len() + rest@.len() == all.len(),
            rest@ == all.subrange(0, rest@.len() as int),
            forall|y: T| out@.contains(y) <==> all.subrange(rest@.len() as int, all.len() as int).contains(y),
        decreases rest@.len(),
    {
        let ghost k = rest@.len() as int;
        let x = rest.pop().unwrap();
        assert(x == all[k - 1]);
        proof {
            assert forall|i: int| 0 <= i < out@.len() implies (#[trigger] out@[i]).sort_key() != x.sort_key() by {
                assert(out@.contains(out@[i]));
                let s0 = all.subrange(k, all.len() as int);
                let j = choose|j: int| 0 <= j < s0.len() && s0[j] == out@[i];
                assert(all[k + j] == out@[i]);
                assert(all[k - 1].sort_key() != all[k + j].sort_key());
            }
        }
        insert_by_key(&mut out, x);
        proof {
            let s1 = all.subrange(k - 1, all.len() as int);
            let s0 = all.subrange(k, all.len() as int);
            assert forall|y: T| out@.contains(y) <==> s1.contains(y) by {
                if s1.contains(y) {
                    let j = choose|j: int| 0 <= j < s1.len() && s1[j] == y;
                    if j > 0 {
                        assert(s0[j - 1] == y);
                    }
                }
                if s0.contains(y) {
                    let j = choose|j: int| 0 <= j < s0.len() && s0[j] == y;
                    assert(s1[j + 1] == y);
                }
                if y == x {
                    assert(s1[0] == y);
                }
            }
            assert(rest@ =~= all.subrange(0, k - 1));
        }
    }
    proof {
        assert(all.subrange(0, all.len() as int) =~= all);
    }
    out
}

/// Sorting by id does not depend on the order of the input: two id-sorted
/// lists of the same records are the same list.
pub proof fn lemma_sorted_unique<T: Keyed>(s1: Seq<T>, s2: Seq<T>)
    requires
        ids_sorted(s1),
        ids_sorted(s2),
        forall|y: T| s1.contains(y) <==> s2.contains(y),
    ensures
        s1 == s2,
    decreases s1.len(),
{
    if s1.len() == 0 {
        if s2.len() > 0 {
            assert(s2.contains(s2[0]));
        }
        assert(s1 =~= s2);
    } else {
        let x = s1[0];
        assert(s1.contains(x));
        let j = choose|j: int| 0 <= j < s2.len() && s2[j] == x;
        assert(s2.contains(s2[0]));
        let i = choose|i: int| 0 <= i < s1.len() && s1[i] == s2[0];
        if j > 0 && i > 0 {
            assert(chars_lt(s2[0].sort_key(), s2[j].sort_key()));
            assert(chars_lt(s1[0].sort_key(), s1[i].sort_key()));
            lemma_chars_lt_trichotomy(s1[0].sort_key(), s2[0].sort_key());
        }
        assert(s2[0] == x);
        let t1 = s1.drop_first();
        let t2 = s2.drop_first();
        assert forall|y: T| t1.contains(y) <==> t2.contains(y) by {
            if t1.contains(y) {
                let k = choose|k: int| 0 <= k < t1.len() && t1[k] == y;
                assert(s1[k + 1] == y);
                assert(chars_lt(s1[0].sort_key(), s1[k + 1].sort_key()));
                lemma_chars_lt_trichotomy(x.sort_key(), y.sort_key());
                assert(s1.contains(y));
                let m = choose|m: int| 0 <= m < s2.len() && s2[m] == y;
                assert(m != 0);
                assert(t2[m - 1] == y);
            }
            if t2.contains(y) {
                let k = choose|k: int| 0 <= k < t2.len() && t2[k] == y;
                assert(s2[k + 1] == y);
                assert(chars_lt(s2[0].sort_key(), s2[k + 1].sort_key()));
                lemma_chars_lt_trichotomy(x.sort_key(), y.sort_key());
                assert(s2.contains(y));
                let m = choose|m: int| 0 <= m < s1.len() && s1[m] == y;
                assert(m != 0);
                assert(t1[m - 1] == y);
            }
        }
        lemma_sorted_unique(t1, t2);
        assert(s1 =~= seq![x] + t1);
        assert(s2 =~= seq![x] + t2);
    }
}

} // verus!
