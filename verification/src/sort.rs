//! Stable sorting by a start byte.

use vstd::prelude::*;

verus! {

/// A value ordered by the first byte it covers.
pub trait StartKeyed: Sized {
    spec fn start_key(&self) -> u64;

    fn get_start_key(&self) -> (k: u64)
        ensures
            k == self.start_key(),
    ;
}

/// How many values at the front of `s` have a start key of at most `key`.
pub open spec fn leading_at_most<T: StartKeyed>(s: Seq<T>, key: u64) -> nat
    decreases s.len(),
{
    if s.len() == 0 {
        0
    } else if s[0].start_key() <= key {
        1 + leading_at_most(s.drop_first(), key)
    } else {
        0
    }
}

/// `x` inserted into `s` after the values at its front whose start key is at most
/// that of `x`.
pub open spec fn insert_by_start<T: StartKeyed>(s: Seq<T>, x: T) -> Seq<T> {
    let p = leading_at_most(s, x.start_key()) as int;
    s.take(p).push(x) + s.skip(p)
}

/// `s` in the stable order of start keys: by start key, and values with equal
/// keys in the order in which they come in `s` (insertion of each value, from
/// first to last, after the values already placed whose key is not larger).
pub open spec fn sort_by_start<T: StartKeyed>(s: Seq<T>) -> Seq<T>
    decreases s.len(),
{
    if s.len() == 0 {
        s
    } else {
        insert_by_start(sort_by_start(s.drop_last()), s.last())
    }
}

/// Sorts `v` by start key, keeping values with equal keys in their order.
pub fn stable_sort_by_start<T: StartKeyed>(v: Vec<T>) -> (sorted: Vec<T>)
    ensures
        sorted@ == sort_by_start(v@),
{
    let ghost orig = v@;
    let mut rest = v;
    let mut out: Vec<T> = Vec::new();
    let n = rest.len();
    let mut i: usize = 0;
    proof {
        assert(orig.take(0) =~= Seq::<T>::empty());
    }
    while i < n
        invariant
            n == orig.len(),
            i <= n,
            rest@ == orig.skip(i as int),
            out@ == sort_by_start(orig.take(i as int)),
        decreases n - i,
    {
        let x = rest.remove(0);
        assert(x == orig[i as int]);
        let key = x.get_start_key();
        let mut p: usize = 0;
        assert(out@.skip(0) =~= out@);
        while p < out.len() && out[p].get_start_key() <= key
            invariant
                p <= out@.len(),
                leading_at_most(out@, key) == p + leading_at_most(out@.skip(p as int), key),
            decreases out@.len() - p,
        {
            proof {
                assert(out@.skip(p as int).drop_first() =~= out@.skip(p + 1));
            }
            p = p + 1;
        }
        proof {
            if p < out@.len() {
                assert(out@.skip(p as int)[0] == out@[p as int]);
            } else {
                assert(out@.skip(p as int) =~= Seq::<T>::empty());
            }
            assert(leading_at_most(out@.skip(p as int), key) == 0);
        }
        let ghost before = out@;
        out.insert(p, x);
        proof {
            assert(orig.take(i + 1).drop_last() =~= orig.take(i as int));
            assert(orig.take(i + 1).last() == x);
            assert(out@ =~= before.take(p as int).push(x) + before.skip(p as int));
            assert(rest@ =~= orig.skip(i + 1));
        }
        i = i + 1;
    }
    proof {
        assert(orig.take(n as int) =~= orig);
    }
    out
}

/// Whether the start keys of `s` never decrease.
pub open spec fn sorted_by_start<T: StartKeyed>(s: Seq<T>) -> bool {
    forall|i: int, j: int| 0 <= i <= j < s.len() ==> s[i].start_key() <= s[j].start_key()
}

proof fn lemma_leading_le<T: StartKeyed>(s: Seq<T>, key: u64)
    requires
        sorted_by_start(s),
    ensures
        leading_at_most(s, key) <= s.len(),
        forall|i: int| 0 <= i < leading_at_most(s, key) ==> #[trigger] s[i].start_key() <= key,
        forall|i: int| leading_at_most(s, key) <= i < s.len() ==> #[trigger] s[i].start_key() > key,
    decreases s.len(),
{
    if s.len() > 0 {
        let t = s.drop_first();
        assert(sorted_by_start(t)) by {
            assert forall|i: int, j: int| 0 <= i <= j < t.len() implies t[i].start_key() <= t[j].start_key() by {
                assert(t[i] == s[i + 1] && t[j] == s[j + 1]);
            }
        }
        lemma_leading_le(t, key);
        if s[0].start_key() <= key {
            assert forall|i: int| 0 <= i < leading_at_most(s, key) implies #[trigger] s[i].start_key() <= key by {
                if i > 0 {
                    assert(s[i] == t[i - 1]);
                }
            }
            assert forall|i: int| leading_at_most(s, key) <= i < s.len() implies #[trigger] s[i].start_key() > key by {
                assert(s[i] == t[i - 1]);
            }
        } else {
            assert forall|i: int| 0 <= i < s.len() implies #[trigger] s[i].start_key() > key by {
                assert(s[0].start_key() <= s[i].start_key());
            }
        }
    }
}

/// Sorting by start keeps every value and orders the values by start key: the
/// result is a permutation of `s` whose start keys never decrease.
pub proof fn lemma_sort_by_start_sorted<T: StartKeyed>(s: Seq<T>)
    ensures
        sorted_by_start(sort_by_start(s)),
        sort_by_start(s).to_multiset() == s.to_multiset(),
    decreases s.len(),
{
    if s.len() > 0 {
        let r = sort_by_start(s.drop_last());
        lemma_sort_by_start_sorted(s.drop_last());
        let x = s.last();
        let key = x.start_key();
        lemma_leading_le(r, key);
        let p = leading_at_most(r, key) as int;
        let out = r.take(p).push(x) + r.skip(p);
        assert forall|i: int, j: int| 0 <= i <= j < out.len() implies out[i].start_key() <= out[j].start_key() by {
            if i < p && j < p {
                assert(out[i] == r[i] && out[j] == r[j]);
            } else if i < p && j == p {
                assert(out[i] == r[i]);
            } else if i < p {
                assert(out[i] == r[i] && out[j] == r[j - 1]);
            } else if i == p && j > p {
                assert(out[j] == r[j - 1]);
            } else if i > p {
                assert(out[i] == r[i - 1] && out[j] == r[j - 1]);
            }
        }
        vstd::seq_lib::lemma_multiset_commutative(r.take(p).push(x), r.skip(p));
        vstd::seq_lib::lemma_multiset_commutative(r.take(p), r.skip(p));
        assert(r.take(p) + r.skip(p) =~= r);
        assert(r.take(p).push(x).to_multiset() =~= r.take(p).to_multiset().insert(x)) by {
            r.take(p).to_multiset_ensures();
        }
        assert(s.drop_last().push(x) =~= s);
        s.drop_last().to_multiset_ensures();
    }
}

} // verus!
