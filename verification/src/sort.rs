//! A stable sort over a total preorder: the result is ordered, and the
//! readings that compare equal keep their relative order from the input.
use vstd::prelude::*;

verus! {

/// A total preorder on readings, with an executable comparison.
pub trait KeyOrder: Sized {
    /// `self` sorts no later than `other`.
    spec fn key_le(self, other: Self) -> bool;

    proof fn lemma_key_le_reflexive(a: Self)
        ensures
            a.key_le(a),
    ;

    proof fn lemma_key_le_transitive(a: Self, b: Self, c: Self)
        requires
            a.key_le(b),
            b.key_le(c),
        ensures
            a.key_le(c),
    ;

    proof fn lemma_key_le_total(a: Self, b: Self)
        ensures
            a.key_le(b) || b.key_le(a),
    ;

    /// `self` sorts no later than `other`.
    fn key_le_exec(&self, other: &Self) -> (r: bool)
        ensures
            r == self.key_le(*other),
    ;
}

/// The readings whose sort key equals that of `k`.
pub open spec fn same_key<T: KeyOrder>(k: T) -> spec_fn(T) -> bool {
    |y: T| y.key_le(k) && k.key_le(y)
}

/// `s` is ordered by the preorder.
pub open spec fn sorted_by_key<T: KeyOrder>(s: Seq<T>) -> bool {
    forall|i: int, j: int| 0 <= i < j < s.len() ==> s[i].key_le(s[j])
}

/// `r` is the stable sort of `s`: ordered, and for every key the readings
/// with that key appear in `r` in the same order as in `s`.
pub open spec fn is_stable_sort_of<T: KeyOrder>(s: Seq<T>, r: Seq<T>) -> bool {
    &&& sorted_by_key(r)
    &&& forall|k: T| #[trigger] r.filter(same_key(k)) == s.filter(same_key(k))
}

proof fn lemma_filter_after_insert<T: KeyOrder>(out: Seq<T>, p: int, x: T, k: T)
    requires
        0 <= p <= out.len(),
        forall|j: int| p <= j < out.len() ==> !out[j].key_le(x),
    ensures
        out.insert(p, x).filter(same_key(k)) == if same_key(k)(x) {
            out.filter(same_key(k)).push(x)
        } else {
            out.filter(same_key(k))
        },
{
    let pred = same_key(k);
    let a = out.subrange(0, p);
    let b = out.subrange(p, out.len() as int);
    assert(out =~= a + b);
    assert(out.insert(p, x) =~= a.push(x) + b);
    Seq::filter_distributes_over_add(a, b, pred);
    Seq::filter_distributes_over_add(a.push(x), b, pred);
    a.lemma_filter_push(x, pred);
    if pred(x) {
        assert forall|j: int| 0 <= j < b.len() implies !pred(#[trigger] b[j]) by {
            if pred(b[j]) {
                T::lemma_key_le_transitive(b[j], k, x);
            }
        }
        assert(b.all(|y: T| !pred(y)));
        b.lemma_all_neg_filter_empty(pred);
        assert(b.filter(pred) =~= Seq::<T>::empty());
        assert(a.push(x).filter(pred) + b.filter(pred) =~= a.filter(pred).push(x) + b.filter(
            pred,
        ));
        assert(out.filter(pred).push(x) =~= (a.filter(pred) + b.filter(pred)).push(x));
    }
}

/// Sorts `items` stably by the preorder of `T`.
pub fn stable_sort<T: KeyOrder>(items: Vec<T>) -> (r: Vec<T>)
    ensures
        is_stable_sort_of(items@, r@),
{
    let ghost s = items@;
    let n = items.len();
    let mut rest = items;
    let mut out: Vec<T> = Vec::new();
    let mut i: usize = 0;
    while i < n
        invariant
            n == s.len(),
            i <= n,
            rest@ == s.subrange(i as int, n as int),
            sorted_by_key(out@),
            forall|k: T| #[trigger] out@.filter(same_key(k)) == s.take(i as int).filter(same_key(k)),
        decreases n - i,
    {
        let x = rest.remove(0);
        assert(x == s[i as int]);
        let mut p: usize = out.len();
        while p > 0 && !out[p - 1].key_le_exec(&x)
            invariant
                p <= out.len(),
                forall|j: int| p <= j < out.len() ==> !out@[j].key_le(x),
            decreases p,
        {
            p = p - 1;
        }
        let ghost old_out = out@;
        proof {
            assert forall|j: int| 0 <= j < p implies old_out[j].key_le(x) by {
                if j < p - 1 {
                    T::lemma_key_le_transitive(old_out[j], old_out[p - 1], x);
                }
            }
        }
        out.insert(p, x);
        proof {
            old_out.insert_ensures(p as int, x);
            assert forall|y: int, z: int| 0 <= y < z < out@.len() implies out@[y].key_le(
                out@[z],
            ) by {
                let oy = if y < p { y } else { y - 1 };
                let oz = if z < p { z } else { z - 1 };
                if y < p {
                    assert(out@[y] == old_out[y]);
                }
                if y > p {
                    assert(out@[(y - 1) + 1] == old_out[y - 1]);
                }
                if z < p {
                    assert(out@[z] == old_out[z]);
                }
                if z > p {
                    assert(out@[(z - 1) + 1] == old_out[z - 1]);
                }
                if y == p {
                    if z > p {
                        T::lemma_key_le_total(old_out[z - 1], x);
                    }
                } else if z == p {
                } else if y < p && z > p {
                    T::lemma_key_le_total(old_out[z - 1], x);
                    T::lemma_key_le_transitive(old_out[y], x, old_out[z - 1]);
                }
            }
            assert forall|k: T| #[trigger] out@.filter(same_key(k)) == s.take(i + 1).filter(
                same_key(k),
            ) by {
                lemma_filter_after_insert(old_out, p as int, x, k);
                assert(s.take(i + 1) =~= s.take(i as int).push(x));
                s.take(i as int).lemma_filter_push(x, same_key(k));
            }
        }
        i = i + 1;
    }
    assert(s.take(n as int) =~= s);
    out
}

proof fn lemma_filter_keeps_count<T>(s: Seq<T>, pred: spec_fn(T) -> bool, x: T)
    requires
        pred(x),
    ensures
        s.filter(pred).to_multiset().count(x) == s.to_multiset().count(x),
    decreases s.len(),
{
    broadcast use vstd::seq_lib::group_to_multiset_ensures;

    if s.len() > 0 {
        let init = s.drop_last();
        lemma_filter_keeps_count(init, pred, x);
        assert(s =~= init.push(s.last()));
        init.lemma_filter_push(s.last(), pred);
    } else {
        assert(s.filter(pred) =~= s);
    }
}

/// A stable sort neither loses nor duplicates readings: the result holds
/// the same readings, each as often as the input.
pub proof fn lemma_stable_sort_is_permutation<T: KeyOrder>(s: Seq<T>, r: Seq<T>)
    requires
        is_stable_sort_of(s, r),
    ensures
        r.to_multiset() == s.to_multiset(),
        r.len() == s.len(),
{
    broadcast use vstd::seq_lib::group_to_multiset_ensures;

    assert forall|x: T| r.to_multiset().count(x) == s.to_multiset().count(x) by {
        T::lemma_key_le_reflexive(x);
        assert(same_key(x)(x));
        lemma_filter_keeps_count(r, same_key(x), x);
        lemma_filter_keeps_count(s, same_key(x), x);
        assert(r.filter(same_key(x)) == s.filter(same_key(x)));
    }
    assert(r.to_multiset() =~= s.to_multiset());
    assert(r.len() == r.to_multiset().len());
    assert(s.len() == s.to_multiset().len());
}

} // verus!
