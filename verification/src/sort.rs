//! Merge sort of index vectors under an order given by the caller.

use vstd::prelude::*;

verus! {

broadcast use vstd::seq_lib::group_to_multiset_ensures;

/// A total preorder on indices, with an executable comparison.
pub trait IndexOrder {
    /// Index `i` can be compared.
    spec fn in_domain(&self, i: usize) -> bool;

    /// Index `i` may go before index `j`.
    spec fn before_eq(&self, i: usize, j: usize) -> bool;

    proof fn lemma_total(&self, i: usize, j: usize)
        requires
            self.in_domain(i),
            self.in_domain(j),
        ensures
            self.before_eq(i, j) || self.before_eq(j, i),
    ;

    proof fn lemma_transitive(&self, i: usize, j: usize, k: usize)
        requires
            self.in_domain(i),
            self.in_domain(j),
            self.in_domain(k),
            self.before_eq(i, j),
            self.before_eq(j, k),
        ensures
            self.before_eq(i, k),
    ;

    /// Whether index `i` may go before index `j`.
    fn goes_before_eq(&self, i: usize, j: usize) -> (res: bool)
        requires
            self.in_domain(i),
            self.in_domain(j),
        ensures
            res == self.before_eq(i, j),
    ;
}

/// `v` is sorted by `order`.
pub open spec fn sorted_by_order<O: IndexOrder>(order: &O, v: Seq<usize>) -> bool {
    forall|p: int, q: int| 0 <= p < q < v.len() ==> order.before_eq(#[trigger] v[p], #[trigger] v[q])
}

/// Every index of `v` can be compared.
pub open spec fn all_in_domain<O: IndexOrder>(order: &O, v: Seq<usize>) -> bool {
    forall|p: int| 0 <= p < v.len() ==> order.in_domain(#[trigger] v[p])
}

/// Merge two sorted index vectors into one.
#[verifier::rlimit(40)]
fn merge<O: IndexOrder>(order: &O, a: Vec<usize>, b: Vec<usize>) -> (res: Vec<usize>)
    requires
        sorted_by_order(order, a@),
        sorted_by_order(order, b@),
        all_in_domain(order, a@),
        all_in_domain(order, b@),
    ensures
        sorted_by_order(order, res@),
        all_in_domain(order, res@),
        res@.to_multiset() == a@.to_multiset().add(b@.to_multiset()),
{
    let mut out: Vec<usize> = Vec::new();
    let mut i: usize = 0;
    let mut j: usize = 0;
    proof {
        assert(a@.subrange(0, 0) =~= Seq::<usize>::empty());
        assert(b@.subrange(0, 0) =~= Seq::<usize>::empty());
        assert(out@ =~= Seq::<usize>::empty());
    }
    while i < a.len() || j < b.len()
        invariant
            i <= a@.len(),
            j <= b@.len(),
            sorted_by_order(order, a@),
            sorted_by_order(order, b@),
            all_in_domain(order, a@),
            all_in_domain(order, b@),
            sorted_by_order(order, out@),
            all_in_domain(order, out@),
            out@.to_multiset() == a@.subrange(0, i as int).to_multiset().add(
                b@.subrange(0, j as int).to_multiset(),
            ),
            out@.len() > 0 && i < a@.len() ==> order.before_eq(out@.last(), a@[i as int]),
            out@.len() > 0 && j < b@.len() ==> order.before_eq(out@.last(), b@[j as int]),
        decreases a@.len() + b@.len() - i - j,
    {
        let take_a = if j == b.len() {
            true
        } else if i == a.len() {
            false
        } else {
            order.goes_before_eq(a[i], b[j])
        };
        let next = if take_a {
            a[i]
        } else {
            b[j]
        };
        proof {
            if !take_a && i < a@.len() {
                order.lemma_total(a@[i as int], b@[j as int]);
            }
            assert forall|p: int| 0 <= p < out@.len() implies order.before_eq(
                #[trigger] out@[p],
                next,
            ) by {
                if p < out@.len() - 1 {
                    order.lemma_transitive(out@[p], out@.last(), next);
                } else {
                    assert(out@[p] == out@.last());
                }
            }
        }
        let ghost before = out@;
        out.push(next);
        proof {
            assert forall|p: int, q: int| 0 <= p < q < out@.len() implies order.before_eq(
                #[trigger] out@[p],
                #[trigger] out@[q],
            ) by {
                if q < before.len() {
                    assert(out@[p] == before[p] && out@[q] == before[q]);
                } else {
                    assert(out@[p] == before[p]);
                }
            }
        }
        if take_a {
            proof {
                assert(a@.subrange(0, i + 1) =~= a@.subrange(0, i as int).push(a@[i as int]));
                if i + 1 < a@.len() {
                    assert(order.before_eq(a@[i as int], a@[i + 1]));
                }
            }
            i += 1;
        } else {
            proof {
                assert(b@.subrange(0, j + 1) =~= b@.subrange(0, j as int).push(b@[j as int]));
                if j + 1 < b@.len() {
                    assert(order.before_eq(b@[j as int], b@[j + 1]));
                }
            }
            j += 1;
        }
    }
    proof {
        assert(a@.subrange(0, i as int) =~= a@);
        assert(b@.subrange(0, j as int) =~= b@);
    }
    out
}

/// Sort `v[lo..hi]` by `order`.
pub fn merge_sort<O: IndexOrder>(order: &O, v: &Vec<usize>, lo: usize, hi: usize) -> (res: Vec<
    usize,
>)
    requires
        lo <= hi <= v@.len(),
        all_in_domain(order, v@),
    ensures
        sorted_by_order(order, res@),
        all_in_domain(order, res@),
        res@.to_multiset() == v@.subrange(lo as int, hi as int).to_multiset(),
    decreases hi - lo,
{
    if hi - lo <= 1 {
        let mut out: Vec<usize> = Vec::new();
        if hi - lo == 1 {
            out.push(v[lo]);
        }
        proof {
            assert(out@ =~= v@.subrange(lo as int, hi as int));
        }
        return out;
    }
    let mid = lo + (hi - lo) / 2;
    let left = merge_sort(order, v, lo, mid);
    let right = merge_sort(order, v, mid, hi);
    proof {
        assert(v@.subrange(lo as int, hi as int) =~= v@.subrange(lo as int, mid as int) + v@.subrange(
            mid as int,
            hi as int,
        ));
        vstd::seq_lib::lemma_multiset_commutative(
            v@.subrange(lo as int, mid as int),
            v@.subrange(mid as int, hi as int),
        );
    }
    merge(order, left, right)
}

/// The indices `0..n`.
pub fn indices(n: usize) -> (res: Vec<usize>)
    ensures
        res@ == Seq::new(n as nat, |i: int| i as usize),
{
    let mut out: Vec<usize> = Vec::with_capacity(n);
    let mut i: usize = 0;
    while i < n
        invariant
            i <= n,
            out@ == Seq::new(i as nat, |t: int| t as usize),
        decreases n - i,
    {
        out.push(i);
        i += 1;
        proof {
            assert(out@ =~= Seq::new(i as nat, |t: int| t as usize));
        }
    }
    out
}

/// Sequences with the same elements keep the same elements under a map.
pub proof fn lemma_map_preserves_multiset<T>(s: Seq<usize>, t: Seq<usize>, f: spec_fn(usize) -> T)
    requires
        s.to_multiset() == t.to_multiset(),
    ensures
        s.map_values(f).to_multiset() == t.map_values(f).to_multiset(),
    decreases s.len(),
{
    if s.len() == 0 {
        assert(t.to_multiset().len() == 0);
        assert(t.len() == 0);
        assert(s.map_values(f) =~= Seq::<T>::empty());
        assert(t.map_values(f) =~= Seq::<T>::empty());
    } else {
        let x = s.last();
        assert(s.to_multiset().count(x) > 0) by {
            assert(s.contains(x)) by {
                assert(s[s.len() - 1] == x);
            }
        }
        assert(t.contains(x));
        let k = choose|k: int| 0 <= k < t.len() && t[k] == x;
        let s2 = s.drop_last();
        let t2 = t.remove(k);
        assert(s2.push(x) =~= s);
        assert(s2.to_multiset() == s.to_multiset().remove(x));
        assert(t2.to_multiset() == t.to_multiset().remove(t[k]));
        lemma_map_preserves_multiset(s2, t2, f);
        assert(s.map_values(f) =~= s2.map_values(f).push(f(x)));
        assert(t.map_values(f).remove(k) =~= t2.map_values(f));
        assert(t.map_values(f)[k] == f(x));
        assert(t.map_values(f).remove(k).to_multiset() == t.map_values(f).to_multiset().remove(f(x)));
        assert(t.map_values(f).to_multiset().count(f(x)) > 0) by {
            assert(t.map_values(f).contains(f(x))) by {
                assert(t.map_values(f)[k] == f(x));
            }
        }
        assert(t.map_values(f).to_multiset() =~= t.map_values(f).to_multiset().remove(f(x)).insert(
            f(x),
        ));
    }
}

} // verus!
