//! Candidate-set utilities for the query executor.

use vstd::prelude::*;

use crate::text::slice_eq;

verus! {

/// The byte sequences underlying a sequence of byte vectors.
pub open spec fn views_of(v: Seq<Vec<u8>>) -> Seq<Seq<u8>> {
    v.map_values(|x: Vec<u8>| x@)
}

/// Pushing a byte vector extends the underlying byte sequences.
pub proof fn lemma_views_of_push(v: Seq<Vec<u8>>, x: Vec<u8>)
    ensures
        views_of(v.push(x)) =~= views_of(v).push(x@),
{
    assert forall|q: int| 0 <= q < v.len() + 1 implies views_of(v.push(x))[q] == views_of(v).push(
        x@,
    )[q] by {
        if q < v.len() {
            assert(v.push(x)[q] == v[q]);
        } else {
            assert(v.push(x)[q] == x);
        }
    }
}

/// Whether `x` occurs among the byte vectors of `v`.
pub fn contains_bytes(v: &Vec<Vec<u8>>, x: &Vec<u8>) -> (r: bool)
    ensures
        r == views_of(v@).contains(x@),
{
    let mut i: usize = 0;
    while i < v.len()
        invariant
            0 <= i <= v@.len(),
            forall|j: int| 0 <= j < i ==> views_of(v@)[j] != x@,
        decreases v@.len() - i,
    {
        if slice_eq(v[i].as_slice(), x.as_slice()) {
            proof {
                assert(views_of(v@)[i as int] == x@);
            }
            return true;
        }
        i = i + 1;
    }
    proof {
        if views_of(v@).contains(x@) {
            let j = choose|j: int| 0 <= j < views_of(v@).len() && views_of(v@)[j] == x@;
            assert(false);
        }
    }
    false
}

/// Intersect a candidate set `b` into the accumulator `a`: an empty
/// accumulator is seeded with `b`, a non-empty one retains exactly its
/// elements that also occur in `b`, keeping their order.
pub fn intersect(a: &mut Vec<Vec<u8>>, b: Vec<Vec<u8>>)
    ensures
        old(a)@.len() == 0 ==> views_of(final(a)@) == views_of(b@),
        old(a)@.len() > 0 ==> views_of(final(a)@) == views_of(old(a)@).filter(
            |x: Seq<u8>| views_of(b@).contains(x),
        ),
{
    if a.len() == 0 {
        *a = b;
    } else {
        retain_in(a, &b);
    }
}

/// Keep exactly the elements of `a` that also occur in `b`, in order.
pub fn retain_in(a: &mut Vec<Vec<u8>>, b: &Vec<Vec<u8>>)
    ensures
        views_of(final(a)@) == views_of(old(a)@).filter(|x: Seq<u8>| views_of(b@).contains(x)),
{
    let mut rest: Vec<Vec<u8>> = Vec::new();
    core::mem::swap(a, &mut rest);
    let ghost full: Seq<Seq<u8>> = views_of(rest@);
    let ghost pred = |x: Seq<u8>| views_of(b@).contains(x);
    proof {
        assert(views_of(a@) =~= Seq::<Seq<u8>>::empty());
        assert(full.subrange(0, 0) =~= Seq::<Seq<u8>>::empty());
        reveal_with_fuel(Seq::filter, 1);
        assert(views_of(a@) == full.subrange(0, 0).filter(pred));
    }
    let total_now: usize = rest.len();
    let ghost total: int = total_now as int;
    let mut i: usize = 0;
    while rest.len() > 0
        invariant
            0 <= i as int <= total,
            full.len() == total,
            total <= usize::MAX,
            rest@.len() == total - i as int,
            views_of(rest@) =~= full.subrange(i as int, total),
            views_of(a@) == full.subrange(0, i as int).filter(pred),
            pred == (|x: Seq<u8>| views_of(b@).contains(x)),
        decreases rest@.len(),
    {
        let ghost pre = rest@;
        let x = rest.remove(0);
        proof {
            assert(views_of(pre)[0] == x@);
            assert(views_of(pre) == full.subrange(i as int, total));
            assert(full.subrange(i as int, total)[0] == full[i as int]);
            assert(x@ == full[i as int]);
            assert forall|j: int| 0 <= j < rest@.len() implies views_of(rest@)[j] == full.subrange(
                i as int + 1,
                total,
            )[j] by {
                assert(rest@[j] == pre.remove(0)[j]);
                assert(pre.remove(0)[j] == pre[j + 1]);
                assert(views_of(pre)[j + 1] == pre[j + 1]@);
                assert(full.subrange(i as int, total)[j + 1] == full[i as int + 1 + j]);
                assert(full.subrange(i as int + 1, total)[j] == full[i as int + 1 + j]);
            }
            assert(views_of(rest@) =~= full.subrange(i as int + 1, total));
        }
        let hit = contains_bytes(b, &x);
        if hit {
            a.push(x);
        }
        proof {
            let pre = full.subrange(0, i as int);
            let post = full.subrange(0, i as int + 1);
            assert(post.drop_last() =~= pre);
            assert(post.last() == full[i as int]);
            reveal_with_fuel(Seq::filter, 2);
            assert(views_of(a@) =~= post.filter(pred));
        }
        i = i + 1;
    }
    proof {
        assert(full.subrange(0, total) =~= full);
    }
}

/// Retaining the elements of `a` that occur in `b` computes the set
/// intersection and keeps distinctness.
pub proof fn lemma_retain_sets(a: Seq<Seq<u8>>, b: Seq<Seq<u8>>)
    ensures
        a.filter(|x: Seq<u8>| b.contains(x)).to_set() == a.to_set().intersect(b.to_set()),
        a.no_duplicates() ==> a.filter(|x: Seq<u8>| b.contains(x)).no_duplicates(),
    decreases a.len(),
{
    broadcast use vstd::seq_lib::group_filter_ensures;

    let pred = |x: Seq<u8>| b.contains(x);
    reveal_with_fuel(Seq::filter, 2);
    if a.len() == 0 {
        assert(a.filter(pred).to_set() =~= a.to_set().intersect(b.to_set()));
    } else {
        let dl = a.drop_last();
        lemma_retain_sets(dl, b);
        let f = a.filter(pred);
        let sub = dl.filter(pred);
        assert(f == if pred(a.last()) {
            sub.push(a.last())
        } else {
            sub
        });
        assert(a.to_set() =~= dl.to_set().insert(a.last())) by {
            assert forall|x: Seq<u8>| a.to_set().contains(x) implies dl.to_set().insert(
                a.last(),
            ).contains(x) by {
                let i = choose|i: int| 0 <= i < a.len() && a[i] == x;
                if i < a.len() - 1 {
                    assert(dl[i] == x);
                    assert(dl.to_set().contains(x));
                }
            }
            assert forall|x: Seq<u8>| dl.to_set().insert(a.last()).contains(x) implies a.to_set().contains(
                x,
            ) by {
                if dl.to_set().contains(x) {
                    let i = choose|i: int| 0 <= i < dl.len() && dl[i] == x;
                    assert(a[i] == x);
                } else {
                    assert(a[a.len() - 1] == x);
                }
            }
        }
        if pred(a.last()) {
            assert(f.to_set() =~= sub.to_set().insert(a.last())) by {
                assert forall|x: Seq<u8>| f.to_set().contains(x) implies sub.to_set().insert(
                    a.last(),
                ).contains(x) by {
                    let i = choose|i: int| 0 <= i < f.len() && f[i] == x;
                    if i < f.len() - 1 {
                        assert(sub[i] == x);
                        assert(sub.to_set().contains(x));
                    }
                }
                assert forall|x: Seq<u8>| sub.to_set().insert(a.last()).contains(x) implies f.to_set().contains(
                    x,
                ) by {
                    if sub.to_set().contains(x) {
                        let i = choose|i: int| 0 <= i < sub.len() && sub[i] == x;
                        assert(f[i] == x);
                    } else {
                        assert(f[f.len() - 1] == x);
                    }
                }
            }
            assert(f.to_set() =~= a.to_set().intersect(b.to_set()));
        } else {
            assert(f.to_set() =~= a.to_set().intersect(b.to_set()));
        }
        if a.no_duplicates() {
            assert(dl.no_duplicates()) by {
                assert(forall|i: int, j: int|
                    0 <= i < j < dl.len() ==> a[i] == dl[i] && a[j] == dl[j]);
            }
            assert(sub.no_duplicates());
            if pred(a.last()) {
                assert(!sub.contains(a.last())) by {
                    if sub.contains(a.last()) {
                        assert(sub.to_set().contains(a.last()));
                        assert(dl.to_set().contains(a.last()));
                        let i = choose|i: int| 0 <= i < dl.len() && dl[i] == a.last();
                        assert(a[i] == a[a.len() - 1]);
                    }
                }
                assert(f.no_duplicates()) by {
                    assert forall|i: int, j: int| 0 <= i < j < f.len() implies f[i] != f[j] by {
                        if j < f.len() - 1 {
                            assert(sub[i] != sub[j]);
                        } else {
                            if f[i] == a.last() {
                                assert(sub[i] == a.last());
                                assert(sub.contains(a.last()));
                            }
                        }
                    }
                }
            }
        }
    }
}

} // verus!
