//! Sorts the ranked (team, score) list by score, descending.
//!
//! The comparison is the exact rational order, which is total, so no
//! tie-break beyond first-occurrence selection is needed: the sort
//! repeatedly moves the first maximal remaining entry, which keeps the
//! input order of entries with equal scores.

use vstd::prelude::*;
use crate::ratio::{Ratio, ratio_ge};

verus! {

/// Adjacent pairs are in non-increasing score order.
pub open spec fn sorted_desc(s: Seq<(String, Ratio)>) -> bool {
    forall|i: int| 0 <= i < s.len() - 1 ==> (#[trigger] s[i]).1.spec_ge(s[i + 1].1)
}

/// The rational order is transitive.
pub proof fn lemma_ratio_ge_trans(a: Ratio, b: Ratio, c: Ratio)
    requires
        a.wf(),
        b.wf(),
        c.wf(),
        a.spec_ge(b),
        b.spec_ge(c),
    ensures
        a.spec_ge(c),
{
    assert(a.num * c.den >= c.num * a.den) by (nonlinear_arith)
        requires
            a.num * b.den >= b.num * a.den,
            b.num * c.den >= c.num * b.den,
            a.den >= 1,
            b.den >= 1,
            c.den >= 1,
            a.num >= 0,
            b.num >= 0,
            c.num >= 0,
    ;
}

/// Sorts the list by score, descending: the result is a permutation of
/// the input whose adjacent pairs are in non-increasing score order.
pub fn sort_by_score(list: Vec<(String, Ratio)>) -> (r: Vec<(String, Ratio)>)
    requires
        forall|i: int| 0 <= i < list@.len() ==> (#[trigger] list@[i]).1.wf(),
    ensures
        r@.len() == list@.len(),
        sorted_desc(r@),
        r@.to_multiset() == list@.to_multiset(),
        forall|i: int| 0 <= i < r@.len() ==> (#[trigger] r@[i]).1.wf(),
{
    let ghost full = list@;
    let mut work = list;
    let mut out: Vec<(String, Ratio)> = Vec::new();
    proof {
        out@.to_multiset_ensures();
        work@.to_multiset_ensures();
        assert(out@.to_multiset().add(work@.to_multiset()) =~= full.to_multiset());
    }
    while work.len() > 0
        invariant
            forall|i: int| 0 <= i < work@.len() ==> (#[trigger] work@[i]).1.wf(),
            forall|i: int| 0 <= i < out@.len() ==> (#[trigger] out@[i]).1.wf(),
            sorted_desc(out@),
            forall|i: int, j: int|
                #![trigger out@[i], work@[j]]
                0 <= i < out@.len() && 0 <= j < work@.len() ==> out@[i].1.spec_ge(work@[j].1),
            out@.to_multiset().add(work@.to_multiset()) == full.to_multiset(),
            out@.len() + work@.len() == full.len(),
        decreases work@.len(),
    {
        let mut mi: usize = 0;
        let mut j: usize = 1;
        while j < work.len()
            invariant
                work@.len() >= 1,
                mi < j,
                1 <= j <= work@.len(),
                forall|i: int| 0 <= i < work@.len() ==> (#[trigger] work@[i]).1.wf(),
                forall|jj: int| 0 <= jj < j ==> work@[mi as int].1.spec_ge((#[trigger] work@[jj]).1),
            decreases work@.len() - j,
        {
            if !ratio_ge(&work[mi].1, &work[j].1) {
                proof {
                    assert(work@[j as int].1.spec_ge(work@[mi as int].1));
                    assert forall|jj: int| 0 <= jj < j + 1 implies work@[j as int].1.spec_ge(
                        (#[trigger] work@[jj]).1,
                    ) by {
                        if jj < j {
                            lemma_ratio_ge_trans(
                                work@[j as int].1,
                                work@[mi as int].1,
                                work@[jj].1,
                            );
                        }
                    }
                }
                mi = j;
            }
            j += 1;
        }
        let ghost work0 = work@;
        let ghost out0 = out@;
        let item = work.remove(mi);
        out.push(item);
        proof {
            work0.to_multiset_ensures();
            out0.to_multiset_ensures();
            assert(work@.to_multiset() =~= work0.to_multiset().remove(item));
            assert(out@.to_multiset() =~= out0.to_multiset().insert(item));
            assert(work0.contains(item)) by {
                assert(work0[mi as int] == item);
            }
            assert(work0.to_multiset().count(item) > 0);
            assert(out@.to_multiset().add(work@.to_multiset()) =~= full.to_multiset()) by {
                assert forall|x: (String, Ratio)|
                    out@.to_multiset().count(x) + work@.to_multiset().count(x)
                        == full.to_multiset().count(x) by {
                    assert(out0.to_multiset().count(x) + work0.to_multiset().count(x)
                        == full.to_multiset().count(x));
                }
            }
            assert forall|i: int| 0 <= i < out@.len() - 1 implies (#[trigger] out@[i]).1.spec_ge(
                out@[i + 1].1,
            ) by {
                if i + 1 == out@.len() - 1 {
                    assert(out@[i + 1] == item);
                    assert(out0[i].1.spec_ge(work0[mi as int].1));
                } else {
                    assert(out@[i] == out0[i] && out@[i + 1] == out0[i + 1]);
                }
            }
            assert forall|i: int, jx: int|
                #![trigger out@[i], work@[jx]]
                0 <= i < out@.len() && 0 <= jx < work@.len() implies out@[i].1.spec_ge(
                work@[jx].1,
            ) by {
                let orig: int = if jx < mi {
                    jx
                } else {
                    jx + 1
                };
                assert(work@[jx] == work0[orig]);
                if i < out@.len() - 1 {
                    assert(out@[i] == out0[i]);
                    assert(out0[i].1.spec_ge(work0[orig].1));
                } else {
                    assert(out@[i] == item);
                    assert(work0[mi as int].1.spec_ge(work0[orig].1));
                }
            }
        }
    }
    proof {
        work@.to_multiset_ensures();
        assert(out@.to_multiset() =~= full.to_multiset()) by {
            assert forall|x: (String, Ratio)| out@.to_multiset().count(x)
                == full.to_multiset().count(x) by {
                assert(!work@.contains(x));
                assert(work@.to_multiset().count(x) == 0);
                assert(out@.to_multiset().count(x) + work@.to_multiset().count(x)
                    == full.to_multiset().count(x));
            }
        }
    }
    out
}

} // verus!
