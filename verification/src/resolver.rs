//! The partial topological resolver.
//!
//! Given the distinct pages of an update and the rules restricted to those
//! pages, [`find_middle_page`] finds the page that a full topological
//! ordering would place in the middle, without materialising the full order:
//! it runs a ready-stack elimination (count incoming rules, repeatedly emit a
//! page whose counter reached zero and decrement its successors' counters)
//! and stops as soon as the middle position is reached. Its contract pins the
//! result to the unique page whose rank is half the page count, which by
//! [`crate::ranking::lemma_topo_order_determines_middle`] is the middle page
//! of every topological ordering.

use vstd::prelude::*;
use crate::counting::{
    count_into, count_preds, count_val, lemma_count_into_extend, lemma_count_pair_edge,
    lemma_count_val_succ, lemma_push_contains, lemma_succ_of_membership, succ_of,
};
use crate::ranking::{
    lemma_edge_rank_lt, lemma_rank_injective, lemma_rank_lt_edge, lemma_rank_lt_len,
    lemma_rank_surjective, lemma_ready_iff_next, valid_order_instance,
};

verus! {

/// Position of `q` in `pages`.
#[verifier::loop_isolation(false)]
fn index_of_page(pages: &Vec<u32>, q: u32) -> (i: usize)
    requires
        pages@.contains(q),
    ensures
        i < pages@.len(),
        pages@[i as int] == q,
{
    let n = pages.len();
    let mut i: usize = 0;
    while i < n
        invariant
            i <= n,
            forall|k: int| 0 <= k < i ==> pages@[k] != q,
        decreases n - i,
    {
        if pages[i] == q {
            return i;
        }
        i += 1;
    }
    proof {
        let k = choose|k: int| 0 <= k < pages@.len() && pages@[k] == q;
        assert(false);
    }
    0
}

/// Number of rules pointing into `q`, with multiplicity.
#[verifier::loop_isolation(false)]
fn count_incoming(cs: &Vec<(u32, u32)>, q: u32) -> (c: usize)
    ensures
        c == count_into(cs@, q, Seq::<u32>::empty()),
{
    let n = cs.len();
    let mut c: usize = 0;
    let mut k: usize = 0;
    while k < n
        invariant
            k <= n,
            c <= k,
            c == count_into(cs@.take(k as int), q, Seq::<u32>::empty()),
        decreases n - k,
    {
        proof {
            assert(cs@.take(k as int + 1).drop_last() =~= cs@.take(k as int));
            assert(cs@.take(k as int + 1).last() == cs@[k as int]);
            assert(!Seq::<u32>::empty().contains(cs@[k as int].0));
        }
        if cs[k].1 == q {
            c += 1;
        }
        k += 1;
    }
    proof {
        assert(cs@.take(n as int) =~= cs@);
    }
    c
}

/// The successors the rules give `p`, in rule order, with multiplicity.
#[verifier::loop_isolation(false)]
fn successors_of(cs: &Vec<(u32, u32)>, p: u32) -> (r: Vec<u32>)
    ensures
        r@ == succ_of(cs@, p),
{
    let n = cs.len();
    let mut r: Vec<u32> = Vec::new();
    let mut k: usize = 0;
    while k < n
        invariant
            k <= n,
            r@ == succ_of(cs@.take(k as int), p),
        decreases n - k,
    {
        proof {
            assert(cs@.take(k as int + 1).drop_last() =~= cs@.take(k as int));
            assert(cs@.take(k as int + 1).last() == cs@[k as int]);
        }
        if cs[k].0 == p {
            let ghost prev = r@;
            r.push(cs[k].1);
            proof {
                assert(r@ =~= prev + seq![cs@[k as int].1]);
            }
        } else {
            proof {
                assert(r@ =~= r@ + Seq::<u32>::empty());
            }
        }
        k += 1;
    }
    proof {
        assert(cs@.take(n as int) =~= cs@);
    }
    r
}

/// Find the middle page of the unique ordering of `pages` that respects
/// `constraints`, stopping as soon as the middle position is reached.
///
/// `pages` are the distinct pages under consideration and `constraints` are
/// the rules already restricted to those pages; the rules must totally order
/// the pages. The result is the page with exactly `pages.len() / 2`
/// predecessors — the page standing at index `pages.len() / 2` (0-based) of
/// any topological ordering.
#[verifier::loop_isolation(false)]
#[verifier::rlimit(100)]
pub fn find_middle_page(pages: &Vec<u32>, constraints: &Vec<(u32, u32)>) -> (r: u32)
    requires
        valid_order_instance(pages@, constraints@),
    ensures
        pages@.contains(r),
        count_preds(pages@, constraints@, r) == pages@.len() / 2,
{
    let ghost ps = pages@;
    let ghost cs = constraints@;
    let n = pages.len();

    // One counter per position of `pages`: how many rules point into that
    // page, with multiplicity.
    let mut indeg: Vec<usize> = Vec::new();
    let mut i: usize = 0;
    while i < n
        invariant
            i <= n,
            indeg@.len() == i as int,
            forall|k: int|
                0 <= k < i ==> indeg@[k] == count_into(cs, ps[k], Seq::<u32>::empty()),
        decreases n - i,
    {
        indeg.push(count_incoming(constraints, pages[i]));
        i += 1;
    }

    // One successor list per position of `pages`.
    let mut adj: Vec<Vec<u32>> = Vec::new();
    i = 0;
    while i < n
        invariant
            i <= n,
            adj@.len() == i as int,
            forall|k: int| 0 <= k < i ==> (#[trigger] adj@[k])@ == succ_of(cs, ps[k]),
        decreases n - i,
    {
        adj.push(successors_of(constraints, pages[i]));
        i += 1;
    }

    // The ready stack: pages none of whose predecessors remain. Initially the
    // pages with no incoming rule at all; under the total-order assumption
    // that is exactly one page.
    let mut starts: Vec<u32> = Vec::new();
    i = 0;
    while i < n
        invariant
            i <= n,
            starts@.len() <= 1,
            starts@.len() == 1 ==> ps.contains(starts@[0]) && count_into(
                cs,
                starts@[0],
                Seq::<u32>::empty(),
            ) == 0,
            forall|k: int|
                0 <= k < i && count_into(cs, #[trigger] ps[k], Seq::<u32>::empty()) == 0
                    ==> starts@.contains(ps[k]),
            forall|k: int| i <= k < n ==> !starts@.contains(#[trigger] ps[k]),
        decreases n - i,
    {
        if indeg[i] == 0 {
            proof {
                assert(ps.contains(ps[i as int]));
                if starts@.len() == 1 {
                    lemma_ready_iff_next(ps, cs, Seq::<u32>::empty(), ps[i as int]);
                    lemma_ready_iff_next(ps, cs, Seq::<u32>::empty(), starts@[0]);
                    lemma_rank_injective(ps, cs, ps[i as int], starts@[0]);
                    assert(starts@.contains(starts@[0]));
                    assert(false);
                }
            }
            let ghost prev = starts@;
            starts.push(pages[i]);
            proof {
                assert forall|k: int| i as int + 1 <= k < n implies !starts@.contains(
                    #[trigger] ps[k],
                ) by {
                    lemma_push_contains(prev, ps[i as int], ps[k]);
                }
                assert(starts@[0] == ps[i as int]);
            }
        } else {
            proof {
                assert forall|k: int|
                    0 <= k < i as int + 1 && count_into(cs, #[trigger] ps[k], Seq::<u32>::empty())
                        == 0 implies starts@.contains(ps[k]) by {}
            }
        }
        i += 1;
    }

    // Exactly the page of rank 0 is on the stack now.
    proof {
        lemma_rank_surjective(ps, cs, 0);
        let r0 = choose|x: u32| ps.contains(x) && count_preds(ps, cs, x) == 0;
        lemma_ready_iff_next(ps, cs, Seq::<u32>::empty(), r0);
        let k0 = choose|k: int| 0 <= k < ps.len() && ps[k] == r0;
        assert(starts@.contains(ps[k0]));
        assert(starts@.len() == 1);
        lemma_ready_iff_next(ps, cs, Seq::<u32>::empty(), starts@[0]);
    }

    // Emit pages in rank order until the middle position is filled.
    let mut order: Vec<u32> = Vec::new();
    let goal = n / 2;
    while order.len() < goal + 1
        invariant
            order@.len() <= goal + 1,
            indeg@.len() == n as int,
            forall|j: int|
                0 <= j < order@.len() ==> ps.contains(#[trigger] order@[j]) && count_preds(
                    ps,
                    cs,
                    order@[j],
                ) == j,
            forall|k: int|
                0 <= k < n && !order@.contains(#[trigger] ps[k]) ==> indeg@[k] == count_into(
                    cs,
                    ps[k],
                    order@,
                ),
            order@.len() < n ==> (starts@.len() == 1 && ps.contains(starts@[0])
                && !order@.contains(starts@[0]) && count_preds(ps, cs, starts@[0])
                == order@.len()),
            order@.len() >= n ==> starts@.len() == 0,
        decreases goal + 1 - order.len(),
    {
        proof {
            assert(order@.len() < n);
        }
        let ghost prev_order = order@;
        let ghost rank_curr = order@.len();
        let curr = starts.pop().unwrap();
        order.push(curr);
        let ghost ord_new = order@;
        let ci = index_of_page(pages, curr);
        let succ_list = &adj[ci];
        proof {
            assert(succ_list@ == succ_of(cs, curr)) by {
                assert(ps[ci as int] == curr);
            }
            assert(ord_new == prev_order.push(curr));
            // Splitting each unemitted page's counter: rules from pages other
            // than `curr`, plus the rules from `curr` still to be walked.
            assert forall|k: int|
                0 <= k < n && !ord_new.contains(#[trigger] ps[k]) implies indeg@[k] == count_into(
                cs,
                ps[k],
                ord_new,
            ) + count_val(succ_list@.skip(0), ps[k]) by {
                lemma_push_contains(prev_order, curr, ps[k]);
                assert(!prev_order.contains(ps[k]));
                lemma_count_into_extend(cs, ps[k], prev_order, curr);
                lemma_count_val_succ(cs, curr, ps[k]);
                assert(succ_list@.skip(0) =~= succ_list@);
            }
            // Nothing is ready at this instant: every remaining page still
            // waits at least for a rule from `curr`.
            assert forall|k: int|
                0 <= k < n && !ord_new.contains(#[trigger] ps[k]) && count_into(cs, ps[k], ord_new)
                    == 0 && count_val(succ_list@.skip(0), ps[k]) == 0 implies starts@.contains(
                ps[k],
            ) by {
                lemma_ready_iff_next(ps, cs, ord_new, ps[k]);
                lemma_rank_lt_edge(ps, cs, curr, ps[k]);
                lemma_count_pair_edge(cs, curr, ps[k]);
                lemma_count_val_succ(cs, curr, ps[k]);
                assert(succ_list@.skip(0) =~= succ_list@);
                assert(false);
            }
        }
        let mut t: usize = 0;
        while t < succ_list.len()
            invariant
                t <= succ_list@.len(),
                order@ == ord_new,
                indeg@.len() == n as int,
                forall|k: int|
                    0 <= k < n && !ord_new.contains(#[trigger] ps[k]) ==> indeg@[k] == count_into(
                        cs,
                        ps[k],
                        ord_new,
                    ) + count_val(succ_list@.skip(t as int), ps[k]),
                starts@.len() <= 1,
                starts@.len() == 1 ==> (ps.contains(starts@[0]) && !ord_new.contains(starts@[0])
                    && count_into(cs, starts@[0], ord_new) == 0 && count_val(
                    succ_list@.skip(t as int),
                    starts@[0],
                ) == 0),
                forall|k: int|
                    0 <= k < n && !ord_new.contains(#[trigger] ps[k]) && count_into(
                        cs,
                        ps[k],
                        ord_new,
                    ) == 0 && count_val(succ_list@.skip(t as int), ps[k]) == 0
                        ==> starts@.contains(ps[k]),
            decreases succ_list@.len() - t,
        {
            let sp = succ_list[t];
            proof {
                assert(succ_list@.contains(sp));
                lemma_succ_of_membership(cs, curr, sp);
                let ke = choose|k: int| 0 <= k < cs.len() && (#[trigger] cs[k]) == (curr, sp);
                assert(ps.contains(cs[ke].1));
                assert(ps.contains(sp));
                lemma_edge_rank_lt(ps, cs, curr, sp);
                assert(!ord_new.contains(sp)) by {
                    if ord_new.contains(sp) {
                        let j = choose|j: int| 0 <= j < ord_new.len() && ord_new[j] == sp;
                        assert(count_preds(ps, cs, ord_new[j]) == j);
                    }
                }
            }
            let si = index_of_page(pages, sp);
            proof {
                assert(ps[si as int] == sp);
                assert(succ_list@.skip(t as int)[0] == succ_list@[t as int]);
                assert(count_val(succ_list@.skip(t as int), sp) >= 1);
                assert(indeg@[si as int] >= 1);
            }
            let d = indeg[si];
            indeg[si] = d - 1;
            let ghost prev_starts = starts@;
            let pushed = d - 1 == 0;
            if pushed {
                proof {
                    assert(count_into(cs, sp, ord_new) == 0 && count_val(
                        succ_list@.skip(t as int + 1),
                        sp,
                    ) == 0) by {
                        assert(succ_list@.skip(t as int).drop_first() =~= succ_list@.skip(
                            t as int + 1,
                        ));
                    }
                    if starts@.len() == 1 {
                        lemma_ready_iff_next(ps, cs, ord_new, sp);
                        lemma_ready_iff_next(ps, cs, ord_new, starts@[0]);
                        lemma_rank_injective(ps, cs, sp, starts@[0]);
                        assert(count_val(succ_list@.skip(t as int), starts@[0]) == 0);
                        assert(count_val(succ_list@.skip(t as int), sp) >= 1);
                        assert(false);
                    }
                }
                starts.push(sp);
            }
            proof {
                assert(succ_list@.skip(t as int).drop_first() =~= succ_list@.skip(t as int + 1));
                assert forall|x: u32|
                    count_val(succ_list@.skip(t as int), x) == (if succ_list@[t as int] == x {
                        1nat
                    } else {
                        0nat
                    }) + count_val(succ_list@.skip(t as int + 1), x) by {
                    assert(succ_list@.skip(t as int)[0] == succ_list@[t as int]);
                }
                // counters still split correctly
                assert forall|k: int|
                    0 <= k < n && !ord_new.contains(#[trigger] ps[k]) implies indeg@[k]
                    == count_into(cs, ps[k], ord_new) + count_val(
                    succ_list@.skip(t as int + 1),
                    ps[k],
                ) by {
                    if k != si as int {
                        assert(ps[k] != sp);
                    }
                }
                // the stack still holds exactly the pages already known ready
                if pushed {
                    assert forall|k: int|
                        0 <= k < n && !ord_new.contains(#[trigger] ps[k]) && count_into(
                            cs,
                            ps[k],
                            ord_new,
                        ) == 0 && count_val(succ_list@.skip(t as int + 1), ps[k]) == 0
                            implies starts@.contains(ps[k]) by {
                        lemma_push_contains(prev_starts, sp, ps[k]);
                        if ps[k] != sp {
                            assert(count_val(succ_list@.skip(t as int), ps[k]) == 0);
                        }
                    }
                    assert(starts@.len() == 1 && starts@[0] == sp);
                } else {
                    assert forall|k: int|
                        0 <= k < n && !ord_new.contains(#[trigger] ps[k]) && count_into(
                            cs,
                            ps[k],
                            ord_new,
                        ) == 0 && count_val(succ_list@.skip(t as int + 1), ps[k]) == 0
                            implies starts@.contains(ps[k]) by {
                        if ps[k] == sp {
                            assert(indeg@[si as int] == count_into(cs, sp, ord_new) + count_val(
                                succ_list@.skip(t as int + 1),
                                sp,
                            ));
                            assert(false);
                        } else {
                            assert(count_val(succ_list@.skip(t as int), ps[k]) == 0);
                        }
                    }
                    if starts@.len() == 1 {
                        assert(count_val(succ_list@.skip(t as int + 1), starts@[0]) == 0) by {
                            assert(count_val(succ_list@.skip(t as int), starts@[0]) == 0);
                        }
                    }
                }
            }
            t += 1;
        }
        // The walk is over: the stack holds exactly the next page by rank, or
        // nothing when every page has been emitted.
        proof {
            assert(succ_list@.skip(succ_list@.len() as int) =~= Seq::<u32>::empty());
            assert(forall|x: u32| count_val(Seq::<u32>::empty(), x) == 0);
            if ord_new.len() < n {
                lemma_rank_surjective(ps, cs, ord_new.len());
                let w = choose|x: u32| ps.contains(x) && count_preds(ps, cs, x) == ord_new.len();
                assert(!ord_new.contains(w)) by {
                    if ord_new.contains(w) {
                        let j = choose|j: int| 0 <= j < ord_new.len() && ord_new[j] == w;
                        assert(count_preds(ps, cs, ord_new[j]) == j);
                    }
                }
                lemma_ready_iff_next(ps, cs, ord_new, w);
                let kw = choose|k: int| 0 <= k < ps.len() && ps[k] == w;
                assert(starts@.contains(ps[kw]));
                assert(starts@.len() == 1);
                lemma_ready_iff_next(ps, cs, ord_new, starts@[0]);
            } else {
                if starts@.len() == 1 {
                    lemma_rank_lt_len(ps, cs, starts@[0]);
                    let j = count_preds(ps, cs, starts@[0]) as int;
                    lemma_rank_injective(ps, cs, starts@[0], ord_new[j]);
                    assert(ord_new.contains(starts@[0]));
                    assert(false);
                }
            }
        }
    }
    let r = order[goal];
    proof {
        assert(count_preds(ps, cs, order@[goal as int]) == goal as int);
    }
    r
}

} // verus!
