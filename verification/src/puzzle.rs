//! The parsed puzzle and its two scores.
//!
//! Part one sums the middle pages of the updates that are already in the
//! correct order; part two reorders each remaining update by the rules and
//! sums the middle pages the reordering produces. Every update is scored in
//! exactly one of the two parts.

use vstd::prelude::*;
use crate::checker::{constraint_respected, position_of, update_correct};
use crate::counting::count_preds;
use crate::ranking::{lemma_rank_injective, valid_order_instance};
use crate::resolver::find_middle_page;

verus! {

/// The parsed puzzle: ordering rules and the updates to score.
#[derive(Debug)]
pub struct Input {
    pub constraints: Vec<(u32, u32)>,
    pub updates: Vec<Vec<u32>>,
}

/// The views of a list of updates.
pub open spec fn update_views(us: Seq<Vec<u32>>) -> Seq<Seq<u32>> {
    Seq::new(us.len(), |i: int| us[i]@)
}

/// The page standing in the middle of `u`.
pub open spec fn middle_page(u: Seq<u32>) -> u32 {
    u[u.len() as int / 2]
}

/// The distinct pages of `u`, each at its first occurrence.
pub open spec fn page_set_of(u: Seq<u32>) -> Seq<u32>
    decreases u.len(),
{
    if u.len() == 0 {
        Seq::empty()
    } else {
        let rest = page_set_of(u.drop_last());
        if rest.contains(u.last()) {
            rest
        } else {
            rest.push(u.last())
        }
    }
}

/// The rules whose two pages both lie in `ps`, in order.
pub open spec fn filter_within(cs: Seq<(u32, u32)>, ps: Seq<u32>) -> Seq<(u32, u32)>
    decreases cs.len(),
{
    if cs.len() == 0 {
        Seq::empty()
    } else {
        let rest = filter_within(cs.drop_last(), ps);
        if ps.contains(cs.last().0) && ps.contains(cs.last().1) {
            rest.push(cs.last())
        } else {
            rest
        }
    }
}

/// The page that reordering `u` by the rules puts in the middle: the unique
/// page of the update's page set whose rank, under the rules restricted to
/// that set, is half the number of distinct pages.
pub open spec fn resolved_middle(u: Seq<u32>, cs: Seq<(u32, u32)>) -> u32 {
    let ps = page_set_of(u);
    let fcs = filter_within(cs, ps);
    choose|m: u32| ps.contains(m) && count_preds(ps, fcs, m) == ps.len() / 2
}

/// What an update contributes to the part-1 sum.
pub open spec fn score_correct(u: Seq<u32>, cs: Seq<(u32, u32)>) -> nat {
    if update_correct(u, cs) {
        middle_page(u) as nat
    } else {
        0
    }
}

/// What an update contributes to the part-2 sum.
pub open spec fn score_incorrect(u: Seq<u32>, cs: Seq<(u32, u32)>) -> nat {
    if !update_correct(u, cs) {
        resolved_middle(u, cs) as nat
    } else {
        0
    }
}

pub open spec fn part1_sum(us: Seq<Seq<u32>>, cs: Seq<(u32, u32)>) -> nat
    decreases us.len(),
{
    if us.len() == 0 {
        0
    } else {
        part1_sum(us.drop_last(), cs) + score_correct(us.last(), cs)
    }
}

pub open spec fn part2_sum(us: Seq<Seq<u32>>, cs: Seq<(u32, u32)>) -> nat
    decreases us.len(),
{
    if us.len() == 0 {
        0
    } else {
        part2_sum(us.drop_last(), cs) + score_incorrect(us.last(), cs)
    }
}

/// The sum of every update's single score: its own middle page when it is
/// correct, the reordered middle page when it is not.
pub open spec fn combined_sum(us: Seq<Seq<u32>>, cs: Seq<(u32, u32)>) -> nat
    decreases us.len(),
{
    if us.len() == 0 {
        0
    } else {
        combined_sum(us.drop_last(), cs) + if update_correct(us.last(), cs) {
            middle_page(us.last()) as nat
        } else {
            resolved_middle(us.last(), cs) as nat
        }
    }
}

/// An update is scored in exactly one of the two parts, according to whether
/// it is correct: its other score is zero, never both and never neither.
pub proof fn lemma_update_scored_once(u: Seq<u32>, cs: Seq<(u32, u32)>)
    ensures
        update_correct(u, cs) ==> (score_correct(u, cs) == middle_page(u) as nat
            && score_incorrect(u, cs) == 0),
        !update_correct(u, cs) ==> (score_correct(u, cs) == 0 && score_incorrect(u, cs)
            == resolved_middle(u, cs) as nat),
{
}

/// Over any list of updates, the two part sums partition the combined score:
/// each update's score lands in exactly one of them.
pub proof fn lemma_parts_partition(us: Seq<Seq<u32>>, cs: Seq<(u32, u32)>)
    ensures
        part1_sum(us, cs) + part2_sum(us, cs) == combined_sum(us, cs),
    decreases us.len(),
{
    if us.len() > 0 {
        lemma_parts_partition(us.drop_last(), cs);
    }
}

pub proof fn lemma_part1_sum_prefix(us: Seq<Seq<u32>>, cs: Seq<(u32, u32)>, i: int)
    requires
        0 <= i <= us.len(),
    ensures
        part1_sum(us.take(i), cs) <= part1_sum(us, cs),
    decreases us.len(),
{
    if i == us.len() {
        assert(us.take(i) =~= us);
    } else {
        assert(us.drop_last().take(i) =~= us.take(i));
        lemma_part1_sum_prefix(us.drop_last(), cs, i);
    }
}

pub proof fn lemma_part2_sum_prefix(us: Seq<Seq<u32>>, cs: Seq<(u32, u32)>, i: int)
    requires
        0 <= i <= us.len(),
    ensures
        part2_sum(us.take(i), cs) <= part2_sum(us, cs),
    decreases us.len(),
{
    if i == us.len() {
        assert(us.take(i) =~= us);
    } else {
        assert(us.drop_last().take(i) =~= us.take(i));
        lemma_part2_sum_prefix(us.drop_last(), cs, i);
    }
}

/// Whether `v` holds `x`.
fn contains_page(v: &Vec<u32>, x: u32) -> (r: bool)
    ensures
        r == v@.contains(x),
{
    match position_of(v, x) {
        Some(_) => true,
        None => false,
    }
}

/// The distinct pages of `u`, each at its first occurrence.
#[verifier::loop_isolation(false)]
fn distinct_pages(u: &Vec<u32>) -> (r: Vec<u32>)
    ensures
        r@ == page_set_of(u@),
{
    let n = u.len();
    let mut r: Vec<u32> = Vec::new();
    let mut j: usize = 0;
    while j < n
        invariant
            j <= n,
            r@ == page_set_of(u@.take(j as int)),
        decreases n - j,
    {
        proof {
            assert(u@.take(j as int + 1).drop_last() =~= u@.take(j as int));
            assert(u@.take(j as int + 1).last() == u@[j as int]);
        }
        if !contains_page(&r, u[j]) {
            r.push(u[j]);
        }
        j += 1;
    }
    proof {
        assert(u@.take(n as int) =~= u@);
    }
    r
}

/// The rules whose two pages both lie in `ps`.
#[verifier::loop_isolation(false)]
fn restrict_rules(cs: &Vec<(u32, u32)>, ps: &Vec<u32>) -> (r: Vec<(u32, u32)>)
    ensures
        r@ == filter_within(cs@, ps@),
{
    let n = cs.len();
    let mut r: Vec<(u32, u32)> = Vec::new();
    let mut k: usize = 0;
    while k < n
        invariant
            k <= n,
            r@ == filter_within(cs@.take(k as int), ps@),
        decreases n - k,
    {
        proof {
            assert(cs@.take(k as int + 1).drop_last() =~= cs@.take(k as int));
            assert(cs@.take(k as int + 1).last() == cs@[k as int]);
        }
        let (l, rt) = cs[k];
        if contains_page(ps, l) && contains_page(ps, rt) {
            r.push(cs[k]);
        }
        k += 1;
    }
    proof {
        assert(cs@.take(n as int) =~= cs@);
    }
    r
}

/// Indices of updates which are in correct order, in increasing order.
pub open spec fn correct_indices(us: Seq<Seq<u32>>, cs: Seq<(u32, u32)>) -> Seq<usize>
    decreases us.len(),
{
    if us.len() == 0 {
        Seq::empty()
    } else {
        let rest = correct_indices(us.drop_last(), cs);
        if update_correct(us.last(), cs) {
            rest.push((us.len() - 1) as usize)
        } else {
            rest
        }
    }
}

impl Input {
    /// Whether `update` respects every applicable rule.
    #[verifier::loop_isolation(false)]
    pub fn update_is_correct(&self, update: &Vec<u32>) -> (r: bool)
        ensures
            r == update_correct(update@, self.constraints@),
    {
        let n = self.constraints.len();
        let mut k: usize = 0;
        while k < n
            invariant
                k <= n,
                forall|j: int|
                    0 <= j < k ==> constraint_respected(update@, #[trigger] self.constraints@[j]),
            decreases n - k,
        {
            let (l, rt) = self.constraints[k];
            let pl = position_of(update, l);
            let pr = position_of(update, rt);
            match (pl, pr) {
                (Some(a), Some(b)) => {
                    if a > b {
                        proof {
                            assert(!constraint_respected(update@, self.constraints@[k as int]));
                        }
                        return false;
                    }
                },
                _ => {},
            }
            proof {
                assert(constraint_respected(update@, self.constraints@[k as int]));
            }
            k += 1;
        }
        true
    }

    /// Indices of updates which are in correct order.
    #[verifier::loop_isolation(false)]
    pub fn updates_in_correct_order(&self) -> (r: Vec<usize>)
        ensures
            r@ == correct_indices(update_views(self.updates@), self.constraints@),
    {
        let n = self.updates.len();
        let mut r: Vec<usize> = Vec::new();
        let mut i: usize = 0;
        while i < n
            invariant
                i <= n,
                r@ == correct_indices(
                    update_views(self.updates@).take(i as int),
                    self.constraints@,
                ),
            decreases n - i,
        {
            proof {
                let views = update_views(self.updates@);
                assert(views.take(i as int + 1).drop_last() =~= views.take(i as int));
                assert(views.take(i as int + 1).last() == self.updates@[i as int]@);
            }
            if self.update_is_correct(&self.updates[i]) {
                r.push(i);
            }
            i += 1;
        }
        proof {
            assert(update_views(self.updates@).take(n as int) =~= update_views(self.updates@));
        }
        r
    }

    /// Sum of the middle pages of the updates that are already in correct
    /// order.
    #[verifier::loop_isolation(false)]
    pub fn solve_q1(&self) -> (r: u32)
        requires
            forall|j: int| 0 <= j < self.updates@.len() ==> (#[trigger] self.updates@[j])@.len() >= 1,
            part1_sum(update_views(self.updates@), self.constraints@) <= u32::MAX,
        ensures
            r as nat == part1_sum(update_views(self.updates@), self.constraints@),
    {
        let n = self.updates.len();
        let mut total: u32 = 0;
        let mut i: usize = 0;
        while i < n
            invariant
                i <= n,
                total as nat == part1_sum(
                    update_views(self.updates@).take(i as int),
                    self.constraints@,
                ),
            decreases n - i,
        {
            proof {
                let views = update_views(self.updates@);
                assert(views.take(i as int + 1).drop_last() =~= views.take(i as int));
                assert(views.take(i as int + 1).last() == self.updates@[i as int]@);
                lemma_part1_sum_prefix(views, self.constraints@, i as int + 1);
            }
            let u = &self.updates[i];
            if self.update_is_correct(u) {
                let m = u[u.len() / 2];
                proof {
                    assert(m == middle_page(self.updates@[i as int]@));
                }
                total = total + m;
            }
            i += 1;
        }
        proof {
            assert(update_views(self.updates@).take(n as int) =~= update_views(self.updates@));
        }
        total
    }

    /// Sum of the middle pages that reordering gives the updates that are not
    /// in correct order. For each such update the rules restricted to its
    /// distinct pages must order them totally, as the puzzle guarantees.
    #[verifier::loop_isolation(false)]
    pub fn solve_q2(&self) -> (r: u32)
        requires
            forall|j: int|
                0 <= j < self.updates@.len() && !update_correct(
                    (#[trigger] self.updates@[j])@,
                    self.constraints@,
                ) ==> valid_order_instance(
                    page_set_of(self.updates@[j]@),
                    filter_within(self.constraints@, page_set_of(self.updates@[j]@)),
                ),
            part2_sum(update_views(self.updates@), self.constraints@) <= u32::MAX,
        ensures
            r as nat == part2_sum(update_views(self.updates@), self.constraints@),
    {
        let n = self.updates.len();
        let mut total: u32 = 0;
        let mut i: usize = 0;
        while i < n
            invariant
                i <= n,
                total as nat == part2_sum(
                    update_views(self.updates@).take(i as int),
                    self.constraints@,
                ),
            decreases n - i,
        {
            proof {
                let views = update_views(self.updates@);
                assert(views.take(i as int + 1).drop_last() =~= views.take(i as int));
                assert(views.take(i as int + 1).last() == self.updates@[i as int]@);
                lemma_part2_sum_prefix(views, self.constraints@, i as int + 1);
            }
            let u = &self.updates[i];
            if !self.update_is_correct(u) {
                let pages = distinct_pages(u);
                let rules = restrict_rules(&self.constraints, &pages);
                let m = find_middle_page(&pages, &rules);
                proof {
                    let ps = page_set_of(self.updates@[i as int]@);
                    let fcs = filter_within(self.constraints@, ps);
                    let rm = resolved_middle(self.updates@[i as int]@, self.constraints@);
                    assert(ps.contains(rm) && count_preds(ps, fcs, rm) == ps.len() / 2) by {
                        assert(ps.contains(m) && count_preds(ps, fcs, m) == ps.len() / 2);
                    }
                    lemma_rank_injective(ps, fcs, m, rm);
                }
                total = total + m;
            }
            i += 1;
        }
        proof {
            assert(update_views(self.updates@).take(n as int) =~= update_views(self.updates@));
        }
        total
    }
}

/// Part-1 answer as the harness consumes it.
pub fn part1(input: &Input) -> (r: usize)
    requires
        forall|j: int| 0 <= j < input.updates@.len() ==> (#[trigger] input.updates@[j])@.len() >= 1,
        part1_sum(update_views(input.updates@), input.constraints@) <= u32::MAX,
    ensures
        r as nat == part1_sum(update_views(input.updates@), input.constraints@),
{
    input.solve_q1() as usize
}

/// Part-2 answer as the harness consumes it.
pub fn part2(input: &Input) -> (r: usize)
    requires
        forall|j: int|
            0 <= j < input.updates@.len() && !update_correct(
                (#[trigger] input.updates@[j])@,
                input.constraints@,
            ) ==> valid_order_instance(
                page_set_of(input.updates@[j]@),
                filter_within(input.constraints@, page_set_of(input.updates@[j]@)),
            ),
        part2_sum(update_views(input.updates@), input.constraints@) <= u32::MAX,
    ensures
        r as nat == part2_sum(update_views(input.updates@), input.constraints@),
{
    input.solve_q2() as usize
}

} // verus!
