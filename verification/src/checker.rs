//! The correctness checker.
//!
//! An update is in the correct order when, for every rule whose two pages
//! both appear in it, the first page does not stand after the second.

use vstd::prelude::*;

verus! {

/// Index of the first occurrence of `x` in `s` (meaningful when `s` holds
/// `x`).
pub open spec fn pos_of<A>(s: Seq<A>, x: A) -> int
    decreases s.len(),
{
    if s.len() == 0 {
        0
    } else if s[0] == x {
        0
    } else {
        1 + pos_of(s.drop_first(), x)
    }
}

/// The first occurrence of `x` is wherever nothing equal to `x` stands
/// earlier.
pub proof fn lemma_pos_of_first<A>(s: Seq<A>, x: A, j: int)
    requires
        0 <= j < s.len(),
        s[j] == x,
        forall|k: int| 0 <= k < j ==> s[k] != x,
    ensures
        s.contains(x),
        pos_of(s, x) == j,
    decreases s.len(),
{
    assert(s.contains(x)) by {
        assert(s[j] == x);
    }
    if j > 0 {
        assert(s[0] != x);
        assert(forall|k: int| 0 <= k < s.drop_first().len() ==> s.drop_first()[k] == s[k + 1]);
        lemma_pos_of_first(s.drop_first(), x, j - 1);
    }
}

/// The rule `c` is respected by the page sequence `u`: when both of its pages
/// appear in `u`, the first stands no later than the second.
pub open spec fn constraint_respected(u: Seq<u32>, c: (u32, u32)) -> bool {
    (u.contains(c.0) && u.contains(c.1)) ==> pos_of(u, c.0) <= pos_of(u, c.1)
}

/// An update is in the correct order exactly when it respects every rule.
pub open spec fn update_correct(u: Seq<u32>, cs: Seq<(u32, u32)>) -> bool {
    forall|k: int| 0 <= k < cs.len() ==> constraint_respected(u, #[trigger] cs[k])
}

/// First position of `p` in `u`, or `None` when `p` does not appear.
#[verifier::loop_isolation(false)]
pub fn position_of(u: &Vec<u32>, p: u32) -> (r: Option<usize>)
    ensures
        match r {
            Some(i) => u@.contains(p) && i < u@.len() && u@[i as int] == p && i as int == pos_of(
                u@,
                p,
            ),
            None => !u@.contains(p),
        },
{
    let n = u.len();
    let mut i: usize = 0;
    while i < n
        invariant
            i <= n,
            forall|k: int| 0 <= k < i ==> u@[k] != p,
        decreases n - i,
    {
        if u[i] == p {
            proof {
                lemma_pos_of_first(u@, p, i as int);
            }
            return Some(i);
        }
        i += 1;
    }
    proof {
        if u@.contains(p) {
            let k = choose|k: int| 0 <= k < u@.len() && u@[k] == p;
            assert(false);
        }
    }
    None
}

/// An update of a single page respects every rule: a rule either names a page
/// that is absent, or names the one page twice, and a position is never
/// after itself.
pub proof fn lemma_singleton_update_correct(u: Seq<u32>, cs: Seq<(u32, u32)>)
    requires
        u.len() == 1,
    ensures
        update_correct(u, cs),
{
    assert forall|k: int| 0 <= k < cs.len() implies constraint_respected(u, #[trigger] cs[k]) by {
        if u.contains(cs[k].0) && u.contains(cs[k].1) {
            let i = choose|i: int| 0 <= i < u.len() && u[i] == cs[k].0;
            let j = choose|j: int| 0 <= j < u.len() && u[j] == cs[k].1;
            assert(u[0] == cs[k].0);
            assert(u[0] == cs[k].1);
        }
    }
}

} // verus!
