//! Constrained allocation of grid tiles to images.
//!
//! Each image starts from a base count (the floor of its weighted share of the
//! tiles). The slots left over go, one each, to the images in `order`
//! (largest remainder first). Per-image minimum and maximum counts are then
//! enforced in rounds: an image below its minimum is raised to it, taking the
//! difference from the other images down to their own minimums; an image above
//! its maximum is lowered to it, giving the excess to the other images up to
//! their own maximums. At most 100 rounds run; a round that changes nothing
//! ends them early.
//!
//! All counts are `i32`. An intermediate difference or sum that leaves the
//! `i32` range is reported as [`AllocError::Overflow`].
use crate::shuffle::shuffle_in_place;
use rand_chacha::ChaCha8Rng;
use vstd::prelude::*;

verus! {

/// Why an allocation was refused.
#[derive(Debug, Clone, Copy, PartialEq, Eq, Structural)]
pub enum AllocError {
    /// An image could not be raised to its minimum count: the other images
    /// had too few tiles above their own minimums.
    ShortOfMinimum,
    /// An image could not be lowered to its maximum count: the other images
    /// had too little room below their own maximums.
    ExcessOverMaximum,
    /// An intermediate count, difference or sum left the `i32` range.
    Overflow,
    /// When the rounds ended, some count lay outside its image's minimum and
    /// maximum (as it must where a minimum exceeds its maximum).
    BoundsUnmet,
}

/// Number of enforcement rounds that may run.
pub const MAX_ROUNDS: usize = 100;

/// Sum of a sequence of counts, as a mathematical integer.
pub open spec fn seq_sum(s: Seq<i32>) -> int
    decreases s.len(),
{
    if s.len() == 0 {
        0
    } else {
        seq_sum(s.drop_last()) + s.last() as int
    }
}

pub open spec fn fits_i32(x: int) -> bool {
    i32::MIN <= x <= i32::MAX
}

/// Every prefix sum of `s` lies in the `i32` range.
pub open spec fn prefix_sums_fit(s: Seq<i32>) -> bool {
    forall|k: int| 0 <= k <= s.len() ==> #[trigger] fits_i32(seq_sum(s.take(k)))
}

/// The leftover slots handed out one by one: the `k`-th slot (counting from 0)
/// goes to image `order[k % n]`.
pub open spec fn distribute(base: Seq<i32>, order: Seq<usize>, slots: nat) -> Seq<i32>
    decreases slots,
{
    if slots == 0 {
        base
    } else {
        let a = distribute(base, order, (slots - 1) as nat);
        let j = order[(slots - 1) % (order.len() as int)] as int;
        a.update(j, (a[j] + 1) as i32)
    }
}

/// Takes up to `need` tiles for image `i` from images `j`, `j + 1`, ...,
/// never bringing an image below its minimum. Returns the new counts and what
/// is still needed.
pub open spec fn take_for_minimum(a: Seq<i32>, mins: Seq<i32>, i: int, j: int, need: int) -> Result<
    (Seq<i32>, int),
    AllocError,
>
    decreases mins.len() - j,
{
    if j >= mins.len() {
        Ok((a, need))
    } else if j == i {
        take_for_minimum(a, mins, i, j + 1, need)
    } else {
        let available = a[j] - mins[j];
        if !fits_i32(available) {
            Err(AllocError::Overflow)
        } else if available <= 0 {
            take_for_minimum(a, mins, i, j + 1, need)
        } else {
            let take = if available < need {
                available
            } else {
                need
            };
            let a2 = a.update(j, (a[j] - take) as i32);
            if need - take == 0 {
                Ok((a2, 0))
            } else {
                take_for_minimum(a2, mins, i, j + 1, need - take)
            }
        }
    }
}

/// Gives up to `excess` tiles of image `i` to images `j`, `j + 1`, ...,
/// never bringing an image above its maximum. Returns the new counts and what
/// is still to be given away.
pub open spec fn give_for_maximum(a: Seq<i32>, maxs: Seq<i32>, i: int, j: int, excess: int) -> Result<
    (Seq<i32>, int),
    AllocError,
>
    decreases maxs.len() - j,
{
    if j >= maxs.len() {
        Ok((a, excess))
    } else if j == i {
        give_for_maximum(a, maxs, i, j + 1, excess)
    } else {
        let room = maxs[j] - a[j];
        if !fits_i32(room) {
            Err(AllocError::Overflow)
        } else if room <= 0 {
            give_for_maximum(a, maxs, i, j + 1, excess)
        } else {
            let give = if room < excess {
                room
            } else {
                excess
            };
            let a2 = a.update(j, (a[j] + give) as i32);
            if excess - give == 0 {
                Ok((a2, 0))
            } else {
                give_for_maximum(a2, maxs, i, j + 1, excess - give)
            }
        }
    }
}

/// The minimum half of a round, from image `i` on; `changed` records whether
/// any image was raised so far.
pub open spec fn raise_pass(a: Seq<i32>, mins: Seq<i32>, i: int, changed: bool) -> Result<
    (Seq<i32>, bool),
    AllocError,
>
    decreases mins.len() - i,
{
    if i >= mins.len() {
        Ok((a, changed))
    } else if a[i] < mins[i] {
        let need = mins[i] - a[i];
        if !fits_i32(need) {
            Err(AllocError::Overflow)
        } else {
            match take_for_minimum(a.update(i, mins[i]), mins, i, 0, need) {
                Err(e) => Err(e),
                Ok((a2, left)) => if left > 0 {
                    Err(AllocError::ShortOfMinimum)
                } else {
                    raise_pass(a2, mins, i + 1, true)
                },
            }
        }
    } else {
        raise_pass(a, mins, i + 1, changed)
    }
}

/// The maximum half of a round, from image `i` on.
pub open spec fn lower_pass(a: Seq<i32>, maxs: Seq<i32>, i: int, changed: bool) -> Result<
    (Seq<i32>, bool),
    AllocError,
>
    decreases maxs.len() - i,
{
    if i >= maxs.len() {
        Ok((a, changed))
    } else if a[i] > maxs[i] {
        let excess = a[i] - maxs[i];
        if !fits_i32(excess) {
            Err(AllocError::Overflow)
        } else {
            match give_for_maximum(a.update(i, maxs[i]), maxs, i, 0, excess) {
                Err(e) => Err(e),
                Ok((a2, left)) => if left > 0 {
                    Err(AllocError::ExcessOverMaximum)
                } else {
                    lower_pass(a2, maxs, i + 1, true)
                },
            }
        }
    } else {
        lower_pass(a, maxs, i + 1, changed)
    }
}

/// One enforcement round: all minimums, then all maximums. Returns the new
/// counts and whether anything changed.
pub open spec fn enforce_round(a: Seq<i32>, mins: Seq<i32>, maxs: Seq<i32>) -> Result<
    (Seq<i32>, bool),
    AllocError,
> {
    match raise_pass(a, mins, 0, false) {
        Err(e) => Err(e),
        Ok((a1, changed)) => lower_pass(a1, maxs, 0, changed),
    }
}

/// Up to `rounds` enforcement rounds, stopping after the first one that
/// changes nothing.
pub open spec fn enforce_rounds(a: Seq<i32>, mins: Seq<i32>, maxs: Seq<i32>, rounds: nat) -> Result<
    Seq<i32>,
    AllocError,
>
    decreases rounds,
{
    if rounds == 0 {
        Ok(a)
    } else {
        match enforce_round(a, mins, maxs) {
            Err(e) => Err(e),
            Ok((a1, changed)) => if !changed {
                Ok(a1)
            } else {
                enforce_rounds(a1, mins, maxs, (rounds - 1) as nat)
            },
        }
    }
}

/// The counts that the allocation assigns, or the reason it fails.
pub open spec fn allocation(
    base: Seq<i32>,
    order: Seq<usize>,
    mins: Seq<i32>,
    maxs: Seq<i32>,
    total: int,
) -> Result<Seq<i32>, AllocError> {
    let start = distribute(base, order, (total - seq_sum(base)) as nat);
    match enforce_rounds(start, mins, maxs, MAX_ROUNDS as nat) {
        Err(e) => Err(e),
        Ok(a) => if !prefix_sums_fit(a) {
            Err(AllocError::Overflow)
        } else if !within_bounds(a, mins, maxs) {
            Err(AllocError::BoundsUnmet)
        } else {
            Ok(a)
        },
    }
}

/// What the callers of [`allocate_counts`] must supply: one base count,
/// minimum and maximum per image, at least one image, an order that names
/// images, non-negative base counts whose sum does not exceed the total, and
/// a total in the `i32` range (the total is a mathematical integer here).
pub open spec fn allocation_inputs(
    base: Seq<i32>,
    order: Seq<usize>,
    mins: Seq<i32>,
    maxs: Seq<i32>,
    total: int,
) -> bool {
    &&& base.len() >= 1
    &&& order.len() == base.len()
    &&& mins.len() == base.len()
    &&& maxs.len() == base.len()
    &&& forall|k: int| 0 <= k < order.len() ==> #[trigger] order[k] < base.len()
    &&& forall|k: int| 0 <= k < base.len() ==> #[trigger] base[k] >= 0
    &&& seq_sum(base) <= total <= i32::MAX
}

// ---------------------------------------------------------------------------
// Facts about sums
// ---------------------------------------------------------------------------

/// Changing one entry changes the sum by the difference.
pub proof fn lemma_sum_update(s: Seq<i32>, j: int, v: i32)
    requires
        0 <= j < s.len(),
    ensures
        seq_sum(s.update(j, v)) == seq_sum(s) - s[j] + v,
    decreases s.len(),
{
    if j == s.len() - 1 {
        assert(s.update(j, v).drop_last() =~= s.drop_last());
    } else {
        lemma_sum_update(s.drop_last(), j, v);
        assert(s.update(j, v).drop_last() =~= s.drop_last().update(j, v));
    }
}

/// The sum of the first `k + 1` entries adds entry `k` to the first `k`.
pub proof fn lemma_sum_take_step(s: Seq<i32>, k: int)
    requires
        0 <= k < s.len(),
    ensures
        seq_sum(s.take(k + 1)) == seq_sum(s.take(k)) + s[k],
{
    assert(s.take(k + 1).drop_last() =~= s.take(k));
}

/// For non-negative entries, every prefix sum lies between 0 and the sum, and
/// so does every entry.
pub proof fn lemma_sum_nonneg_bounds(s: Seq<i32>)
    requires
        forall|k: int| 0 <= k < s.len() ==> #[trigger] s[k] >= 0,
    ensures
        seq_sum(s) >= 0,
        forall|k: int| 0 <= k <= s.len() ==> 0 <= #[trigger] seq_sum(s.take(k)) <= seq_sum(s),
        forall|k: int| 0 <= k < s.len() ==> #[trigger] s[k] <= seq_sum(s),
    decreases s.len(),
{
    if s.len() > 0 {
        let t = s.drop_last();
        lemma_sum_nonneg_bounds(t);
        assert forall|k: int| 0 <= k <= s.len() implies 0 <= #[trigger] seq_sum(s.take(k)) <= seq_sum(
            s,
        ) by {
            if k == s.len() {
                assert(s.take(k) =~= s);
            } else {
                assert(s.take(k) =~= t.take(k));
            }
        }
        assert forall|k: int| 0 <= k < s.len() implies #[trigger] s[k] <= seq_sum(s) by {
            if k < s.len() - 1 {
                assert(s[k] == t[k]);
            }
        }
    }
}

// ---------------------------------------------------------------------------
// Facts about one pass over the other images
// ---------------------------------------------------------------------------

/// Taking tiles for a minimum keeps the length and image `i`, moves exactly
/// `need - left` tiles, and lowers an image only while it stays at or above
/// its own minimum.
pub proof fn lemma_take_facts(a: Seq<i32>, mins: Seq<i32>, i: int, j: int, need: int)
    requires
        a.len() == mins.len(),
        0 <= i < a.len(),
        0 <= j,
        need >= 0,
    ensures
        take_for_minimum(a, mins, i, j, need) matches Ok((a2, left)) ==> {
            &&& a2.len() == a.len()
            &&& 0 <= left <= need
            &&& seq_sum(a2) == seq_sum(a) - (need - left)
            &&& a2[i] == a[i]
            &&& forall|k: int|
                0 <= k < a.len() ==> #[trigger] a2[k] <= a[k] && (a2[k] < a[k] ==> a2[k]
                    >= mins[k])
        },
    decreases mins.len() - j,
{
    if j >= mins.len() {
    } else if j == i {
        lemma_take_facts(a, mins, i, j + 1, need);
    } else {
        let available = a[j] - mins[j];
        if !fits_i32(available) {
        } else if available <= 0 {
            lemma_take_facts(a, mins, i, j + 1, need);
        } else {
            let take = if available < need {
                available
            } else {
                need
            };
            let a2 = a.update(j, (a[j] - take) as i32);
            lemma_sum_update(a, j, (a[j] - take) as i32);
            if need - take != 0 {
                lemma_take_facts(a2, mins, i, j + 1, need - take);
            }
        }
    }
}

/// Giving tiles away for a maximum keeps the length and image `i`, moves
/// exactly `excess - left` tiles, and raises an image only while it stays at
/// or below its own maximum.
pub proof fn lemma_give_facts(a: Seq<i32>, maxs: Seq<i32>, i: int, j: int, excess: int)
    requires
        a.len() == maxs.len(),
        0 <= i < a.len(),
        0 <= j,
        excess >= 0,
    ensures
        give_for_maximum(a, maxs, i, j, excess) matches Ok((a2, left)) ==> {
            &&& a2.len() == a.len()
            &&& 0 <= left <= excess
            &&& seq_sum(a2) == seq_sum(a) + (excess - left)
            &&& a2[i] == a[i]
            &&& forall|k: int|
                0 <= k < a.len() ==> #[trigger] a2[k] >= a[k] && (a2[k] > a[k] ==> a2[k]
                    <= maxs[k])
        },
    decreases maxs.len() - j,
{
    if j >= maxs.len() {
    } else if j == i {
        lemma_give_facts(a, maxs, i, j + 1, excess);
    } else {
        let room = maxs[j] - a[j];
        if !fits_i32(room) {
        } else if room <= 0 {
            lemma_give_facts(a, maxs, i, j + 1, excess);
        } else {
            let give = if room < excess {
                room
            } else {
                excess
            };
            let a2 = a.update(j, (a[j] + give) as i32);
            lemma_sum_update(a, j, (a[j] + give) as i32);
            if excess - give != 0 {
                lemma_give_facts(a2, maxs, i, j + 1, excess - give);
            }
        }
    }
}

// ---------------------------------------------------------------------------
// The passes keep the total
// ---------------------------------------------------------------------------

/// Handing out `slots` leftover slots to non-negative counts adds `slots` to
/// the sum and keeps every count non-negative.
pub proof fn lemma_distribute_facts(base: Seq<i32>, order: Seq<usize>, slots: nat)
    requires
        base.len() >= 1,
        order.len() == base.len(),
        forall|k: int| 0 <= k < order.len() ==> #[trigger] order[k] < base.len(),
        forall|k: int| 0 <= k < base.len() ==> #[trigger] base[k] >= 0,
        seq_sum(base) + slots <= i32::MAX,
    ensures
        distribute(base, order, slots).len() == base.len(),
        seq_sum(distribute(base, order, slots)) == seq_sum(base) + slots,
        forall|k: int|
            0 <= k < base.len() ==> #[trigger] distribute(base, order, slots)[k] >= 0,
    decreases slots,
{
    if slots > 0 {
        let a = distribute(base, order, (slots - 1) as nat);
        lemma_distribute_facts(base, order, (slots - 1) as nat);
        let j = order[(slots - 1) % (order.len() as int)] as int;
        lemma_sum_nonneg_bounds(a);
        lemma_sum_update(a, j, (a[j] + 1) as i32);
    }
}

/// A successful minimum pass keeps the length and the sum.
pub proof fn lemma_raise_pass_sum(a: Seq<i32>, mins: Seq<i32>, i: int, changed: bool)
    requires
        a.len() == mins.len(),
        0 <= i,
    ensures
        raise_pass(a, mins, i, changed) matches Ok((a2, _)) ==> a2.len() == a.len() && seq_sum(
            a2,
        ) == seq_sum(a),
    decreases mins.len() - i,
{
    if i < mins.len() {
        if a[i] < mins[i] {
            let need = mins[i] - a[i];
            if fits_i32(need) {
                let a1 = a.update(i, mins[i]);
                lemma_sum_update(a, i, mins[i]);
                lemma_take_facts(a1, mins, i, 0, need);
                if let Ok((a2, left)) = take_for_minimum(a1, mins, i, 0, need) {
                    if left <= 0 {
                        lemma_raise_pass_sum(a2, mins, i + 1, true);
                    }
                }
            }
        } else {
            lemma_raise_pass_sum(a, mins, i + 1, changed);
        }
    }
}

/// A successful maximum pass keeps the length and the sum.
pub proof fn lemma_lower_pass_sum(a: Seq<i32>, maxs: Seq<i32>, i: int, changed: bool)
    requires
        a.len() == maxs.len(),
        0 <= i,
    ensures
        lower_pass(a, maxs, i, changed) matches Ok((a2, _)) ==> a2.len() == a.len() && seq_sum(
            a2,
        ) == seq_sum(a),
    decreases maxs.len() - i,
{
    if i < maxs.len() {
        if a[i] > maxs[i] {
            let excess = a[i] - maxs[i];
            if fits_i32(excess) {
                let a1 = a.update(i, maxs[i]);
                lemma_sum_update(a, i, maxs[i]);
                lemma_give_facts(a1, maxs, i, 0, excess);
                if let Ok((a2, left)) = give_for_maximum(a1, maxs, i, 0, excess) {
                    if left <= 0 {
                        lemma_lower_pass_sum(a2, maxs, i + 1, true);
                    }
                }
            }
        } else {
            lemma_lower_pass_sum(a, maxs, i + 1, changed);
        }
    }
}

/// Successful rounds keep the length and the sum.
pub proof fn lemma_rounds_sum(a: Seq<i32>, mins: Seq<i32>, maxs: Seq<i32>, rounds: nat)
    requires
        a.len() == mins.len(),
        a.len() == maxs.len(),
    ensures
        enforce_rounds(a, mins, maxs, rounds) matches Ok(r) ==> r.len() == a.len() && seq_sum(r)
            == seq_sum(a),
    decreases rounds,
{
    if rounds > 0 {
        lemma_raise_pass_sum(a, mins, 0, false);
        if let Ok((a1, c1)) = raise_pass(a, mins, 0, false) {
            lemma_lower_pass_sum(a1, maxs, 0, c1);
            if let Ok((a2, c2)) = lower_pass(a1, maxs, 0, c1) {
                if c2 {
                    lemma_rounds_sum(a2, mins, maxs, (rounds - 1) as nat);
                }
            }
        }
    }
}

/// The counts of a successful allocation sum to the total: every leftover
/// slot is handed out, and raising or lowering an image moves tiles between
/// images without creating or losing any.
pub proof fn lemma_allocation_sums_to_total(
    base: Seq<i32>,
    order: Seq<usize>,
    mins: Seq<i32>,
    maxs: Seq<i32>,
    total: int,
)
    requires
        allocation_inputs(base, order, mins, maxs, total),
    ensures
        allocation(base, order, mins, maxs, total) matches Ok(a) ==> a.len() == base.len()
            && seq_sum(a) == total,
{
    let slots = (total - seq_sum(base)) as nat;
    lemma_distribute_facts(base, order, slots);
    lemma_rounds_sum(distribute(base, order, slots), mins, maxs, MAX_ROUNDS as nat);
}

// ---------------------------------------------------------------------------
// The rounds respect the bounds
// ---------------------------------------------------------------------------

/// Every count lies between its image's minimum and maximum.
pub open spec fn within_bounds(a: Seq<i32>, mins: Seq<i32>, maxs: Seq<i32>) -> bool {
    forall|k: int| 0 <= k < a.len() ==> mins[k] <= #[trigger] a[k] <= maxs[k]
}

/// Each image's minimum does not exceed its maximum.
pub open spec fn consistent_bounds(mins: Seq<i32>, maxs: Seq<i32>) -> bool {
    &&& mins.len() == maxs.len()
    &&& forall|k: int| 0 <= k < mins.len() ==> #[trigger] mins[k] <= maxs[k]
}

/// After a successful minimum pass from `i`, every count is at least its
/// minimum, provided the counts before `i` already were.
pub proof fn lemma_raise_pass_floor(a: Seq<i32>, mins: Seq<i32>, i: int, changed: bool)
    requires
        a.len() == mins.len(),
        0 <= i <= a.len(),
        forall|k: int| 0 <= k < i ==> #[trigger] a[k] >= mins[k],
    ensures
        raise_pass(a, mins, i, changed) matches Ok((a2, _)) ==> forall|k: int|
            0 <= k < a.len() ==> #[trigger] a2[k] >= mins[k],
    decreases mins.len() - i,
{
    if i < mins.len() {
        if a[i] < mins[i] {
            let need = mins[i] - a[i];
            if fits_i32(need) {
                let a1 = a.update(i, mins[i]);
                lemma_take_facts(a1, mins, i, 0, need);
                if let Ok((a2, left)) = take_for_minimum(a1, mins, i, 0, need) {
                    if left <= 0 {
                        assert forall|k: int| 0 <= k < i + 1 implies #[trigger] a2[k]
                            >= mins[k] by {
                            assert(a2[k] <= a1[k]);
                        }
                        lemma_raise_pass_floor(a2, mins, i + 1, true);
                    }
                }
            }
        } else {
            lemma_raise_pass_floor(a, mins, i + 1, changed);
        }
    }
}

/// After a successful maximum pass from `i`, every count lies within its
/// bounds, provided all counts were at least their minimums and those before
/// `i` at most their maximums.
pub proof fn lemma_lower_pass_bounds(
    a: Seq<i32>,
    mins: Seq<i32>,
    maxs: Seq<i32>,
    i: int,
    changed: bool,
)
    requires
        a.len() == maxs.len(),
        consistent_bounds(mins, maxs),
        0 <= i <= a.len(),
        forall|k: int| 0 <= k < a.len() ==> #[trigger] a[k] >= mins[k],
        forall|k: int| 0 <= k < i ==> #[trigger] a[k] <= maxs[k],
    ensures
        lower_pass(a, maxs, i, changed) matches Ok((a2, _)) ==> within_bounds(a2, mins, maxs)
            && a2.len() == a.len(),
    decreases maxs.len() - i,
{
    if i < maxs.len() {
        if a[i] > maxs[i] {
            let excess = a[i] - maxs[i];
            if fits_i32(excess) {
                let a1 = a.update(i, maxs[i]);
                lemma_give_facts(a1, maxs, i, 0, excess);
                if let Ok((a2, left)) = give_for_maximum(a1, maxs, i, 0, excess) {
                    if left <= 0 {
                        assert forall|k: int| 0 <= k < a.len() implies #[trigger] a2[k]
                            >= mins[k] by {
                            assert(a2[k] >= a1[k]);
                        }
                        assert forall|k: int| 0 <= k < i + 1 implies #[trigger] a2[k]
                            <= maxs[k] by {
                            assert(a2[k] >= a1[k]);
                        }
                        lemma_lower_pass_bounds(a2, mins, maxs, i + 1, true);
                    }
                }
            }
        } else {
            lemma_lower_pass_bounds(a, mins, maxs, i + 1, changed);
        }
    } else {
        assert(within_bounds(a, mins, maxs));
    }
}

/// Counts within their bounds pass both halves of a round unchanged.
pub proof fn lemma_passes_stable(
    a: Seq<i32>,
    mins: Seq<i32>,
    maxs: Seq<i32>,
    i: int,
    changed: bool,
)
    requires
        a.len() == mins.len(),
        consistent_bounds(mins, maxs),
        within_bounds(a, mins, maxs),
        0 <= i,
    ensures
        raise_pass(a, mins, i, changed) == Ok::<(Seq<i32>, bool), AllocError>((a, changed)),
        lower_pass(a, maxs, i, changed) == Ok::<(Seq<i32>, bool), AllocError>((a, changed)),
    decreases a.len() - i,
{
    if i < a.len() {
        lemma_passes_stable(a, mins, maxs, i + 1, changed);
    }
}

/// With consistent bounds, successful rounds end with every count within its
/// bounds: one round already brings them there, and the next one changes
/// nothing.
pub proof fn lemma_rounds_within_bounds(
    a: Seq<i32>,
    mins: Seq<i32>,
    maxs: Seq<i32>,
    rounds: nat,
)
    requires
        a.len() == mins.len(),
        consistent_bounds(mins, maxs),
        rounds >= 1,
    ensures
        enforce_rounds(a, mins, maxs, rounds) matches Ok(r) ==> within_bounds(r, mins, maxs),
{
    lemma_raise_pass_floor(a, mins, 0, false);
    lemma_raise_pass_sum(a, mins, 0, false);
    if let Ok((a1, c1)) = raise_pass(a, mins, 0, false) {
        lemma_lower_pass_bounds(a1, mins, maxs, 0, c1);
        if let Ok((a2, c2)) = lower_pass(a1, maxs, 0, c1) {
            if c2 && rounds > 1 {
                lemma_passes_stable(a2, mins, maxs, 0, false);
                assert(enforce_round(a2, mins, maxs) == Ok::<(Seq<i32>, bool), AllocError>(
                    (a2, false),
                ));
                assert(enforce_rounds(a2, mins, maxs, (rounds - 1) as nat) == Ok::<
                    Seq<i32>,
                    AllocError,
                >(a2));
            }
        }
    }
}

/// A successful allocation gives every image a count within its bounds;
/// counts that break a bound are refused with `BoundsUnmet`.
pub proof fn lemma_allocation_within_bounds(
    base: Seq<i32>,
    order: Seq<usize>,
    mins: Seq<i32>,
    maxs: Seq<i32>,
    total: int,
)
    requires
        allocation_inputs(base, order, mins, maxs, total),
    ensures
        allocation(base, order, mins, maxs, total) matches Ok(a) ==> within_bounds(a, mins, maxs),
{
}

// ---------------------------------------------------------------------------
// When the allocation succeeds
// ---------------------------------------------------------------------------

/// `sum over k >= j, k != i, of max(x[k] - y[k], 0)`: what the other images
/// can spare (`x` counts, `y` minimums) or take in (`x` maximums, `y` counts).
pub open spec fn surplus_from(x: Seq<i32>, y: Seq<i32>, i: int, j: int) -> int
    decreases y.len() - j,
{
    if j >= y.len() {
        0
    } else {
        (if j != i && x[j] - y[j] > 0 {
            x[j] - y[j]
        } else {
            0
        }) + surplus_from(x, y, i, j + 1)
    }
}

/// `sum over k >= j, k != i, of (x[k] - y[k])`.
pub open spec fn gap_from(x: Seq<i32>, y: Seq<i32>, i: int, j: int) -> int
    decreases y.len() - j,
{
    if j >= y.len() {
        0
    } else {
        (if j != i {
            x[j] - y[j]
        } else {
            0
        }) + gap_from(x, y, i, j + 1)
    }
}

/// Pointwise smaller sequences have a smaller sum.
pub proof fn lemma_sum_le(x: Seq<i32>, y: Seq<i32>)
    requires
        x.len() == y.len(),
        forall|k: int| 0 <= k < x.len() ==> #[trigger] x[k] <= y[k],
    ensures
        seq_sum(x) <= seq_sum(y),
    decreases x.len(),
{
    if x.len() > 0 {
        lemma_sum_le(x.drop_last(), y.drop_last());
    }
}

/// The gap from `j` in closed form.
pub proof fn lemma_gap_closed_form(x: Seq<i32>, y: Seq<i32>, i: int, j: int)
    requires
        x.len() == y.len(),
        0 <= i < x.len(),
        0 <= j <= x.len(),
    ensures
        gap_from(x, y, i, j) == (seq_sum(x) - seq_sum(x.take(j))) - (seq_sum(y) - seq_sum(
            y.take(j),
        )) - (if i >= j {
            x[i] - y[i]
        } else {
            0
        }),
    decreases x.len() - j,
{
    if j == x.len() {
        assert(x.take(j) =~= x);
        assert(y.take(j) =~= y);
    } else {
        lemma_gap_closed_form(x, y, i, j + 1);
        lemma_sum_take_step(x, j);
        lemma_sum_take_step(y, j);
    }
}

/// The surplus is non-negative and at least the gap.
pub proof fn lemma_surplus_ge_gap(x: Seq<i32>, y: Seq<i32>, i: int, j: int)
    ensures
        surplus_from(x, y, i, j) >= 0,
        surplus_from(x, y, i, j) >= gap_from(x, y, i, j),
    decreases y.len() - j,
{
    if j < y.len() {
        lemma_surplus_ge_gap(x, y, i, j + 1);
    }
}

/// The surplus from `j` reads no entry before `j`.
pub proof fn lemma_surplus_update_before(x: Seq<i32>, y: Seq<i32>, i: int, j: int, p: int, v: i32)
    requires
        0 <= p < j,
        x.len() == y.len(),
        p < x.len(),
    ensures
        surplus_from(x.update(p, v), y, i, j) == surplus_from(x, y, i, j),
        surplus_from(x, y.update(p, v), i, j) == surplus_from(x, y, i, j),
    decreases y.len() - j,
{
    if j < y.len() {
        lemma_surplus_update_before(x, y, i, j + 1, p, v);
    }
}

/// With non-negative counts and minimums, taking tiles for a minimum never
/// overflows and leaves exactly what the other images cannot spare.
pub proof fn lemma_take_succeeds(a: Seq<i32>, mins: Seq<i32>, i: int, j: int, need: int)
    requires
        a.len() == mins.len(),
        0 <= i < a.len(),
        0 <= j,
        need >= 0,
        forall|k: int| 0 <= k < a.len() ==> #[trigger] a[k] >= 0,
        forall|k: int| 0 <= k < mins.len() ==> #[trigger] mins[k] >= 0,
    ensures
        take_for_minimum(a, mins, i, j, need) matches Ok((_, left)) && left == (if need
            > surplus_from(a, mins, i, j) {
            need - surplus_from(a, mins, i, j)
        } else {
            0
        }),
    decreases mins.len() - j,
{
    lemma_surplus_ge_gap(a, mins, i, j);
    if j >= mins.len() {
    } else if j == i {
        lemma_take_succeeds(a, mins, i, j + 1, need);
    } else {
        let available = a[j] - mins[j];
        lemma_surplus_ge_gap(a, mins, i, j + 1);
        if available <= 0 {
            lemma_take_succeeds(a, mins, i, j + 1, need);
        } else {
            let take = if available < need {
                available
            } else {
                need
            };
            let a2 = a.update(j, (a[j] - take) as i32);
            if need - take != 0 {
                lemma_surplus_update_before(a, mins, i, j + 1, j, (a[j] - take) as i32);
                lemma_take_succeeds(a2, mins, i, j + 1, need - take);
            }
        }
    }
}

/// With non-negative counts and maximums, giving tiles away for a maximum
/// never overflows and leaves exactly what the other images cannot take in.
pub proof fn lemma_give_succeeds(a: Seq<i32>, maxs: Seq<i32>, i: int, j: int, excess: int)
    requires
        a.len() == maxs.len(),
        0 <= i < a.len(),
        0 <= j,
        excess >= 0,
        forall|k: int| 0 <= k < a.len() ==> #[trigger] a[k] >= 0,
        forall|k: int| 0 <= k < maxs.len() ==> #[trigger] maxs[k] >= 0,
    ensures
        give_for_maximum(a, maxs, i, j, excess) matches Ok((_, left)) && left == (if excess
            > surplus_from(maxs, a, i, j) {
            excess - surplus_from(maxs, a, i, j)
        } else {
            0
        }),
    decreases maxs.len() - j,
{
    lemma_surplus_ge_gap(maxs, a, i, j);
    if j >= maxs.len() {
    } else if j == i {
        lemma_give_succeeds(a, maxs, i, j + 1, excess);
    } else {
        let room = maxs[j] - a[j];
        lemma_surplus_ge_gap(maxs, a, i, j + 1);
        if room <= 0 {
            lemma_give_succeeds(a, maxs, i, j + 1, excess);
        } else {
            let give = if room < excess {
                room
            } else {
                excess
            };
            let a2 = a.update(j, (a[j] + give) as i32);
            if excess - give != 0 {
                lemma_surplus_update_before(maxs, a, i, j + 1, j, (a[j] + give) as i32);
                lemma_give_succeeds(a2, maxs, i, j + 1, excess - give);
            }
        }
    }
}

/// With non-negative counts summing to `total` and non-negative minimums
/// summing to at most `total`, the minimum pass succeeds and keeps the counts
/// non-negative.
pub proof fn lemma_raise_pass_succeeds(
    a: Seq<i32>,
    mins: Seq<i32>,
    i: int,
    changed: bool,
    total: int,
)
    requires
        a.len() == mins.len(),
        0 <= i,
        forall|k: int| 0 <= k < a.len() ==> #[trigger] a[k] >= 0,
        forall|k: int| 0 <= k < mins.len() ==> #[trigger] mins[k] >= 0,
        seq_sum(a) == total,
        seq_sum(mins) <= total,
    ensures
        raise_pass(a, mins, i, changed) matches Ok((a2, _)) && a2.len() == a.len() && forall|
            k: int,
        | 0 <= k < a.len() ==> #[trigger] a2[k] >= 0,
    decreases mins.len() - i,
{
    if i < mins.len() {
        if a[i] < mins[i] {
            let need = mins[i] - a[i];
            let a1 = a.update(i, mins[i]);
            lemma_sum_update(a, i, mins[i]);
            lemma_take_facts(a1, mins, i, 0, need);
            lemma_take_succeeds(a1, mins, i, 0, need);
            lemma_surplus_ge_gap(a1, mins, i, 0);
            lemma_gap_closed_form(a1, mins, i, 0);
            assert(a1.take(0) =~= Seq::<i32>::empty());
            assert(mins.take(0) =~= Seq::<i32>::empty());
            let (a2, left) = take_for_minimum(a1, mins, i, 0, need)->Ok_0;
            assert(left == 0);
            assert forall|k: int| 0 <= k < a.len() implies #[trigger] a2[k] >= 0 by {
                assert(a2[k] <= a1[k]);
            }
            lemma_raise_pass_succeeds(a2, mins, i + 1, true, total);
        } else {
            lemma_raise_pass_succeeds(a, mins, i + 1, changed, total);
        }
    }
}

/// With non-negative counts summing to `total` and non-negative maximums
/// summing to at least `total`, the maximum pass succeeds and keeps the counts
/// non-negative.
pub proof fn lemma_lower_pass_succeeds(
    a: Seq<i32>,
    maxs: Seq<i32>,
    i: int,
    changed: bool,
    total: int,
)
    requires
        a.len() == maxs.len(),
        0 <= i,
        forall|k: int| 0 <= k < a.len() ==> #[trigger] a[k] >= 0,
        forall|k: int| 0 <= k < maxs.len() ==> #[trigger] maxs[k] >= 0,
        seq_sum(a) == total,
        total <= seq_sum(maxs),
    ensures
        lower_pass(a, maxs, i, changed) matches Ok((a2, _)) && a2.len() == a.len() && forall|
            k: int,
        | 0 <= k < a.len() ==> #[trigger] a2[k] >= 0,
    decreases maxs.len() - i,
{
    if i < maxs.len() {
        if a[i] > maxs[i] {
            let excess = a[i] - maxs[i];
            let a1 = a.update(i, maxs[i]);
            lemma_sum_update(a, i, maxs[i]);
            lemma_give_facts(a1, maxs, i, 0, excess);
            lemma_give_succeeds(a1, maxs, i, 0, excess);
            lemma_surplus_ge_gap(maxs, a1, i, 0);
            lemma_gap_closed_form(maxs, a1, i, 0);
            assert(a1.take(0) =~= Seq::<i32>::empty());
            assert(maxs.take(0) =~= Seq::<i32>::empty());
            let (a2, left) = give_for_maximum(a1, maxs, i, 0, excess)->Ok_0;
            assert(left == 0);
            assert forall|k: int| 0 <= k < a.len() implies #[trigger] a2[k] >= 0 by {
                assert(a2[k] >= a1[k]);
            }
            lemma_lower_pass_succeeds(a2, maxs, i + 1, true, total);
        } else {
            lemma_lower_pass_succeeds(a, maxs, i + 1, changed, total);
        }
    }
}

/// With non-negative minimums, each at most its image's maximum, the
/// allocation succeeds exactly when the minimums sum to at most the total and
/// the maximums to at least it.
pub proof fn lemma_allocation_feasible(
    base: Seq<i32>,
    order: Seq<usize>,
    mins: Seq<i32>,
    maxs: Seq<i32>,
    total: int,
)
    requires
        allocation_inputs(base, order, mins, maxs, total),
        consistent_bounds(mins, maxs),
        forall|k: int| 0 <= k < mins.len() ==> #[trigger] mins[k] >= 0,
    ensures
        allocation(base, order, mins, maxs, total) is Ok <==> seq_sum(mins) <= total <= seq_sum(
            maxs,
        ),
{
    lemma_allocation_sums_to_total(base, order, mins, maxs, total);
    lemma_allocation_within_bounds(base, order, mins, maxs, total);
    if let Ok(a) = allocation(base, order, mins, maxs, total) {
        lemma_sum_le(mins, a);
        lemma_sum_le(a, maxs);
    }
    if seq_sum(mins) <= total <= seq_sum(maxs) {
        let slots = (total - seq_sum(base)) as nat;
        let a0 = distribute(base, order, slots);
        lemma_distribute_facts(base, order, slots);
        assert forall|k: int| 0 <= k < maxs.len() implies #[trigger] maxs[k] >= 0 by {
            assert(mins[k] >= 0);
        }
        lemma_raise_pass_succeeds(a0, mins, 0, false, total);
        lemma_raise_pass_sum(a0, mins, 0, false);
        lemma_raise_pass_floor(a0, mins, 0, false);
        let (a1, c1) = raise_pass(a0, mins, 0, false)->Ok_0;
        lemma_lower_pass_succeeds(a1, maxs, 0, c1, total);
        lemma_lower_pass_sum(a1, maxs, 0, c1);
        lemma_lower_pass_bounds(a1, mins, maxs, 0, c1);
        let (a2, c2) = lower_pass(a1, maxs, 0, c1)->Ok_0;
        lemma_passes_stable(a2, mins, maxs, 0, false);
        assert(enforce_round(a2, mins, maxs) == Ok::<(Seq<i32>, bool), AllocError>((a2, false)));
        assert(enforce_rounds(a2, mins, maxs, (MAX_ROUNDS - 1) as nat) == Ok::<
            Seq<i32>,
            AllocError,
        >(a2));
        assert(enforce_rounds(a0, mins, maxs, MAX_ROUNDS as nat) == Ok::<Seq<i32>, AllocError>(
            a2,
        ));
        lemma_sum_nonneg_bounds(a2);
        assert(prefix_sums_fit(a2));
    }
}

// ---------------------------------------------------------------------------
// Executable allocation
// ---------------------------------------------------------------------------

/// Runs `take_for_minimum` from image 0 on `alloc`, returning what is still
/// needed.
fn take_for(alloc: &mut Vec<i32>, mins: &Vec<i32>, i: usize, need0: i32) -> (res: Result<
    i32,
    AllocError,
>)
    requires
        old(alloc)@.len() == mins@.len(),
        i < mins@.len(),
        need0 >= 0,
    ensures
        final(alloc)@.len() == old(alloc)@.len(),
        match take_for_minimum(old(alloc)@, mins@, i as int, 0, need0 as int) {
            Ok((a, left)) => res == Ok::<i32, AllocError>(left as i32) && final(alloc)@ == a,
            Err(e) => res == Err::<i32, AllocError>(e),
        },
{
    let n = mins.len();
    let mut j: usize = 0;
    let mut need = need0;
    while j < n
        invariant
            n == mins@.len(),
            alloc@.len() == n,
            old(alloc)@.len() == n,
            i < n,
            j <= n,
            need >= 0,
            take_for_minimum(old(alloc)@, mins@, i as int, 0, need0 as int)
                == take_for_minimum(alloc@, mins@, i as int, j as int, need as int),
        decreases n - j,
    {
        if j != i {
            let available = match alloc[j].checked_sub(mins[j]) {
                Some(v) => v,
                None => {
                    return Err(AllocError::Overflow);
                },
            };
            if available > 0 {
                let take = if available < need {
                    available
                } else {
                    need
                };
                alloc.set(j, alloc[j] - take);
                need = need - take;
                if need == 0 {
                    return Ok(0);
                }
            }
        }
        j += 1;
    }
    Ok(need)
}

/// Runs `give_for_maximum` from image 0 on `alloc`, returning what is still
/// to be given away.
fn give_for(alloc: &mut Vec<i32>, maxs: &Vec<i32>, i: usize, excess0: i32) -> (res: Result<
    i32,
    AllocError,
>)
    requires
        old(alloc)@.len() == maxs@.len(),
        i < maxs@.len(),
        excess0 >= 0,
    ensures
        final(alloc)@.len() == old(alloc)@.len(),
        match give_for_maximum(old(alloc)@, maxs@, i as int, 0, excess0 as int) {
            Ok((a, left)) => res == Ok::<i32, AllocError>(left as i32) && final(alloc)@ == a,
            Err(e) => res == Err::<i32, AllocError>(e),
        },
{
    let n = maxs.len();
    let mut j: usize = 0;
    let mut excess = excess0;
    while j < n
        invariant
            n == maxs@.len(),
            alloc@.len() == n,
            old(alloc)@.len() == n,
            i < n,
            j <= n,
            excess >= 0,
            give_for_maximum(old(alloc)@, maxs@, i as int, 0, excess0 as int)
                == give_for_maximum(alloc@, maxs@, i as int, j as int, excess as int),
        decreases n - j,
    {
        if j != i {
            let room = match maxs[j].checked_sub(alloc[j]) {
                Some(v) => v,
                None => {
                    return Err(AllocError::Overflow);
                },
            };
            if room > 0 {
                let give = if room < excess {
                    room
                } else {
                    excess
                };
                alloc.set(j, alloc[j] + give);
                excess = excess - give;
                if excess == 0 {
                    return Ok(0);
                }
            }
        }
        j += 1;
    }
    Ok(excess)
}

/// The minimum half of a round on `alloc`.
fn raise_to_minimums(alloc: &mut Vec<i32>, mins: &Vec<i32>, changed0: bool) -> (res: Result<
    bool,
    AllocError,
>)
    requires
        old(alloc)@.len() == mins@.len(),
    ensures
        final(alloc)@.len() == old(alloc)@.len(),
        match raise_pass(old(alloc)@, mins@, 0, changed0) {
            Ok((a, ch)) => res == Ok::<bool, AllocError>(ch) && final(alloc)@ == a,
            Err(e) => res == Err::<bool, AllocError>(e),
        },
{
    let n = mins.len();
    let mut i: usize = 0;
    let mut changed = changed0;
    while i < n
        invariant
            n == mins@.len(),
            alloc@.len() == n,
            old(alloc)@.len() == n,
            i <= n,
            raise_pass(old(alloc)@, mins@, 0, changed0) == raise_pass(
                alloc@,
                mins@,
                i as int,
                changed,
            ),
        decreases n - i,
    {
        if alloc[i] < mins[i] {
            let need = match mins[i].checked_sub(alloc[i]) {
                Some(v) => v,
                None => {
                    return Err(AllocError::Overflow);
                },
            };
            alloc.set(i, mins[i]);
            changed = true;
            proof {
                lemma_take_facts(alloc@, mins@, i as int, 0, need as int);
            }
            match take_for(alloc, mins, i, need) {
                Err(e) => {
                    return Err(e);
                },
                Ok(left) => {
                    if left > 0 {
                        return Err(AllocError::ShortOfMinimum);
                    }
                },
            }
        }
        i += 1;
    }
    Ok(changed)
}

/// The maximum half of a round on `alloc`.
fn lower_to_maximums(alloc: &mut Vec<i32>, maxs: &Vec<i32>, changed0: bool) -> (res: Result<
    bool,
    AllocError,
>)
    requires
        old(alloc)@.len() == maxs@.len(),
    ensures
        final(alloc)@.len() == old(alloc)@.len(),
        match lower_pass(old(alloc)@, maxs@, 0, changed0) {
            Ok((a, ch)) => res == Ok::<bool, AllocError>(ch) && final(alloc)@ == a,
            Err(e) => res == Err::<bool, AllocError>(e),
        },
{
    let n = maxs.len();
    let mut i: usize = 0;
    let mut changed = changed0;
    while i < n
        invariant
            n == maxs@.len(),
            alloc@.len() == n,
            old(alloc)@.len() == n,
            i <= n,
            lower_pass(old(alloc)@, maxs@, 0, changed0) == lower_pass(
                alloc@,
                maxs@,
                i as int,
                changed,
            ),
        decreases n - i,
    {
        if alloc[i] > maxs[i] {
            let excess = match alloc[i].checked_sub(maxs[i]) {
                Some(v) => v,
                None => {
                    return Err(AllocError::Overflow);
                },
            };
            alloc.set(i, maxs[i]);
            changed = true;
            proof {
                lemma_give_facts(alloc@, maxs@, i as int, 0, excess as int);
            }
            match give_for(alloc, maxs, i, excess) {
                Err(e) => {
                    return Err(e);
                },
                Ok(left) => {
                    if left > 0 {
                        return Err(AllocError::ExcessOverMaximum);
                    }
                },
            }
        }
        i += 1;
    }
    Ok(changed)
}

/// Sum of the counts, or `None` where a prefix sum leaves the `i32` range.
fn checked_total(alloc: &Vec<i32>) -> (res: Option<i32>)
    ensures
        match res {
            Some(s) => prefix_sums_fit(alloc@) && s == seq_sum(alloc@),
            None => !prefix_sums_fit(alloc@),
        },
{
    let n = alloc.len();
    let mut acc: i32 = 0;
    let mut k: usize = 0;
    assert(alloc@.take(0) =~= Seq::<i32>::empty());
    while k < n
        invariant
            n == alloc@.len(),
            k <= n,
            acc == seq_sum(alloc@.take(k as int)),
            forall|m: int| 0 <= m <= k ==> #[trigger] fits_i32(seq_sum(alloc@.take(m))),
        decreases n - k,
    {
        proof {
            lemma_sum_take_step(alloc@, k as int);
        }
        match acc.checked_add(alloc[k]) {
            Some(v) => {
                acc = v;
            },
            None => {
                assert(!fits_i32(seq_sum(alloc@.take(k + 1))));
                return None;
            },
        }
        k += 1;
    }
    assert(alloc@.take(n as int) =~= alloc@);
    Some(acc)
}

/// Counts per image: the base counts, the leftover slots handed out in
/// `order`, then minimums and maximums enforced in rounds. The counts are
/// exactly [`allocation`] of the inputs, with `total_tiles as i32` as total.
pub fn allocate_counts(
    base: &Vec<i32>,
    order: &Vec<usize>,
    mins: &Vec<i32>,
    maxs: &Vec<i32>,
    total_tiles: usize,
) -> (res: Result<Vec<i32>, AllocError>)
    requires
        allocation_inputs(base@, order@, mins@, maxs@, total_tiles as i32 as int),
    ensures
        match allocation(base@, order@, mins@, maxs@, total_tiles as i32 as int) {
            Ok(a) => res is Ok && res->Ok_0@ == a,
            Err(e) => res == Err::<Vec<i32>, AllocError>(e),
        },
{
    let n = base.len();
    let total = total_tiles as i32;
    proof {
        lemma_sum_nonneg_bounds(base@);
    }
    // sum of the base counts
    let mut sum_base: i32 = 0;
    let mut k: usize = 0;
    assert(base@.take(0) =~= Seq::<i32>::empty());
    while k < n
        invariant
            n == base@.len(),
            k <= n,
            sum_base == seq_sum(base@.take(k as int)),
            allocation_inputs(base@, order@, mins@, maxs@, total as int),
            forall|m: int| 0 <= m <= n ==> 0 <= #[trigger] seq_sum(base@.take(m)) <= seq_sum(base@),
        decreases n - k,
    {
        proof {
            lemma_sum_take_step(base@, k as int);
        }
        sum_base = sum_base + base[k];
        k += 1;
    }
    assert(base@.take(n as int) =~= base@);
    let remaining = total - sum_base;
    // hand out the leftover slots
    let mut alloc: Vec<i32> = Vec::new();
    let mut k: usize = 0;
    while k < n
        invariant
            n == base@.len(),
            k <= n,
            alloc@ =~= base@.take(k as int),
        decreases n - k,
    {
        alloc.push(base[k]);
        k += 1;
    }
    assert(alloc@ =~= base@);
    let slots = remaining as usize;
    let mut s: usize = 0;
    while s < slots
        invariant
            n == base@.len(),
            n == order@.len(),
            n >= 1,
            alloc@.len() == n,
            s <= slots,
            slots == total - seq_sum(base@),
            forall|m: int| 0 <= m < n ==> #[trigger] order@[m] < n,
            total <= i32::MAX,
            alloc@ == distribute(base@, order@, s as nat),
            forall|m: int| 0 <= m < n ==> #[trigger] alloc@[m] >= 0,
            seq_sum(alloc@) == seq_sum(base@) + s,
        decreases slots - s,
    {
        let j = order[s % n];
        proof {
            lemma_sum_nonneg_bounds(alloc@);
            lemma_sum_update(alloc@, j as int, (alloc@[j as int] + 1) as i32);
        }
        alloc.set(j, alloc[j] + 1);
        s += 1;
    }
    // enforce minimums and maximums
    let ghost start = alloc@;
    let mut round: usize = 0;
    let mut settled = false;
    while round < MAX_ROUNDS && !settled
        invariant
            alloc@.len() == n,
            n == mins@.len(),
            n == maxs@.len(),
            round <= MAX_ROUNDS,
            total == total_tiles as i32,
            start == distribute(base@, order@, (total - seq_sum(base@)) as nat),
            settled ==> enforce_rounds(start, mins@, maxs@, MAX_ROUNDS as nat) == Ok::<
                Seq<i32>,
                AllocError,
            >(alloc@),
            !settled ==> enforce_rounds(start, mins@, maxs@, MAX_ROUNDS as nat) == enforce_rounds(
                alloc@,
                mins@,
                maxs@,
                (MAX_ROUNDS - round) as nat,
            ),
        decreases MAX_ROUNDS - round,
    {
        let changed = match raise_to_minimums(&mut alloc, mins, false) {
            Ok(c) => c,
            Err(e) => {
                return Err(e);
            },
        };
        let changed = match lower_to_maximums(&mut alloc, maxs, changed) {
            Ok(c) => c,
            Err(e) => {
                return Err(e);
            },
        };
        if !changed {
            settled = true;
        }
        round += 1;
    }
    match checked_total(&alloc) {
        None => Err(AllocError::Overflow),
        Some(_) => {
            if counts_within_bounds(&alloc, mins, maxs) {
                Ok(alloc)
            } else {
                Err(AllocError::BoundsUnmet)
            }
        },
    }
}

/// Whether every count lies between its image's minimum and maximum.
fn counts_within_bounds(alloc: &Vec<i32>, mins: &Vec<i32>, maxs: &Vec<i32>) -> (r: bool)
    requires
        alloc@.len() == mins@.len(),
        alloc@.len() == maxs@.len(),
    ensures
        r == within_bounds(alloc@, mins@, maxs@),
{
    let mut k: usize = 0;
    while k < alloc.len()
        invariant
            alloc@.len() == mins@.len(),
            alloc@.len() == maxs@.len(),
            k <= alloc@.len(),
            forall|m: int| 0 <= m < k ==> mins@[m] <= #[trigger] alloc@[m] <= maxs@[m],
        decreases alloc@.len() - k,
    {
        if alloc[k] < mins[k] || alloc[k] > maxs[k] {
            return false;
        }
        k += 1;
    }
    true
}

// ---------------------------------------------------------------------------
// From counts to tiles
// ---------------------------------------------------------------------------

/// `count` copies of `v`.
pub open spec fn repeat(v: usize, count: nat) -> Seq<usize>
    decreases count,
{
    if count == 0 {
        Seq::empty()
    } else {
        repeat(v, (count - 1) as nat).push(v)
    }
}

/// Image 0 `counts[0]` times, then image 1 `counts[1]` times, and so on; a
/// negative count gives no tile.
pub open spec fn expand(counts: Seq<i32>) -> Seq<usize>
    decreases counts.len(),
{
    if counts.len() == 0 {
        Seq::empty()
    } else {
        let last = counts.last();
        expand(counts.drop_last()) + repeat(
            (counts.len() - 1) as usize,
            (if last > 0 {
                last
            } else {
                0
            }) as nat,
        )
    }
}

/// How many tiles show image `v`: its count where positive, none otherwise.
pub open spec fn tiles_of(counts: Seq<i32>, v: usize) -> nat {
    if v < counts.len() && counts[v as int] > 0 {
        counts[v as int] as nat
    } else {
        0
    }
}

proof fn lemma_repeat_count(s: Seq<usize>, v: usize, count: nat, w: usize)
    ensures
        (s + repeat(v, count)).len() == s.len() + count,
        (s + repeat(v, count)).to_multiset().count(w) == s.to_multiset().count(w) + (if w == v {
            count
        } else {
            0
        }),
    decreases count,
{
    broadcast use vstd::seq_lib::group_to_multiset_ensures;

    if count > 0 {
        lemma_repeat_count(s, v, (count - 1) as nat, w);
        assert(s + repeat(v, count) =~= (s + repeat(v, (count - 1) as nat)).push(v));
    }
}

/// The tiles hold each image as many times as [`tiles_of`] says, and no other
/// value.
pub proof fn lemma_expand_counts(counts: Seq<i32>, v: usize)
    requires
        counts.len() <= usize::MAX,
    ensures
        expand(counts).to_multiset().count(v) == tiles_of(counts, v),
    decreases counts.len(),
{
    broadcast use vstd::seq_lib::group_to_multiset_ensures;

    if counts.len() == 0 {
        assert(expand(counts).len() == 0);
        assert(expand(counts).to_multiset().len() == 0);
    } else {
        let init = counts.drop_last();
        let last = counts.last();
        lemma_expand_counts(init, v);
        lemma_repeat_count(
            expand(init),
            (counts.len() - 1) as usize,
            (if last > 0 {
                last
            } else {
                0
            }) as nat,
            v,
        );
    }
}

/// With non-negative counts there are as many tiles as the counts sum to.
pub proof fn lemma_expand_len(counts: Seq<i32>)
    requires
        forall|k: int| 0 <= k < counts.len() ==> #[trigger] counts[k] >= 0,
    ensures
        expand(counts).len() == seq_sum(counts),
    decreases counts.len(),
{
    if counts.len() > 0 {
        lemma_expand_len(counts.drop_last());
        lemma_repeat_count(
            expand(counts.drop_last()),
            (counts.len() - 1) as usize,
            counts.last() as nat,
            0,
        );
    }
}

/// The tiles for the given counts, image by image.
pub fn expand_counts(counts: &Vec<i32>) -> (tiles: Vec<usize>)
    ensures
        tiles@ == expand(counts@),
{
    let n = counts.len();
    let mut tiles: Vec<usize> = Vec::new();
    let mut i: usize = 0;
    assert(counts@.take(0) =~= Seq::<i32>::empty());
    while i < n
        invariant
            n == counts@.len(),
            i <= n,
            tiles@ == expand(counts@.take(i as int)),
        decreases n - i,
    {
        let c = counts[i];
        let mut k: i32 = 0;
        let ghost before = tiles@;
        while k < c
            invariant
                0 <= k,
                k <= c || k == 0,
                tiles@ == before + repeat(i, k as nat),
            decreases c - k,
        {
            tiles.push(i);
            proof {
                assert(before + repeat(i, (k + 1) as nat) =~= (before + repeat(i, k as nat)).push(i));
            }
            k += 1;
        }
        proof {
            let t = counts@.take(i + 1);
            assert(t.drop_last() =~= counts@.take(i as int));
            assert(t.last() == c);
            assert(k as nat == (if c > 0 { c } else { 0 }) as nat);
        }
        i += 1;
    }
    assert(counts@.take(n as int) =~= counts@);
    tiles
}

/// The tiles of a constrained allocation in random order: the counts of
/// [`allocate_counts`], expanded image by image, then shuffled with `rng`.
/// Each image `v` appears exactly `tiles_of(counts, v)` times.
pub fn allocate_constrained(
    base: &Vec<i32>,
    order: &Vec<usize>,
    mins: &Vec<i32>,
    maxs: &Vec<i32>,
    total_tiles: usize,
    rng: &mut ChaCha8Rng,
) -> (res: Result<Vec<usize>, AllocError>)
    requires
        allocation_inputs(base@, order@, mins@, maxs@, total_tiles as i32 as int),
    ensures
        match allocation(base@, order@, mins@, maxs@, total_tiles as i32 as int) {
            Ok(counts) => res is Ok && res->Ok_0@.len() == expand(counts).len() && forall|v: usize|
                #[trigger] res->Ok_0@.to_multiset().count(v) == tiles_of(counts, v),
            Err(e) => res == Err::<Vec<usize>, AllocError>(e),
        },
{
    let counts = match allocate_counts(base, order, mins, maxs, total_tiles) {
        Ok(c) => c,
        Err(e) => {
            return Err(e);
        },
    };
    let mut tiles = expand_counts(&counts);
    let ghost before = tiles@;
    shuffle_in_place(&mut tiles, rng);
    proof {
        broadcast use vstd::seq_lib::group_to_multiset_ensures;

        assert(tiles@.len() == tiles@.to_multiset().len());
        assert(before.len() == before.to_multiset().len());
        assert forall|v: usize| #[trigger] tiles@.to_multiset().count(v) == tiles_of(counts@, v) by {
            lemma_expand_counts(counts@, v);
        }
    }
    Ok(tiles)
}

// ---------------------------------------------------------------------------
// Laws on the shape of the result
// ---------------------------------------------------------------------------

/// When at most one slot per image is left over and `order` names each image
/// once, the leftover slots go to the first images in `order`, one each.
pub proof fn lemma_leftover_slots_follow_order(base: Seq<i32>, order: Seq<usize>, slots: nat)
    requires
        base.len() >= 1,
        order.len() == base.len(),
        forall|k: int| 0 <= k < order.len() ==> #[trigger] order[k] < base.len(),
        forall|p: int, q: int| 0 <= p < q < order.len() ==> order[p] != order[q],
        forall|k: int| 0 <= k < base.len() ==> #[trigger] base[k] >= 0,
        seq_sum(base) + slots <= i32::MAX,
        slots <= base.len() <= usize::MAX,
    ensures
        forall|j: int|
            0 <= j < base.len() ==> #[trigger] distribute(base, order, slots)[j] == base[j] + (
            if order.take(slots as int).contains(j as usize) {
                1int
            } else {
                0int
            }),
    decreases slots,
{
    if slots > 0 {
        let s1 = (slots - 1) as nat;
        lemma_leftover_slots_follow_order(base, order, s1);
        lemma_sum_nonneg_bounds(base);
        let a = distribute(base, order, s1);
        let p = order[s1 as int];
        vstd::arithmetic::div_mod::lemma_small_mod(s1, order.len());
        assert forall|j: int| 0 <= j < base.len() implies #[trigger] distribute(
            base,
            order,
            slots,
        )[j] == base[j] + (if order.take(slots as int).contains(j as usize) {
            1int
        } else {
            0int
        }) by {
            lemma_distribute_facts(base, order, s1);
            assert(distribute(base, order, slots) == a.update(p as int, (a[p as int] + 1) as i32));
            assert(base[p as int] <= seq_sum(base));
            assert(order.take(slots as int) =~= order.take(s1 as int).push(p));
            if j == p as int {
                if order.take(s1 as int).contains(j as usize) {
                    let q = choose|q: int|
                        0 <= q < s1 && order.take(s1 as int)[q] == j as usize;
                    assert(order[q] == order[s1 as int]);
                }
                assert(order.take(slots as int)[s1 as int] == p);
            } else {
                if order.take(slots as int).contains(j as usize) {
                    let q = choose|q: int|
                        0 <= q < slots && order.take(slots as int)[q] == j as usize;
                    assert(order.take(slots as int)[s1 as int] == p);
                    assert(j as usize != p);
                    assert(q != s1);
                    assert(order.take(s1 as int)[q] == j as usize);
                }
            }
        }
    }
}

/// With non-negative minimums, a successful allocation yields exactly `total`
/// tiles.
pub proof fn lemma_tiles_fill_grid(
    base: Seq<i32>,
    order: Seq<usize>,
    mins: Seq<i32>,
    maxs: Seq<i32>,
    total: int,
)
    requires
        allocation_inputs(base, order, mins, maxs, total),
        forall|k: int| 0 <= k < mins.len() ==> #[trigger] mins[k] >= 0,
    ensures
        allocation(base, order, mins, maxs, total) matches Ok(counts) ==> expand(counts).len()
            == total,
{
    lemma_allocation_sums_to_total(base, order, mins, maxs, total);
    lemma_allocation_within_bounds(base, order, mins, maxs, total);
    if let Ok(counts) = allocation(base, order, mins, maxs, total) {
        assert forall|k: int| 0 <= k < counts.len() implies #[trigger] counts[k] >= 0 by {
            assert(mins[k] >= 0);
        }
        lemma_expand_len(counts);
    }
}

/// With non-negative counts and minimums, the minimum pass can only fail for
/// want of tiles to take, and a successful one keeps the counts non-negative.
proof fn lemma_raise_pass_nonneg(a: Seq<i32>, mins: Seq<i32>, i: int, changed: bool)
    requires
        a.len() == mins.len(),
        0 <= i,
        forall|k: int| 0 <= k < a.len() ==> #[trigger] a[k] >= 0,
        forall|k: int| 0 <= k < mins.len() ==> #[trigger] mins[k] >= 0,
    ensures
        raise_pass(a, mins, i, changed) is Err ==> raise_pass(a, mins, i, changed) == Err::<
            (Seq<i32>, bool),
            AllocError,
        >(AllocError::ShortOfMinimum),
        raise_pass(a, mins, i, changed) matches Ok((a2, _)) ==> a2.len() == a.len() && forall|
            k: int,
        | 0 <= k < a.len() ==> #[trigger] a2[k] >= 0,
    decreases mins.len() - i,
{
    if i < mins.len() {
        if a[i] < mins[i] {
            let need = mins[i] - a[i];
            let a1 = a.update(i, mins[i]);
            lemma_take_facts(a1, mins, i, 0, need);
            lemma_take_succeeds(a1, mins, i, 0, need);
            let (a2, left) = take_for_minimum(a1, mins, i, 0, need)->Ok_0;
            if left <= 0 {
                assert forall|k: int| 0 <= k < a.len() implies #[trigger] a2[k] >= 0 by {
                    assert(a2[k] <= a1[k]);
                }
                lemma_raise_pass_nonneg(a2, mins, i + 1, true);
            }
        } else {
            lemma_raise_pass_nonneg(a, mins, i + 1, changed);
        }
    }
}

/// With non-negative counts and maximums, the maximum pass can only fail for
/// want of room to give tiles to.
proof fn lemma_lower_pass_nonneg(a: Seq<i32>, maxs: Seq<i32>, i: int, changed: bool)
    requires
        a.len() == maxs.len(),
        0 <= i,
        forall|k: int| 0 <= k < a.len() ==> #[trigger] a[k] >= 0,
        forall|k: int| 0 <= k < maxs.len() ==> #[trigger] maxs[k] >= 0,
    ensures
        lower_pass(a, maxs, i, changed) is Err ==> lower_pass(a, maxs, i, changed) == Err::<
            (Seq<i32>, bool),
            AllocError,
        >(AllocError::ExcessOverMaximum),
    decreases maxs.len() - i,
{
    if i < maxs.len() {
        if a[i] > maxs[i] {
            let excess = a[i] - maxs[i];
            let a1 = a.update(i, maxs[i]);
            lemma_give_facts(a1, maxs, i, 0, excess);
            lemma_give_succeeds(a1, maxs, i, 0, excess);
            let (a2, left) = give_for_maximum(a1, maxs, i, 0, excess)->Ok_0;
            if left <= 0 {
                assert forall|k: int| 0 <= k < a.len() implies #[trigger] a2[k] >= 0 by {
                    assert(a2[k] >= a1[k]);
                }
                lemma_lower_pass_nonneg(a2, maxs, i + 1, true);
            }
        } else {
            lemma_lower_pass_nonneg(a, maxs, i + 1, changed);
        }
    }
}

/// With non-negative minimums, each at most its image's maximum, an
/// allocation is refused only for want of room: `ShortOfMinimum` when the
/// minimums sum to more than the total, `ExcessOverMaximum` when they do not
/// but the maximums sum to less; never `Overflow` or `BoundsUnmet`.
pub proof fn lemma_allocation_refusals(
    base: Seq<i32>,
    order: Seq<usize>,
    mins: Seq<i32>,
    maxs: Seq<i32>,
    total: int,
)
    requires
        allocation_inputs(base, order, mins, maxs, total),
        consistent_bounds(mins, maxs),
        forall|k: int| 0 <= k < mins.len() ==> #[trigger] mins[k] >= 0,
    ensures
        seq_sum(mins) > total ==> allocation(base, order, mins, maxs, total) == Err::<
            Seq<i32>,
            AllocError,
        >(AllocError::ShortOfMinimum),
        seq_sum(mins) <= total && total > seq_sum(maxs) ==> allocation(
            base,
            order,
            mins,
            maxs,
            total,
        ) == Err::<Seq<i32>, AllocError>(AllocError::ExcessOverMaximum),
{
    let slots = (total - seq_sum(base)) as nat;
    let a0 = distribute(base, order, slots);
    lemma_distribute_facts(base, order, slots);
    assert forall|k: int| 0 <= k < maxs.len() implies #[trigger] maxs[k] >= 0 by {
        assert(mins[k] >= 0);
    }
    lemma_raise_pass_nonneg(a0, mins, 0, false);
    lemma_raise_pass_sum(a0, mins, 0, false);
    lemma_raise_pass_floor(a0, mins, 0, false);
    if seq_sum(mins) <= total {
        lemma_raise_pass_succeeds(a0, mins, 0, false, total);
    }
    if seq_sum(mins) > total {
        if let Ok((a1, c1)) = raise_pass(a0, mins, 0, false) {
            lemma_sum_le(mins, a1);
        }
        assert(enforce_round(a0, mins, maxs) == Err::<(Seq<i32>, bool), AllocError>(
            AllocError::ShortOfMinimum,
        ));
    } else if total > seq_sum(maxs) {
        let (a1, c1) = raise_pass(a0, mins, 0, false)->Ok_0;
        lemma_lower_pass_nonneg(a1, maxs, 0, c1);
        lemma_lower_pass_bounds(a1, mins, maxs, 0, c1);
        lemma_lower_pass_sum(a1, maxs, 0, c1);
        if let Ok((a2, c2)) = lower_pass(a1, maxs, 0, c1) {
            lemma_sum_le(a2, maxs);
        }
        assert(enforce_round(a0, mins, maxs) == Err::<(Seq<i32>, bool), AllocError>(
            AllocError::ExcessOverMaximum,
        ));
    }
}

/// How many of the first `slots` turns fall to image `j`, where the turns go
/// through `order` from its start, one image per turn, starting over at its
/// end.
pub open spec fn turns_of(order: Seq<usize>, slots: nat, j: int) -> nat
    decreases slots,
{
    if slots == 0 {
        0
    } else {
        turns_of(order, (slots - 1) as nat, j) + if order[(slots - 1) % (order.len() as int)]
            == j {
            1nat
        } else {
            0nat
        }
    }
}

/// Handing out `slots` leftover tiles adds to each image's base count the
/// number of turns that fall to it.
proof fn lemma_distribute_adds_turns(base: Seq<i32>, order: Seq<usize>, slots: nat)
    requires
        base.len() >= 1,
        order.len() == base.len(),
        forall|k: int| 0 <= k < order.len() ==> #[trigger] order[k] < base.len(),
        forall|k: int| 0 <= k < base.len() ==> #[trigger] base[k] >= 0,
        seq_sum(base) + slots <= i32::MAX,
    ensures
        forall|j: int|
            0 <= j < base.len() ==> #[trigger] distribute(base, order, slots)[j] == base[j]
                + turns_of(order, slots, j),
    decreases slots,
{
    lemma_distribute_facts(base, order, slots);
    if slots > 0 {
        let a = distribute(base, order, (slots - 1) as nat);
        lemma_distribute_adds_turns(base, order, (slots - 1) as nat);
        lemma_distribute_facts(base, order, (slots - 1) as nat);
        lemma_sum_nonneg_bounds(a);
        let jj = order[(slots - 1) % (order.len() as int)] as int;
        assert(a[jj] + 1 <= i32::MAX);
        assert forall|j: int| 0 <= j < base.len() implies #[trigger] distribute(
            base,
            order,
            slots,
        )[j] == base[j] + turns_of(order, slots, j) by {
            assert(distribute(base, order, slots) == a.update(jj, (a[jj] + 1) as i32));
        }
    }
}

/// Within one pass through an order that names each image at most once, an
/// image gets a turn exactly when it is among the first `slots` entries.
proof fn lemma_turns_once(order: Seq<usize>, slots: nat, j: int)
    requires
        order.no_duplicates(),
        slots <= order.len(),
    ensures
        turns_of(order, slots, j) == if exists|k: int| 0 <= k < slots && order[k] == j {
            1nat
        } else {
            0nat
        },
    decreases slots,
{
    if slots > 0 {
        lemma_turns_once(order, (slots - 1) as nat, j);
        let s1 = slots - 1;
        assert(s1 % (order.len() as int) == s1) by {
            vstd::arithmetic::div_mod::lemma_small_mod(s1 as nat, order.len());
        }
        if exists|k: int| 0 <= k < s1 && order[k] == j {
            let k = choose|k: int| 0 <= k < s1 && order[k] == j;
            assert(order[k] != order[s1]);
        }
        if order[s1] == j {
            assert(exists|k: int| 0 <= k < slots && order[k] == j);
        }
        if exists|k: int| 0 <= k < slots && order[k] == j {
            let k = choose|k: int| 0 <= k < slots && order[k] == j;
            if k != s1 {
                assert(exists|k: int| 0 <= k < s1 && order[k] == j);
            }
        }
    }
}

/// Without binding minimums or maximums (every minimum 0, every maximum
/// `i32::MAX`), the allocation succeeds and each image gets its base count
/// plus one tile for each leftover turn that falls to it ([`turns_of`]); so no
/// image gets less than its base count. When the order names each image once and there
/// are no more leftover tiles than images, an image gets one more than its
/// base count exactly when it is among the first `total - sum(base)` entries
/// of the order.
pub proof fn lemma_free_allocation_keeps_base_counts(
    base: Seq<i32>,
    order: Seq<usize>,
    mins: Seq<i32>,
    maxs: Seq<i32>,
    total: int,
)
    requires
        allocation_inputs(base, order, mins, maxs, total),
        forall|k: int| 0 <= k < mins.len() ==> #[trigger] mins[k] == 0,
        forall|k: int| 0 <= k < maxs.len() ==> #[trigger] maxs[k] == i32::MAX,
    ensures
        allocation(base, order, mins, maxs, total) matches Ok(counts) && counts.len() == base.len()
            && forall|j: int|
            0 <= j < base.len() ==> {
                &&& #[trigger] counts[j] == base[j] + turns_of(
                    order,
                    (total - seq_sum(base)) as nat,
                    j,
                )
                &&& counts[j] >= base[j]
                &&& order.no_duplicates() && total - seq_sum(base) <= order.len() ==> counts[j]
                    == base[j] + if exists|k: int| 0 <= k < total - seq_sum(base) && order[k] == j {
                    1int
                } else {
                    0int
                }
            },
{
    let slots = (total - seq_sum(base)) as nat;
    let a0 = distribute(base, order, slots);
    lemma_distribute_facts(base, order, slots);
    lemma_distribute_adds_turns(base, order, slots);
    assert(consistent_bounds(mins, maxs));
    assert(within_bounds(a0, mins, maxs));
    lemma_passes_stable(a0, mins, maxs, 0, false);
    assert(enforce_round(a0, mins, maxs) == Ok::<(Seq<i32>, bool), AllocError>((a0, false)));
    assert(enforce_rounds(a0, mins, maxs, MAX_ROUNDS as nat) == Ok::<Seq<i32>, AllocError>(a0));
    lemma_sum_nonneg_bounds(a0);
    assert(prefix_sums_fit(a0));
    assert forall|j: int| 0 <= j < base.len() implies {
        &&& #[trigger] a0[j] == base[j] + turns_of(order, slots, j)
        &&& a0[j] >= base[j]
        &&& order.no_duplicates() && total - seq_sum(base) <= order.len() ==> a0[j] == base[j]
            + if exists|k: int| 0 <= k < total - seq_sum(base) && order[k] == j {
            1int
        } else {
            0int
        }
    } by {
        if order.no_duplicates() && total - seq_sum(base) <= order.len() {
            lemma_turns_once(order, slots, j);
        }
    }
}

} // verus!
