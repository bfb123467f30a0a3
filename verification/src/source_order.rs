//! Label arithmetic for the global source order of rules.
//!
//! A new rule receives a label strictly between the labels of its source
//! neighbours. Appends leave a fixed stride after the current tail so that
//! later local insertions usually find a gap.

use vstd::prelude::*;

verus! {

/// Distance left after the last label by an append.
pub const SOURCE_ORDER_STRIDE: u64 = 0x1_0000_0000u64;

/// The label chosen between two neighbours without relabelling.
///
/// `Err(())` means that the neighbours are out of order, `Ok(None)` that no
/// free label lies between them, `Ok(Some(v))` the chosen label.
pub open spec fn spec_label_between(previous: Option<u64>, next: Option<u64>) -> Result<Option<u64>, ()> {
    match (previous, next) {
        (None, None) => Ok(Some(SOURCE_ORDER_STRIDE)),
        (Some(p), None) => {
            if p + SOURCE_ORDER_STRIDE <= u64::MAX {
                Ok(Some((p + SOURCE_ORDER_STRIDE) as u64))
            } else if u64::MAX - p > 1 {
                Ok(Some((p + (u64::MAX - p) / 2) as u64))
            } else {
                Ok(None)
            }
        },
        (None, Some(n)) => {
            if n > 1 {
                Ok(Some((n / 2) as u64))
            } else {
                Ok(None)
            }
        },
        (Some(p), Some(n)) => {
            if p < n && p + 1 < n {
                Ok(Some((p + (n - p) / 2) as u64))
            } else if p < n {
                Ok(None)
            } else {
                Err(())
            }
        },
    }
}

/// A chosen label lies strictly between the given neighbours.
pub proof fn lemma_label_between_is_between(previous: Option<u64>, next: Option<u64>)
    ensures
        spec_label_between(previous, next) matches Ok(Some(v)) ==> {
            &&& (previous matches Some(p) ==> p < v)
            &&& (next matches Some(n) ==> v < n)
        },
{
}

/// Chooses a label between two neighbours without relabelling.
pub fn label_between(previous: Option<u64>, next: Option<u64>) -> (r: Result<Option<u64>, ()>)
    ensures
        r == spec_label_between(previous, next),
{
    match (previous, next) {
        (None, None) => Ok(Some(SOURCE_ORDER_STRIDE)),
        (Some(p), None) => {
            match p.checked_add(SOURCE_ORDER_STRIDE) {
                Some(v) => Ok(Some(v)),
                None => {
                    let gap = u64::MAX - p;
                    if gap > 1 {
                        Ok(Some(p + gap / 2))
                    } else {
                        Ok(None)
                    }
                },
            }
        },
        (None, Some(n)) => {
            if n > 1 {
                Ok(Some(n / 2))
            } else {
                Ok(None)
            }
        },
        (Some(p), Some(n)) => {
            if p < n && p + 1 < n {
                Ok(Some(p + (n - p) / 2))
            } else if p < n {
                Ok(None)
            } else {
                Err(())
            }
        },
    }
}

/// The step between consecutive labels after relabelling `count` rules.
pub open spec fn spec_relabel_step(count: nat) -> int {
    u64::MAX as int / (count + 1) as int
}

/// The label given to the rule at source position `position` when all
/// `count` rules are relabelled.
pub open spec fn spec_relabeled(count: nat, position: int) -> int {
    spec_relabel_step(count) * (position + 1)
}

/// With fewer than `u32::MAX` rules the relabelling step is at least the
/// append stride, so every gap left by a relabelling is wide.
pub proof fn lemma_relabel_step_wide(count: nat)
    requires
        count <= 0xffff_fffe,
    ensures
        spec_relabel_step(count) >= SOURCE_ORDER_STRIDE,
{
    let step = spec_relabel_step(count);
    assert(step >= 0x1_0000_0000) by (nonlinear_arith)
        requires
            step == 0xffff_ffff_ffff_ffffint / (count + 1) as int,
            count <= 0xffff_fffe;
}

/// Every relabelled position is positive and leaves a full step before the
/// end of the `u64` range.
pub proof fn lemma_relabeled_room(count: nat, j: int)
    requires
        0 <= j < count,
        count <= u32::MAX,
    ensures
        0 < spec_relabeled(count, j),
        spec_relabeled(count, j) + spec_relabel_step(count) <= u64::MAX,
{
    let step = spec_relabel_step(count);
    assert(step * (count + 1) <= u64::MAX) by (nonlinear_arith)
        requires step == u64::MAX as int / (count + 1) as int, count >= 1;
    assert(step >= 1) by (nonlinear_arith)
        requires step == u64::MAX as int / (count + 1) as int, count >= 1, count < u64::MAX as int;
    assert(step * (j + 1) + step <= step * (count + 1)) by (nonlinear_arith)
        requires step >= 1, j + 1 <= count;
    assert(0 < step * (j + 1)) by (nonlinear_arith)
        requires step >= 1, j >= 0;
}

/// Relabelled positions are strictly increasing and fit in a `u64`.
pub proof fn lemma_relabeled_bounds(count: nat, i: int, j: int)
    requires
        0 <= i < j < count,
        count <= u32::MAX,
    ensures
        0 <= spec_relabeled(count, i) < spec_relabeled(count, j) <= u64::MAX,
        spec_relabeled(count, j) + spec_relabel_step(count) <= u64::MAX,
{
    let step = spec_relabel_step(count);
    assert(step >= 0) by (nonlinear_arith)
        requires step == u64::MAX as int / (count + 1) as int, count >= 1;
    assert(step * (count + 1) <= u64::MAX) by (nonlinear_arith)
        requires step == u64::MAX as int / (count + 1) as int, count >= 1;
    assert(step >= 1) by (nonlinear_arith)
        requires step == u64::MAX as int / (count + 1) as int, count >= 1, count < u64::MAX as int;
    assert(step * (i + 1) < step * (j + 1)) by (nonlinear_arith)
        requires step >= 1, i < j;
    assert(step * (j + 1) + step <= step * (count + 1)) by (nonlinear_arith)
        requires step >= 1, j + 1 <= count;
    assert(0 <= step * (i + 1)) by (nonlinear_arith)
        requires step >= 1, i >= 0;
}

} // verus!
