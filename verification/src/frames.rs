//! When two frames show the same: numbers compare as numbers, everything else as it stands.
use vstd::prelude::*;

use crate::api_types::{
    listed, Activation, ActivationFrame, ActivationView, BlockView, ExactBlock, FrameView,
};
use crate::floats::{is_nan, is_zero, nan, zero, Bits};
use crate::text::same;

verus! {

/// The two are the same number: zeros of either sign are, and no NaN is one.
pub open spec fn same_number(a: Bits, b: Bits) -> bool {
    (zero(a) && zero(b)) || (a == b && !nan(a))
}

/// Both slots are empty, or both hold the same number.
pub open spec fn same_slot(a: Option<Bits>, b: Option<Bits>) -> bool {
    match (a, b) {
        (Some(x), Some(y)) => same_number(x, y),
        (None, None) => true,
        _ => false,
    }
}

/// Slot by slot the same.
pub open spec fn same_slots(a: Seq<Option<Bits>>, b: Seq<Option<Bits>>) -> bool {
    a.len() == b.len() && forall|k: int| #![trigger a[k]] 0 <= k < a.len() ==> same_slot(a[k], b[k])
}

/// Both are absent, or slot by slot the same.
pub open spec fn same_listed(a: Option<Seq<Option<Bits>>>, b: Option<Seq<Option<Bits>>>) -> bool {
    match (a, b) {
        (Some(x), Some(y)) => same_slots(x, y),
        (None, None) => true,
        _ => false,
    }
}

/// Both are absent, or the same columns of the same widths.
pub open spec fn same_block(a: Option<BlockView>, b: Option<BlockView>) -> bool {
    match (a, b) {
        (Some(x), Some(y)) => same_slots(x.cols, y.cols) && x.widths == y.widths,
        (None, None) => true,
        _ => false,
    }
}

/// The two activations show the same.
pub open spec fn same_activation(a: ActivationView, b: ActivationView) -> bool {
    &&& a.node == b.node
    &&& a.deps == b.deps
    &&& a.gates == b.gates
    &&& a.out == b.out
    &&& a.detail == b.detail
    &&& a.ran == b.ran
    &&& a.fired == b.fired
    &&& a.dims == b.dims
    &&& same_listed(a.vals, b.vals)
    &&& same_listed(a.jac, b.jac)
    &&& same_block(a.exact_block, b.exact_block)
    &&& same_slot(a.cost_ns, b.cost_ns)
    &&& a.exact == b.exact
}

/// The two frames show the same.
pub open spec fn same_frame(a: FrameView, b: FrameView) -> bool {
    &&& a.tick == b.tick
    &&& a.total == b.total
    &&& a.sealed == b.sealed
    &&& a.dropped == b.dropped
    &&& a.pending == b.pending
    &&& a.found == b.found
    &&& a.gap == b.gap
    &&& a.ts_ns == b.ts_ns
    &&& a.activations.len() == b.activations.len()
    &&& forall|k: int|
        #![trigger a.activations[k]]
        0 <= k < a.activations.len() ==> same_activation(a.activations[k], b.activations[k])
}

fn slot_matches(a: Option<Bits>, b: Option<Bits>) -> (r: bool)
    ensures
        r == same_slot(a, b),
{
    match (a, b) {
        (Some(x), Some(y)) => (is_zero(x) && is_zero(y)) || (x == y && !is_nan(x)),
        (None, None) => true,
        _ => false,
    }
}

fn slots_match(a: &Vec<Option<Bits>>, b: &Vec<Option<Bits>>) -> (r: bool)
    ensures
        r == same_slots(a@, b@),
{
    if a.len() != b.len() {
        return false;
    }
    let mut k: usize = 0;
    while k < a.len()
        invariant
            a@.len() == b@.len(),
            k <= a@.len(),
            forall|j: int| #![trigger a@[j]] 0 <= j < k ==> same_slot(a@[j], b@[j]),
        decreases a@.len() - k,
    {
        if !slot_matches(a[k], b[k]) {
            return false;
        }
        k += 1;
    }
    true
}

fn listed_match(a: &Option<Vec<Option<Bits>>>, b: &Option<Vec<Option<Bits>>>) -> (r: bool)
    ensures
        r == same_listed(listed(*a), listed(*b)),
{
    match (a, b) {
        (Some(x), Some(y)) => slots_match(x, y),
        (None, None) => true,
        _ => false,
    }
}

fn numbers_match(a: &Vec<usize>, b: &Vec<usize>) -> (r: bool)
    ensures
        r == (a@ == b@),
{
    if a.len() != b.len() {
        return false;
    }
    let mut k: usize = 0;
    while k < a.len()
        invariant
            a@.len() == b@.len(),
            k <= a@.len(),
            forall|j: int| #![trigger a@[j]] 0 <= j < k ==> a@[j] == b@[j],
        decreases a@.len() - k,
    {
        if a[k] != b[k] {
            return false;
        }
        k += 1;
    }
    assert(a@ =~= b@);
    true
}

fn names_match(a: &Vec<String>, b: &Vec<String>) -> (r: bool)
    ensures
        r == (a.deep_view() == b.deep_view()),
{
    let ghost av = a.deep_view();
    let ghost bv = b.deep_view();
    if a.len() != b.len() {
        assert(av.len() != bv.len());
        return false;
    }
    let mut k: usize = 0;
    while k < a.len()
        invariant
            av == a.deep_view(),
            bv == b.deep_view(),
            a@.len() == b@.len(),
            k <= a@.len(),
            forall|j: int| #![trigger av[j]] 0 <= j < k ==> av[j] == bv[j],
        decreases a@.len() - k,
    {
        assert(av[k as int] == a@[k as int]@);
        assert(bv[k as int] == b@[k as int]@);
        if !same(a[k].as_str(), b[k].as_str()) {
            assert(av[k as int] != bv[k as int]);
            return false;
        }
        k += 1;
    }
    assert(av =~= bv);
    true
}

fn blocks_match(a: &Option<ExactBlock>, b: &Option<ExactBlock>) -> (r: bool)
    ensures
        r == same_block(a.deep_view(), b.deep_view()),
{
    match (a, b) {
        (Some(x), Some(y)) => slots_match(&x.cols, &y.cols) && numbers_match(&x.widths, &y.widths),
        (None, None) => true,
        _ => false,
    }
}

/// Whether the two activations show the same.
pub fn activations_match(a: &Activation, b: &Activation) -> (r: bool)
    ensures
        r == same_activation(a.deep_view(), b.deep_view()),
{
    proof {
        assert(a.dims.deep_view() =~= a.dims@);
        assert(b.dims.deep_view() =~= b.dims@);
    }
    same(a.node.as_str(), b.node.as_str()) && names_match(&a.deps, &b.deps) && names_match(
        &a.gates,
        &b.gates,
    ) && same(a.out.as_str(), b.out.as_str()) && same(
        a.detail.as_str(),
        b.detail.as_str(),
    ) && a.ran == b.ran && a.fired == b.fired
        && numbers_match(&a.dims, &b.dims) && listed_match(&a.vals, &b.vals) && listed_match(
        &a.jac,
        &b.jac,
    ) && blocks_match(&a.exact_block, &b.exact_block) && slot_matches(a.cost_ns, b.cost_ns)
        && a.exact == b.exact
}

/// Whether the two frames show the same.
pub fn frames_match(a: &ActivationFrame, b: &ActivationFrame) -> (r: bool)
    ensures
        r == same_frame(a.deep_view(), b.deep_view()),
{
    let ghost av = a.deep_view();
    let ghost bv = b.deep_view();
    if !(a.tick == b.tick && a.total == b.total && a.sealed == b.sealed && a.dropped == b.dropped
        && a.pending == b.pending && a.found == b.found && a.gap == b.gap && a.ts_ns == b.ts_ns
        && a.activations.len() == b.activations.len()) {
        return false;
    }
    let mut k: usize = 0;
    while k < a.activations.len()
        invariant
            av == a.deep_view(),
            bv == b.deep_view(),
            av.activations.len() == bv.activations.len(),
            k <= a.activations@.len(),
            forall|j: int|
                #![trigger av.activations[j]]
                0 <= j < k ==> same_activation(av.activations[j], bv.activations[j]),
        decreases a.activations@.len() - k,
    {
        assert(av.activations[k as int] == a.activations@[k as int].deep_view());
        assert(bv.activations[k as int] == b.activations@[k as int].deep_view());
        if !activations_match(&a.activations[k], &b.activations[k]) {
            return false;
        }
        k += 1;
    }
    true
}

} // verus!
