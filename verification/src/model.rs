use vstd::prelude::*;

use crate::types::opt_text_view;
use crate::types::DebugCall;
use crate::types::FlatRecord;

verus! {

/// The flat record the flattener emits for node `c` when the traversal reaches
/// it with trace address `addr`: every copied field is value-identical to the
/// node's field, `subtraces` is the number of direct children, and
/// `trace_address` is `addr`.
pub open spec fn record_of(c: DebugCall, addr: Seq<usize>) -> FlatRecord {
    FlatRecord {
        call_type: c.call_type,
        from: c.from,
        to: c.to,
        gas: c.gas,
        value: c.value,
        input: c.input@,
        output: c.output@,
        gas_used: c.gas_used,
        subtraces: c.calls@.len(),
        trace_address: addr,
        error: opt_text_view(c.error),
        revert_reason: opt_text_view(c.revert_reason),
    }
}

/// Pre-order flattening of the subtree rooted at `c`, whose own trace address
/// is `addr`: the record for `c` itself, then the blocks of its children in
/// stored order.
pub open spec fn flat_of_node(c: DebugCall, addr: Seq<usize>) -> Seq<FlatRecord>
    decreases c, 1int,
{
    seq![record_of(c, addr)] + flat_of_children(c.calls@, addr, 0)
}

/// Pre-order flattening of the children `cs[j..]` of a node whose own trace
/// address is `addr`: the child at position `k` is traversed with the address
/// `addr` extended by `k`.
pub open spec fn flat_of_children(cs: Seq<DebugCall>, addr: Seq<usize>, j: int) -> Seq<FlatRecord>
    decreases cs, cs.len() - j,
{
    if 0 <= j < cs.len() {
        flat_of_node(cs[j], addr.push(j as usize)) + flat_of_children(cs, addr, j + 1)
    } else {
        Seq::empty()
    }
}

/// Flattening of the forest `calls[i..]` of top-level calls: the tree at
/// position `i` is traversed with the single-element trace address `[i]`.
pub open spec fn flat_of_forest(calls: Seq<DebugCall>, i: int) -> Seq<FlatRecord>
    decreases calls.len() - i,
{
    if 0 <= i < calls.len() {
        flat_of_node(calls[i], seq![i as usize]) + flat_of_forest(calls, i + 1)
    } else {
        Seq::empty()
    }
}

/// The complete flat trace of a forest of top-level calls, in input order.
pub open spec fn flatten_spec(calls: Seq<DebugCall>) -> Seq<FlatRecord> {
    flat_of_forest(calls, 0)
}

/// The number of nodes in the subtree rooted at `c`, the root included.
pub open spec fn node_count(c: DebugCall) -> nat
    decreases c, 1int,
{
    1 + forest_count(c.calls@, 0)
}

/// The total number of nodes in the trees `cs[j..]`.
pub open spec fn forest_count(cs: Seq<DebugCall>, j: int) -> nat
    decreases cs, cs.len() - j,
{
    if 0 <= j < cs.len() {
        node_count(cs[j]) + forest_count(cs, j + 1)
    } else {
        0
    }
}

/// Whether the path `rel` of sibling indices leads from `c` to a node of its
/// subtree (`rel` empty names `c` itself).
pub open spec fn has_subnode_at(c: DebugCall, rel: Seq<usize>) -> bool
    decreases rel.len(),
{
    rel.len() == 0 || (rel[0] < c.calls@.len() && has_subnode_at(
        c.calls@[rel[0] as int],
        rel.drop_first(),
    ))
}

/// The node of `c`'s subtree that the path `rel` of sibling indices leads to.
pub open spec fn subnode_at(c: DebugCall, rel: Seq<usize>) -> DebugCall
    decreases rel.len(),
{
    if rel.len() == 0 {
        c
    } else {
        subnode_at(c.calls@[rel[0] as int], rel.drop_first())
    }
}

/// Whether the trace address `ta` names a node of the forest `calls`: its
/// first element picks a top-level tree, the rest descend within it.
pub open spec fn forest_has_node_at(calls: Seq<DebugCall>, ta: Seq<usize>) -> bool {
    ta.len() >= 1 && ta[0] < calls.len() && has_subnode_at(calls[ta[0] as int], ta.drop_first())
}

/// The node of the forest `calls` that the trace address `ta` names.
pub open spec fn forest_node_at(calls: Seq<DebugCall>, ta: Seq<usize>) -> DebugCall {
    subnode_at(calls[ta[0] as int], ta.drop_first())
}

/// Strict pre-order precedence on trace addresses: `a` comes before `b` when
/// `a` is a strict prefix of `b` (ancestor before descendant), or when the two
/// first differ at a position where `a` carries the smaller sibling index
/// (earlier sibling subtree before later one).
pub open spec fn addr_before(a: Seq<usize>, b: Seq<usize>) -> bool {
    ||| (a.len() < b.len() && a == b.subrange(0, a.len() as int))
    ||| (exists|i: int|
        0 <= i < a.len() && i < b.len() && a.subrange(0, i) == b.subrange(0, i) && a[i] < b[i])
}

} // verus!
