use vstd::prelude::*;

use crate::model::flat_of_children;
use crate::model::flat_of_forest;
use crate::model::flat_of_node;
use crate::model::flatten_spec;
use crate::model::record_of;
use crate::types::clone_copy_vec;
use crate::types::clone_opt_text;
use crate::types::Action;
use crate::types::CallResult;
use crate::types::DebugCall;
use crate::types::DebugCallFlat;
use crate::types::FlatRecord;
use crate::types::ResultDebugCall;

verus! {

/// The sequence of models of the flat records in `s`, in order.
pub open spec fn records_view(s: Seq<DebugCallFlat>) -> Seq<FlatRecord> {
    s.map_values(|f: DebugCallFlat| f@)
}

/// The top-level call nodes carried by a sequence of per-call results.
pub open spec fn top_nodes(rs: Seq<ResultDebugCall>) -> Seq<DebugCall> {
    rs.map_values(|rc: ResultDebugCall| rc.result)
}

/// Converts a forest of nested call traces into the flat trace described by
/// `flatten_spec`: one record per node, in depth-first pre-order, the tree at
/// position `i` traversed with initial trace address `[i]`.
pub fn flatten_debug_calls(calls: Vec<ResultDebugCall>) -> (r: Vec<DebugCallFlat>)
    ensures
        records_view(r@) == flatten_spec(top_nodes(calls@)),
{
    let ghost nodes = top_nodes(calls@);
    let mut flattened_calls: Vec<DebugCallFlat> = Vec::new();
    proof {
        assert(records_view(flattened_calls@) =~= Seq::<FlatRecord>::empty());
        assert(records_view(flattened_calls@) + flat_of_forest(nodes, 0) =~= flat_of_forest(
            nodes,
            0,
        ));
    }
    let mut index: usize = 0;
    while index < calls.len()
        invariant
            index <= calls.len(),
            nodes == top_nodes(calls@),
            nodes.len() == calls@.len(),
            records_view(flattened_calls@) + flat_of_forest(nodes, index as int) == flatten_spec(
                nodes,
            ),
        decreases calls.len() - index,
    {
        let ghost before = records_view(flattened_calls@);
        let mut trace_address: Vec<usize> = Vec::new();
        trace_address.push(index);
        proof {
            assert(trace_address@ =~= seq![index]);
            assert(nodes[index as int] == calls@[index as int].result);
        }
        flatten_call_recursive(&calls[index].result, &mut flattened_calls, &mut trace_address);
        proof {
            let tail = flat_of_forest(nodes, index as int + 1);
            let block = flat_of_node(nodes[index as int], seq![index]);
            assert((before + block) + tail =~= before + (block + tail));
        }
        index += 1;
    }
    flattened_calls
}

/// Emits the flat record for `call` at the current trace address, then the
/// records of its sub-calls in stored order, each child extending the address
/// with its zero-based position; the working address is restored afterwards.
fn flatten_call_recursive(
    call: &DebugCall,
    flattened_calls: &mut Vec<DebugCallFlat>,
    trace_address: &mut Vec<usize>,
)
    ensures
        records_view(final(flattened_calls)@) == records_view(old(flattened_calls)@)
            + flat_of_node(*call, old(trace_address)@),
        final(trace_address)@ == old(trace_address)@,
    decreases *call,
{
    let ghost addr0 = trace_address@;
    let flat_call = DebugCallFlat {
        action: Action {
            call_type: call.call_type,
            from: call.from,
            to: call.to,
            gas: call.gas,
            value: call.value,
            input: call.input.clone(),
        },
        result: CallResult { output: call.output.clone(), gas_used: call.gas_used },
        subtraces: call.calls.len(),
        trace_address: clone_copy_vec(trace_address),
        error: clone_opt_text(&call.error),
        revert_reason: clone_opt_text(&call.revert_reason),
    };
    proof {
        assert(flat_call@ =~= record_of(*call, addr0));
    }
    flattened_calls.push(flat_call);
    proof {
        assert(records_view(flattened_calls@) =~= records_view(old(flattened_calls)@) + seq![
            record_of(*call, addr0),
        ]);
        assert((records_view(old(flattened_calls)@) + seq![record_of(*call, addr0)])
            + flat_of_children(call.calls@, addr0, 0) =~= records_view(old(flattened_calls)@) + (
        seq![record_of(*call, addr0)] + flat_of_children(call.calls@, addr0, 0)));
    }
    let mut index: usize = 0;
    while index < call.calls.len()
        invariant
            index <= call.calls.len(),
            trace_address@ == addr0,
            records_view(flattened_calls@) + flat_of_children(call.calls@, addr0, index as int)
                == records_view(old(flattened_calls)@) + flat_of_node(*call, addr0),
        decreases call.calls.len() - index,
    {
        let ghost before = records_view(flattened_calls@);
        trace_address.push(index);
        flatten_call_recursive(&call.calls[index], flattened_calls, trace_address);
        let _last: Option<usize> = trace_address.pop();
        proof {
            assert(trace_address@ =~= addr0);
            let tail = flat_of_children(call.calls@, addr0, index as int + 1);
            let block = flat_of_node(call.calls@[index as int], addr0.push(index));
            assert((before + block) + tail =~= before + (block + tail));
        }
        index += 1;
    }
    proof {
        assert(records_view(flattened_calls@) + flat_of_children(
            call.calls@,
            addr0,
            call.calls@.len() as int,
        ) =~= records_view(flattened_calls@));
    }
}

} // verus!
