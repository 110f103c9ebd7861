use debug_flat_call::flatten_debug_calls;
use debug_flat_call::Address;
use debug_flat_call::Bytes;
use debug_flat_call::DebugCall;
use debug_flat_call::DebugCallType;
use debug_flat_call::ResultDebugCall;
use debug_flat_call::U256;

fn node(tag: u8, children: Vec<DebugCall>) -> DebugCall {
    DebugCall {
        call_type: DebugCallType::Call,
        from: Address([tag; 20]),
        to: Address([tag.wrapping_add(1); 20]),
        gas: U256([tag as u64, 0, 0, 0]),
        gas_used: U256([tag as u64, 1, 0, 0]),
        value: U256([0, 0, 0, tag as u64]),
        input: Bytes(vec![tag, 1, 2]),
        output: Bytes(vec![3, tag]),
        error: None,
        revert_reason: None,
        calls: children,
    }
}

fn top(call: DebugCall) -> ResultDebugCall {
    ResultDebugCall { result: call }
}

#[test]
fn single_leaf_call() {
    let flat = flatten_debug_calls(vec![top(node(7, vec![]))]);
    assert_eq!(flat.len(), 1);
    assert_eq!(flat[0].trace_address, vec![0]);
    assert_eq!(flat[0].subtraces, 0);
}

#[test]
fn nested_children_preorder() {
    let grandchild = node(3, vec![]);
    let first_child = node(2, vec![grandchild]);
    let second_child = node(4, vec![]);
    let root = node(1, vec![first_child, second_child]);
    let flat = flatten_debug_calls(vec![top(root)]);
    assert_eq!(flat.len(), 4);
    assert_eq!(flat[0].trace_address, vec![0]);
    assert_eq!(flat[1].trace_address, vec![0, 0]);
    assert_eq!(flat[2].trace_address, vec![0, 0, 0]);
    assert_eq!(flat[3].trace_address, vec![0, 1]);
    assert_eq!(flat[0].subtraces, 2);
    assert_eq!(flat[1].subtraces, 1);
    assert_eq!(flat[2].subtraces, 0);
    assert_eq!(flat[3].subtraces, 0);
}

#[test]
fn two_top_level_leaves() {
    let flat = flatten_debug_calls(vec![top(node(1, vec![])), top(node(2, vec![]))]);
    assert_eq!(flat.len(), 2);
    assert_eq!(flat[0].trace_address, vec![0]);
    assert_eq!(flat[1].trace_address, vec![1]);
}

#[test]
fn error_call_still_traversed() {
    let child = node(2, vec![]);
    let mut parent = node(1, vec![child]);
    parent.error = Some(String::from("out of gas"));
    let flat = flatten_debug_calls(vec![top(parent)]);
    assert_eq!(flat.len(), 2);
    assert_eq!(flat[0].trace_address, vec![0]);
    assert_eq!(flat[1].trace_address, vec![0, 0]);
    assert_eq!(flat[0].error, Some(String::from("out of gas")));
    assert_eq!(flat[1].error, None);
}

#[test]
fn copied_fields_match_source() {
    let mut call = node(9, vec![node(5, vec![])]);
    call.call_type = DebugCallType::DelegateCall;
    call.revert_reason = Some(String::from("reverted"));
    let flat = flatten_debug_calls(vec![top(call)]);
    let rec = &flat[0];
    assert_eq!(rec.action.call_type, DebugCallType::DelegateCall);
    assert_eq!(rec.action.from, Address([9; 20]));
    assert_eq!(rec.action.to, Address([10; 20]));
    assert_eq!(rec.action.gas, U256([9, 0, 0, 0]));
    assert_eq!(rec.action.value, U256([0, 0, 0, 9]));
    assert_eq!(rec.action.input, Bytes(vec![9, 1, 2]));
    assert_eq!(rec.result.output, Bytes(vec![3, 9]));
    assert_eq!(rec.result.gas_used, U256([9, 1, 0, 0]));
    assert_eq!(rec.error, None);
    assert_eq!(rec.revert_reason, Some(String::from("reverted")));
    let child_rec = &flat[1];
    assert_eq!(child_rec.action.from, Address([5; 20]));
    assert_eq!(child_rec.revert_reason, None);
}

#[test]
fn record_count_matches_node_count() {
    let forest = vec![
        top(node(1, vec![node(2, vec![node(3, vec![]), node(4, vec![])]), node(5, vec![])])),
        top(node(6, vec![node(7, vec![])])),
    ];
    let flat = flatten_debug_calls(forest);
    assert_eq!(flat.len(), 7);
}

#[test]
fn trace_addresses_pairwise_distinct() {
    let forest = vec![
        top(node(1, vec![node(2, vec![node(3, vec![])]), node(4, vec![])])),
        top(node(5, vec![node(6, vec![])])),
    ];
    let flat = flatten_debug_calls(forest);
    for a in 0..flat.len() {
        for b in 0..flat.len() {
            if a != b {
                assert_ne!(flat[a].trace_address, flat[b].trace_address);
            }
        }
    }
}

#[test]
fn empty_forest_gives_empty_trace() {
    let flat = flatten_debug_calls(vec![]);
    assert_eq!(flat.len(), 0);
}

#[test]
fn parent_record_precedes_descendants() {
    let forest = vec![top(node(
        1,
        vec![node(2, vec![node(3, vec![])]), node(4, vec![node(5, vec![]), node(6, vec![])])],
    ))];
    let flat = flatten_debug_calls(forest);
    for a in 0..flat.len() {
        for b in 0..flat.len() {
            let pa = &flat[a].trace_address;
            let pb = &flat[b].trace_address;
            if pa.len() < pb.len() && pb[..pa.len()] == pa[..] {
                assert!(a < b);
            }
        }
    }
}
