//! Flattening and codec tests for the trace module.

use chainsnap::flat::{
    Action, Address, BlockTraces, Call, CallResult, Create, FlatBlockTraces, FlatTrace,
    FlatTransactionTraces, Res, Trace, U256,
};

fn create_node(subs: Vec<Trace>) -> Trace {
    Trace {
        depth: 3,
        action: Action::Create(Create {
            from: Address::from_low_u64(6),
            value: U256::from_u64(7),
            gas: U256::from_u64(8),
            init: vec![0x9],
        }),
        subs,
        result: Res::FailedCreate,
    }
}

#[test]
fn test_block_from() {
    let trace = Trace {
        depth: 2,
        action: Action::Call(Call {
            from: Address::from_low_u64(1),
            to: Address::from_low_u64(2),
            value: U256::from_u64(3),
            gas: U256::from_u64(4),
            input: vec![0x5],
        }),
        subs: vec![
            create_node(vec![create_node(vec![]), create_node(vec![])]),
            create_node(vec![]),
        ],
        result: Res::Call(CallResult { gas_used: U256::from_u64(10), output: vec![0x11, 0x12] }),
    };

    let block_traces = FlatBlockTraces::from_block(&BlockTraces(vec![trace]));
    let transaction_traces: Vec<FlatTransactionTraces> = block_traces.0;
    assert_eq!(transaction_traces.len(), 1);
    let ordered_traces: Vec<FlatTrace> = transaction_traces.into_iter().nth(0).unwrap().0;
    assert_eq!(ordered_traces.len(), 5);
    assert_eq!(ordered_traces[0].trace_address, Vec::<usize>::new());
    assert_eq!(ordered_traces[0].subtraces, 2);
    assert_eq!(ordered_traces[1].trace_address, vec![0]);
    assert_eq!(ordered_traces[1].subtraces, 2);
    assert_eq!(ordered_traces[2].trace_address, vec![0, 0]);
    assert_eq!(ordered_traces[2].subtraces, 0);
    assert_eq!(ordered_traces[3].trace_address, vec![0, 1]);
    assert_eq!(ordered_traces[3].subtraces, 0);
    assert_eq!(ordered_traces[4].trace_address, vec![1]);
    assert_eq!(ordered_traces[4].subtraces, 0);
}

#[test]
fn test_trace_serialization() {
    let flat_trace = FlatTrace {
        action: Action::Call(Call {
            from: Address::from_low_u64(1),
            to: Address::from_low_u64(2),
            value: U256::from_u64(3),
            gas: U256::from_u64(4),
            input: vec![0x5],
        }),
        result: Res::Call(CallResult {
            gas_used: U256::from_u64(10),
            output: vec![0x11, 0x12],
        }),
        trace_address: Vec::new(),
        subtraces: 0,
    };

    let block_traces = FlatBlockTraces(vec![FlatTransactionTraces(vec![flat_trace])]);

    let encoded = block_traces.to_rlp();
    let decoded = FlatBlockTraces::from_rlp(&encoded).unwrap();
    assert_eq!(block_traces, decoded);
}

#[test]
fn test_trace_serialization_variants() {
    let failed_call = FlatTrace {
        action: Action::Create(Create {
            from: Address::from_low_u64(9),
            value: U256::from_u64(0),
            gas: U256::from_u64(21),
            init: vec![],
        }),
        result: Res::FailedCall,
        trace_address: vec![2, 0, 7],
        subtraces: 4,
    };
    let created = FlatTrace {
        action: Action::Create(Create {
            from: Address::from_low_u64(9),
            value: U256::from_u64(1),
            gas: U256::from_u64(21),
            init: vec![0xaa, 0xbb],
        }),
        result: Res::Create(chainsnap::flat::CreateResult {
            gas_used: U256::from_u64(11),
            code: vec![0x60],
            address: Address::from_low_u64(3),
        }),
        trace_address: vec![],
        subtraces: 0,
    };
    let block_traces = FlatBlockTraces(vec![
        FlatTransactionTraces(vec![failed_call]),
        FlatTransactionTraces(vec![created]),
    ]);
    let encoded = block_traces.to_rlp();
    let decoded = FlatBlockTraces::from_rlp(&encoded).unwrap();
    assert_eq!(block_traces, decoded);
}
