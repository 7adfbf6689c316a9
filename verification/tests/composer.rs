use evm_cfg::address::Address;
use evm_cfg::analyzer::{TransactionAnalyzer, TransactionEdge, TransactionNode};
use evm_cfg::cfg_gen::cfg_graph::Edges;
use evm_cfg::cfg_gen::trace::TraceStep;
use evm_cfg::composer::{block_ran, find_entry_by_pc, find_entry_by_start};
use petgraph::visit::EdgeRef;

fn code(hex_text: &str) -> Vec<u8> {
    hex::decode(hex_text).unwrap()
}

fn address(fill: u8) -> Address {
    Address { bytes: [fill; 20] }
}

fn step(at: u8, pc: u16, op: &str) -> TraceStep {
    TraceStep {
        pc: Some(pc),
        op: Some(op.to_string()),
        gas: None,
        gas_cost: None,
        depth: None,
        error: None,
        stack: None,
        memory: None,
        storage: None,
        address: Some((0..20).map(|i| (i.to_string(), at)).collect()),
    }
}

fn composed(steps: Vec<TraceStep>, codes: &[(u8, &str)]) -> (TransactionAnalyzer, usize) {
    let mut analyzer = TransactionAnalyzer::new(steps);
    for (at, text) in codes {
        analyzer.bytecode_cache.store_fetched(address(*at), code(text));
    }
    analyzer.generate_contract_cfgs().unwrap();
    assert!(analyzer.has_capacity());
    let dropped = analyzer.build_global_transaction_graph().unwrap();
    (analyzer, dropped)
}

fn nodes_of(analyzer: &TransactionAnalyzer) -> Vec<(u8, u16, bool)> {
    analyzer
        .global_graph
        .node_weights()
        .map(|n: &TransactionNode| (n.contract_address.bytes[0], n.pc, n.contains_sstore))
        .collect()
}

fn edges_of(analyzer: &TransactionAnalyzer) -> Vec<((u8, u16), (u8, u16), String)> {
    let graph = &analyzer.global_graph;
    graph
        .edge_references()
        .map(|e| {
            let from = &graph[e.source()];
            let to = &graph[e.target()];
            let label = match e.weight() {
                TransactionEdge::Internal(kind) => format!("{kind:?}"),
                TransactionEdge::External(kind) => format!("call {kind}"),
            };
            (
                (from.contract_address.bytes[0], from.pc),
                (to.contract_address.bytes[0], to.pc),
                label,
            )
        })
        .collect()
}

// A: five PUSH1 0, then at pc 10 PUSH1 0, at pc 12 CALL, POP, STOP.
const CALLER: &str = "6000600060006000600060 00f15000";
// B: PUSH1 0, STOP.
const CALLEE: &str = "600000";

fn caller() -> String {
    CALLER.replace(' ', "")
}

#[test]
fn a_call_into_another_contract_becomes_an_external_edge() {
    let steps = vec![
        step(0xa, 10, "PUSH1"),
        step(0xa, 12, "CALL"),
        step(0xb, 0, "PUSH1"),
        step(0xb, 2, "STOP"),
        step(0xa, 14, "STOP"),
    ];
    let (analyzer, dropped) = composed(steps, &[(0xa, &caller()), (0xb, CALLEE)]);
    assert_eq!(dropped, 0);
    assert_eq!(nodes_of(&analyzer), vec![(0xa, 0, false), (0xb, 0, false)]);
    assert_eq!(edges_of(&analyzer), vec![((0xa, 0), (0xb, 0), "call CALL".to_string())]);
    assert_eq!(analyzer.call_edges.len(), 1);
    assert_eq!(analyzer.contract_addresses, vec![address(0xa), address(0xb)]);
}

#[test]
fn a_call_from_a_later_block_starts_at_the_block_that_holds_it() {
    // A: PUSH1 4, JUMP, STOP, JUMPDEST, five PUSH1 0, PUSH1 0 at 15, CALL at 17, STOP.
    let a = "600456005b600060006000600060006000f100";
    let steps = vec![
        step(0xa, 0, "PUSH1"),
        step(0xa, 2, "JUMP"),
        step(0xa, 4, "JUMPDEST"),
        step(0xa, 17, "CALL"),
        step(0xb, 0, "PUSH1"),
        step(0xb, 2, "STOP"),
        step(0xa, 18, "STOP"),
    ];
    let (analyzer, dropped) = composed(steps, &[(0xa, a), (0xb, CALLEE)]);
    assert_eq!(dropped, 0);
    assert_eq!(nodes_of(&analyzer), vec![(0xa, 0, false), (0xa, 4, false), (0xb, 0, false)]);
    assert_eq!(
        edges_of(&analyzer),
        vec![
            ((0xa, 0), (0xa, 4), "Jump".to_string()),
            ((0xa, 4), (0xb, 0), "call CALL".to_string()),
        ]
    );
}

#[test]
fn a_call_into_an_address_without_code_is_dropped_and_counted() {
    let steps = vec![step(0xa, 12, "CALL"), step(0xb, 0, "STOP"), step(0xa, 14, "STOP")];
    let (analyzer, dropped) = composed(steps, &[(0xa, &caller())]);
    assert_eq!(dropped, 1);
    assert_eq!(nodes_of(&analyzer), vec![(0xa, 0, false)]);
    assert!(edges_of(&analyzer).is_empty());
}

#[test]
fn a_call_whose_callee_did_not_run_its_first_block_is_dropped() {
    // B: PUSH1 3, JUMP, JUMPDEST, STOP; the trace only shows its second block.
    let steps = vec![step(0xa, 12, "DELEGATECALL"), step(0xb, 3, "JUMPDEST")];
    let (analyzer, dropped) = composed(steps, &[(0xa, &caller()), (0xb, "6003565b00")]);
    assert_eq!(dropped, 1);
    assert_eq!(nodes_of(&analyzer), vec![(0xa, 0, false), (0xb, 3, false)]);
}

#[test]
fn only_blocks_that_ran_get_a_node() {
    // PUSH1 6, JUMPI, PUSH1 1, STOP, JUMPDEST, PUSH1 2
    let steps = vec![step(1, 0, "PUSH1"), step(1, 2, "JUMPI"), step(1, 6, "JUMPDEST"), step(1, 7, "PUSH1")];
    let (analyzer, dropped) = composed(steps, &[(1, "6006576001005b6002")]);
    assert_eq!(dropped, 0);
    assert_eq!(nodes_of(&analyzer), vec![(1, 0, false), (1, 6, false)]);
    assert_eq!(edges_of(&analyzer), vec![((1, 0), (1, 6), "ConditionTrue".to_string())]);
}

#[test]
fn a_block_runs_if_any_of_its_instructions_ran() {
    // The trace names the JUMPI at pc 2 and the PUSH1 at pc 7 only.
    let steps = vec![step(1, 2, "JUMPI"), step(1, 7, "PUSH1")];
    let (analyzer, _) = composed(steps, &[(1, "6006576001005b6002")]);
    assert_eq!(nodes_of(&analyzer), vec![(1, 0, false), (1, 6, false)]);
    let pcs = [2u16, 7].into_iter().collect();
    assert!(block_ran(&pcs, (0, 2)));
    assert!(block_ran(&pcs, (6, 8)));
    assert!(!block_ran(&pcs, (3, 5)));
    assert!(!block_ran(&pcs, (8, 6)));
}

#[test]
fn internal_edges_need_both_blocks_to_have_run() {
    let steps = vec![step(1, 0, "PUSH1"), step(1, 2, "JUMPI")];
    let (analyzer, _) = composed(steps, &[(1, "6006576001005b6002")]);
    assert_eq!(nodes_of(&analyzer), vec![(1, 0, false)]);
    assert!(edges_of(&analyzer).is_empty());
}

#[test]
fn a_self_edge_is_shown_for_a_block_that_ran() {
    // JUMPDEST, PUSH1 0, JUMP
    let ran = composed(vec![step(1, 0, "JUMPDEST")], &[(1, "5b600056")]).0;
    assert_eq!(edges_of(&ran), vec![((1, 0), (1, 0), "Jump".to_string())]);
    let idle = composed(vec![step(2, 0, "STOP")], &[(1, "5b600056"), (2, "00")]).0;
    assert_eq!(nodes_of(&idle), vec![(2, 0, false)]);
    assert!(edges_of(&idle).is_empty());
}

#[test]
fn only_the_block_with_sstore_is_marked() {
    // 0: PUSH1 0x14, JUMP | 3: STOP | 4..19: eight PUSH1 0 |
    // 20: JUMPDEST, PUSH1 0, PUSH1 0, SSTORE, PUSH1 0, POP, PUSH1 0
    let text = "601456006000600060006000600060006000600 05b60006000556000506000";
    let bytes = code(&text.replace(' ', ""));
    assert_eq!(bytes.len(), 31);
    assert_eq!(bytes[20], 0x5b);
    assert_eq!(bytes[25], 0x55);
    let steps = vec![
        step(7, 0, "PUSH1"),
        step(7, 2, "JUMP"),
        step(7, 20, "JUMPDEST"),
        step(7, 25, "SSTORE"),
        step(7, 29, "PUSH1"),
    ];
    let (analyzer, _) = composed(steps, &[(7, &text.replace(' ', ""))]);
    assert_eq!(nodes_of(&analyzer), vec![(7, 0, false), (7, 20, true)]);
    let block = &analyzer.contract_cfgs[0].cfg_runner.map_to_instructionblock[3];
    assert_eq!((block.start_pc, block.end_pc), (20, 30));
    assert!(block.contains_sstore());
    assert!(!analyzer.contract_cfgs[0].cfg_runner.map_to_instructionblock[0].contains_sstore());
}

#[test]
fn empty_code_brings_no_node() {
    let mut analyzer = TransactionAnalyzer::new(vec![step(1, 0, "STOP")]);
    analyzer.bytecode_cache.insert(address(1), Vec::new());
    analyzer.generate_contract_cfgs().unwrap();
    assert_eq!(analyzer.contract_cfgs.len(), 1);
    assert_eq!(analyzer.build_global_transaction_graph(), Ok(0));
    assert_eq!(analyzer.global_graph.node_count(), 0);
    assert_eq!(analyzer.global_graph.edge_count(), 0);
    assert!(analyzer.node_mapping.is_empty());
}

#[test]
fn node_mapping_names_the_node_of_each_block() {
    let steps = vec![step(1, 0, "PUSH1"), step(1, 6, "JUMPDEST")];
    let (analyzer, _) = composed(steps, &[(1, "6006576001005b6002")]);
    let mapping = &analyzer.node_mapping;
    assert_eq!(mapping.len(), 2);
    assert_eq!(find_entry_by_start(mapping, &address(1), 0), Some(0));
    assert_eq!(find_entry_by_start(mapping, &address(1), 6), Some(1));
    assert_eq!(find_entry_by_start(mapping, &address(1), 3), None);
    assert_eq!(find_entry_by_start(mapping, &address(2), 0), None);
    assert_eq!(find_entry_by_pc(mapping, &address(1), 2), Some(0));
    assert_eq!(find_entry_by_pc(mapping, &address(1), 8), Some(1));
    assert_eq!(find_entry_by_pc(mapping, &address(1), 4), None);
    assert_eq!((mapping[1].start_pc, mapping[1].end_pc, mapping[1].index), (6, 8, 1));
}

#[test]
fn contracts_come_in_the_order_of_the_cache() {
    let steps = vec![step(2, 0, "STOP"), step(1, 0, "STOP")];
    let (analyzer, _) = composed(steps, &[(1, "00"), (2, "00")]);
    assert_eq!(nodes_of(&analyzer), vec![(1, 0, false), (2, 0, false)]);
    assert_eq!(analyzer.contract_cfgs[0].address, address(1));
    assert_eq!(analyzer.contract_cfgs[1].address, address(2));
    assert!(analyzer.contract_cfgs[1].executed_pcs.contains(&0));
    assert!(analyzer.contract_cfgs[1].solver_converged);
}

#[test]
fn code_that_cannot_be_analysed_leaves_the_graphs_as_they_were() {
    let mut analyzer = TransactionAnalyzer::new(vec![step(1, 0, "STOP")]);
    analyzer.bytecode_cache.insert(address(1), code("00"));
    analyzer.bytecode_cache.insert(address(2), code("ef0000"));
    assert_eq!(
        analyzer.generate_contract_cfgs(),
        Err(evm_cfg::error::AnalysisError::BytecodeAnalysis)
    );
    assert!(analyzer.contract_cfgs.is_empty());
    assert!(analyzer
        .generate_single_contract_cfg(&address(1), &code("00"))
        .is_ok());
}

#[test]
fn symbolic_edges_reach_the_global_graph_with_their_kind() {
    let text = "60086005565b5b565b00";
    let steps = vec![
        step(1, 0, "PUSH1"),
        step(1, 5, "JUMPDEST"),
        step(1, 6, "JUMPDEST"),
        step(1, 8, "JUMPDEST"),
    ];
    let (analyzer, _) = composed(steps, &[(1, text)]);
    let mut edges = edges_of(&analyzer);
    edges.sort();
    assert_eq!(
        edges,
        vec![
            ((1, 0), (1, 5), "Jump".to_string()),
            ((1, 5), (1, 6), "Jump".to_string()),
            ((1, 6), (1, 8), "SymbolicJump".to_string()),
        ]
    );
    let kinds: Vec<_> = analyzer
        .global_graph
        .edge_weights()
        .filter(|w| matches!(w, TransactionEdge::Internal(Edges::SymbolicJump)))
        .collect();
    assert_eq!(kinds.len(), 1);
}

#[test]
fn composing_again_gives_the_same_graph() {
    let a = "600456005b600060006000600060006000f100";
    let steps = vec![
        step(0xa, 0, "PUSH1"),
        step(0xa, 4, "JUMPDEST"),
        step(0xa, 17, "CALL"),
        step(0xb, 0, "PUSH1"),
        step(0xa, 18, "STOP"),
    ];
    let (mut analyzer, dropped) = composed(steps, &[(0xa, a), (0xb, CALLEE)]);
    assert_eq!(analyzer.global_graph.node_count(), 3);
    assert_eq!(analyzer.global_graph.edge_count(), 2);
    let nodes = nodes_of(&analyzer);
    let edges = edges_of(&analyzer);
    let places: Vec<_> = analyzer.node_mapping.iter().map(|e| (e.address, e.start_pc, e.index)).collect();
    assert_eq!(analyzer.build_global_transaction_graph(), Ok(dropped));
    assert_eq!(nodes_of(&analyzer), nodes);
    assert_eq!(edges_of(&analyzer), edges);
    let again: Vec<_> = analyzer.node_mapping.iter().map(|e| (e.address, e.start_pc, e.index)).collect();
    assert_eq!(again, places);
}

#[test]
fn each_entry_of_the_mapping_stands_for_the_node_at_its_place() {
    let steps = vec![
        step(2, 0, "PUSH1"),
        step(1, 0, "PUSH1"),
        step(1, 6, "JUMPDEST"),
    ];
    let (analyzer, _) = composed(steps, &[(1, "6006576001005b6002"), (2, "600100")]);
    assert_eq!(analyzer.node_mapping.len(), analyzer.global_graph.node_count());
    for (place, entry) in analyzer.node_mapping.iter().enumerate() {
        assert_eq!(entry.index, place);
        let node = analyzer.global_graph.node_weight(petgraph::graph::NodeIndex::new(place)).unwrap();
        assert_eq!(node.contract_address, entry.address);
        assert_eq!(node.pc, entry.start_pc);
    }
    for (s, a) in analyzer.node_mapping.iter().enumerate() {
        for b in analyzer.node_mapping.iter().skip(s + 1) {
            assert!(a.address != b.address || a.start_pc != b.start_pc);
        }
    }
}

#[test]
fn an_address_without_code_brings_nothing_and_its_calls_are_dropped() {
    let steps = vec![step(1, 12, "CALL"), step(3, 0, "STOP"), step(1, 14, "STOP")];
    let mut analyzer = TransactionAnalyzer::new(steps);
    analyzer.bytecode_cache.store_fetched(address(1), code(&caller()));
    analyzer.bytecode_cache.store_fetched(address(3), Vec::new());
    assert_eq!(analyzer.bytecode_cache.cache.len(), 1);
    analyzer.generate_contract_cfgs().unwrap();
    assert_eq!(analyzer.contract_cfgs.len(), 1);
    assert_eq!(analyzer.call_edges.len(), 1);
    assert_eq!(analyzer.build_global_transaction_graph(), Ok(1));
    assert!(nodes_of(&analyzer).iter().all(|n| n.0 == 1));
    assert!(analyzer.node_mapping.iter().all(|e| e.address == address(1)));
    assert!(edges_of(&analyzer).iter().all(|e| !e.2.starts_with("call")));
}
