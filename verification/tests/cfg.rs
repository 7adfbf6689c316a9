use evm_cfg::address::Address;
use evm_cfg::analyzer::analyze_contract;
use evm_cfg::cfg_gen::cfg_graph::{CFGRunner, Edges};
use evm_cfg::cfg_gen::dasm::{disassemble, InstructionBlock};
use evm_cfg::cfg_gen::jump_table::valid_jumpdests;
use evm_cfg::cfg_gen::stack_solve::symbolic_cycle;
use evm_cfg::error::AnalysisError;

fn code(hex_text: &str) -> Vec<u8> {
    hex::decode(hex_text).unwrap()
}

fn blocks_of(bytes: &Vec<u8>) -> Vec<InstructionBlock> {
    let mut blocks = disassemble(bytes);
    for block in blocks.iter_mut() {
        block.analyze_stack_info();
    }
    blocks
}

fn runner_of(hex_text: &str) -> CFGRunner {
    let bytes = code(hex_text);
    let blocks = blocks_of(&bytes);
    CFGRunner::new(bytes, blocks)
}

fn connected(hex_text: &str) -> CFGRunner {
    let mut runner = runner_of(hex_text);
    runner.form_basic_connections();
    runner
}

fn solved(hex_text: &str) -> CFGRunner {
    let mut runner = connected(hex_text);
    let valid = valid_jumpdests(&code(hex_text)).unwrap();
    symbolic_cycle(&mut runner, &valid);
    runner
}

fn edges_of(runner: &CFGRunner) -> Vec<((u16, u16), (u16, u16), Edges)> {
    let mut edges: Vec<_> = runner.cfg_dag.all_edges().map(|(a, b, kind)| (a, b, *kind)).collect();
    edges.sort_by_key(|e| (e.0, e.1));
    edges
}

fn nodes_of(runner: &CFGRunner) -> Vec<(u16, u16)> {
    let mut nodes: Vec<_> = runner.cfg_dag.nodes().collect();
    nodes.sort();
    nodes
}

fn analysis(hex_text: &str) -> CFGRunner {
    let zero = Address::zero();
    analyze_contract(&[], &zero, &code(hex_text)).unwrap().cfg_runner
}

#[test]
fn new_runner_has_a_node_for_each_block_and_no_edge() {
    let runner = runner_of("6006576001005b6002");
    assert_eq!(nodes_of(&runner), vec![(0, 2), (3, 5), (6, 8)]);
    assert!(edges_of(&runner).is_empty());
    assert!(runner.executed_pcs.is_none());
    assert!(runner.last_node.is_none());
    assert!(runner.jumpi_edge.is_none());
    assert_eq!(runner.bytecode, code("6006576001005b6002"));
    assert_eq!(runner.map_to_instructionblock.len(), 3);
}

#[test]
fn straight_line_code_has_no_edges() {
    let runner = analysis("6001600201");
    assert_eq!(nodes_of(&runner), vec![(0, 4)]);
    assert!(edges_of(&runner).is_empty());
}

#[test]
fn direct_jump_gets_a_jump_edge() {
    let runner = analysis("6003565b00");
    assert_eq!(nodes_of(&runner), vec![(0, 2), (3, 4)]);
    assert_eq!(edges_of(&runner), vec![((0, 2), (3, 4), Edges::Jump)]);
}

#[test]
fn jumpi_gets_both_branches() {
    let runner = analysis("6006576001005b6002");
    assert_eq!(nodes_of(&runner), vec![(0, 2), (3, 5), (6, 8)]);
    assert_eq!(
        edges_of(&runner),
        vec![
            ((0, 2), (3, 5), Edges::ConditionFalse),
            ((0, 2), (6, 8), Edges::ConditionTrue),
        ]
    );
}

#[test]
fn jumpi_at_the_last_byte_has_no_fall_through() {
    // JUMPDEST, PUSH1 0, JUMPI
    let runner = connected("5b600057");
    assert_eq!(nodes_of(&runner), vec![(0, 3)]);
    assert_eq!(edges_of(&runner), vec![((0, 3), (0, 3), Edges::ConditionTrue)]);
    // PUSH1 9, JUMPI: the pushed target names no block.
    let lost = connected("600957");
    assert!(edges_of(&lost).is_empty());
}

#[test]
fn jumpi_does_not_fall_into_a_block_at_the_end_of_the_code() {
    // PUSH1 0, JUMPI, STOP: the next block starts where the last one ends.
    let runner = connected("60005700");
    assert_eq!(nodes_of(&runner), vec![(0, 2), (3, 3)]);
    assert_eq!(edges_of(&runner), vec![((0, 2), (0, 2), Edges::ConditionTrue)]);
    // PUSH1 0, JUMPI, STOP, STOP: now the next block lies before the end.
    let longer = connected("6000570000");
    assert_eq!(
        edges_of(&longer),
        vec![
            ((0, 2), (0, 2), Edges::ConditionTrue),
            ((0, 2), (3, 3), Edges::ConditionFalse),
        ]
    );
}

#[test]
fn taken_branch_wins_where_both_branches_lead_to_the_same_block() {
    // PUSH1 3, JUMPI, JUMPDEST, STOP, STOP
    let runner = connected("6003575b0000");
    assert_eq!(edges_of(&runner), vec![((0, 2), (3, 4), Edges::ConditionTrue)]);
}

#[test]
fn block_without_an_ender_runs_on_into_the_jumpdest() {
    // PUSH1 1, JUMPDEST, STOP
    let runner = connected("60015b00");
    assert_eq!(nodes_of(&runner), vec![(0, 1), (2, 3)]);
    assert_eq!(edges_of(&runner), vec![((0, 1), (2, 3), Edges::Jump)]);
}

#[test]
fn block_does_not_run_on_into_a_block_at_the_end_of_the_code() {
    // PUSH1 1, JUMPDEST: the next block starts where the last one ends.
    let runner = connected("60015b");
    assert_eq!(nodes_of(&runner), vec![(0, 1), (2, 2)]);
    assert!(edges_of(&runner).is_empty());
}

#[test]
fn jump_to_a_target_without_a_block_is_skipped() {
    // PUSH1 1, JUMP: pc 1 is inside the push.
    assert!(edges_of(&connected("600156")).is_empty());
    // PUSH2 0xffff, JUMP
    assert!(edges_of(&connected("61ffff56")).is_empty());
    // PUSH3 0x010000, JUMP: beyond the space of program counters.
    assert!(edges_of(&connected("6201000056")).is_empty());
}

#[test]
fn basic_connections_leave_indirect_jumps_open() {
    let runner = connected("6008600556" /* PUSH1 8, PUSH1 5, JUMP */);
    assert!(edges_of(&runner).is_empty());
    let runner = connected("60086005565b5b565b00");
    assert_eq!(
        edges_of(&runner),
        vec![((0, 4), (5, 5), Edges::Jump), ((5, 5), (6, 7), Edges::Jump)]
    );
}

#[test]
fn solver_resolves_a_return_address_pushed_two_blocks_earlier() {
    let mut runner = connected("60086005565b5b565b00");
    let before = edges_of(&runner);
    let valid = valid_jumpdests(&code("60086005565b5b565b00")).unwrap();
    let outcome = symbolic_cycle(&mut runner, &valid);
    assert!(outcome.converged);
    let after = edges_of(&runner);
    let added: Vec<_> = after.iter().filter(|e| !before.contains(e)).cloned().collect();
    assert_eq!(added, vec![((6, 7), (8, 9), Edges::SymbolicJump)]);
    assert_eq!(after.len(), before.len() + 1);
    assert_eq!(nodes_of(&runner), vec![(0, 4), (5, 5), (6, 7), (8, 9)]);
}

#[test]
fn solver_joins_the_stacks_of_two_callers() {
    //  0: PUSH1 09   2: PUSH1 0f   4: JUMP                 [0..4]   -> 15, leaves 9
    //  5: INVALID  6: INVALID  7: INVALID  8: INVALID      one block each
    //  9: JUMPDEST  10: PUSH1 11  12: PUSH1 0f  14: JUMP   [9..14]  -> 15, leaves 17
    // 15: JUMPDEST  16: JUMP                                [15..16] indirect
    // 17: JUMPDEST  18: STOP                                [17..18]
    let text = "6009600f56fefefefe5b6011600f565b565b00";
    let bytes = code(text);
    assert_eq!((bytes[9], bytes[15], bytes[17]), (0x5b, 0x5b, 0x5b));
    let runner = solved(text);
    let symbolic: Vec<_> =
        edges_of(&runner).into_iter().filter(|e| e.2 == Edges::SymbolicJump).collect();
    assert_eq!(
        symbolic,
        vec![
            ((15, 16), (9, 14), Edges::SymbolicJump),
            ((15, 16), (17, 18), Edges::SymbolicJump),
        ]
    );
}

#[test]
fn solver_only_aims_at_valid_jump_destinations() {
    //  0: PUSH1 06  2: PUSH1 05  4: JUMP    [0..4] -> 5, leaves 6
    //  5: JUMPDEST  6: JUMP                 [5..6] indirect, target 6 is no JUMPDEST
    let runner = solved("60066005565b56");
    assert_eq!(edges_of(&runner), vec![((0, 4), (5, 6), Edges::Jump)]);
    // The target is a push immediate that happens to be 0x5b.
    //  0: PUSH1 08  2: PUSH1 05  4: JUMP  5: JUMPDEST 6: JUMP 7: PUSH1 5b
    let inside = solved("60086005565b56605b");
    assert_eq!(edges_of(&inside), vec![((0, 4), (5, 6), Edges::Jump)]);
}

#[test]
fn solver_leaves_unknown_targets_absent() {
    // CALLDATALOAD decides the target.
    //  0: PUSH1 00  2: CALLDATALOAD  3: JUMP  4: JUMPDEST  5: STOP
    let runner = solved("600035565b00");
    assert!(edges_of(&runner).is_empty());
}

#[test]
fn solver_keeps_the_edges_that_were_there() {
    let text = "6006576001005b6002";
    let before = edges_of(&connected(text));
    let after = edges_of(&solved(text));
    assert_eq!(before, after);
}

#[test]
fn solving_twice_changes_nothing() {
    for text in ["60086005565b5b565b00", "6009600f56fefefefe5b6011600f565b565b00", "6001600201"] {
        let mut runner = connected(text);
        let valid = valid_jumpdests(&code(text)).unwrap();
        let first = symbolic_cycle(&mut runner, &valid);
        assert!(first.converged);
        let once = edges_of(&runner);
        let second = symbolic_cycle(&mut runner, &valid);
        assert!(second.converged);
        assert_eq!(edges_of(&runner), once, "{text}");
    }
}

#[test]
fn solver_follows_a_return_address_through_two_jumps() {
    // 0: PUSH1 0b, PUSH1 05, JUMP | 5: JUMPDEST, PUSH1 09, JUMP
    // 9: JUMPDEST, JUMP | 11: JUMPDEST, STOP
    let text = "600b6005565b6009565b565b00";
    let mut runner = connected(text);
    assert_eq!(
        edges_of(&runner),
        vec![((0, 4), (5, 8), Edges::Jump), ((5, 8), (9, 10), Edges::Jump)]
    );
    let valid = valid_jumpdests(&code(text)).unwrap();
    let outcome = symbolic_cycle(&mut runner, &valid);
    assert!(outcome.converged);
    assert!(outcome.iterations >= 3 && outcome.iterations < 8 * 4);
    let expected = vec![
        ((0, 4), (5, 8), Edges::Jump),
        ((5, 8), (9, 10), Edges::Jump),
        ((9, 10), (11, 12), Edges::SymbolicJump),
    ];
    assert_eq!(edges_of(&runner), expected);
    let whole = analysis(text);
    assert_eq!(nodes_of(&whole), vec![(0, 4), (5, 8), (9, 10), (11, 12)]);
    assert_eq!(edges_of(&whole), expected);
}

#[test]
fn solver_takes_up_a_block_again_only_for_a_new_constant() {
    // 0: JUMPDEST, ADDRESS, PUSH1 00, JUMP: a loop that leaves one more
    // unknown word each time round.
    let text = "5b30600056";
    let mut runner = connected(text);
    let valid = valid_jumpdests(&code(text)).unwrap();
    let outcome = symbolic_cycle(&mut runner, &valid);
    assert!(outcome.converged);
    assert_eq!(outcome.iterations, 1);
    assert_eq!(edges_of(&runner), vec![((0, 4), (0, 4), Edges::Jump)]);
}

#[test]
fn solver_stops_at_its_budget_on_a_loop_that_grows_the_stack() {
    // 0: JUMPDEST  1: PUSH1 00  3: PUSH1 00  5: JUMP
    // The block jumps to itself and leaves one more word each time.
    let text = "5b6000600056";
    let mut runner = connected(text);
    assert_eq!(edges_of(&runner), vec![((0, 5), (0, 5), Edges::Jump)]);
    let valid = valid_jumpdests(&code(text)).unwrap();
    let outcome = symbolic_cycle(&mut runner, &valid);
    assert!(!outcome.converged);
    assert_eq!(outcome.iterations, 8);
    assert_eq!(edges_of(&runner), vec![((0, 5), (0, 5), Edges::Jump)]);
}

#[test]
fn solver_on_empty_code_is_at_rest() {
    let mut runner = runner_of("");
    let outcome = symbolic_cycle(&mut runner, &valid_jumpdests(&Vec::new()).unwrap());
    assert!(outcome.converged);
    assert_eq!(outcome.iterations, 0);
    assert!(nodes_of(&runner).is_empty());
}

#[test]
fn pruning_removes_blocks_that_nothing_leads_to() {
    // 0: PUSH1 04  2: JUMP  3: ADD  4: JUMPDEST  5: STOP
    let mut runner = connected("600456015b00");
    assert_eq!(nodes_of(&runner), vec![(0, 2), (3, 3), (4, 5)]);
    runner.remove_unreachable_instruction_blocks();
    assert_eq!(nodes_of(&runner), vec![(0, 2), (4, 5)]);
    assert_eq!(edges_of(&runner), vec![((0, 2), (4, 5), Edges::Jump)]);
    assert_eq!(runner.map_to_instructionblock.len(), 3);
}

#[test]
fn pruning_keeps_the_entry_and_every_jumpdest_block() {
    // 0: STOP  1: JUMPDEST  2: STOP
    let mut runner = connected("005b00");
    runner.remove_unreachable_instruction_blocks();
    assert_eq!(nodes_of(&runner), vec![(0, 0), (1, 2)]);
}

#[test]
fn pruning_takes_the_edges_of_a_removed_block_along() {
    // 0: STOP  1: PUSH1 06  3: JUMPI  4: ADD  5: STOP  6: JUMPDEST  7: STOP  8: STOP
    let mut runner = connected("0060065701005b0000");
    assert_eq!(
        edges_of(&runner),
        vec![
            ((1, 3), (4, 5), Edges::ConditionFalse),
            ((1, 3), (6, 7), Edges::ConditionTrue),
        ]
    );
    runner.remove_unreachable_instruction_blocks();
    assert_eq!(nodes_of(&runner), vec![(0, 0), (4, 5), (6, 7)]);
    assert!(edges_of(&runner).is_empty());
}

#[test]
fn pruning_does_not_cascade() {
    // The block at pc 4 is judged while the edge from the block at pc 1
    // is still there: one pass keeps it, a second pass would not.
    let mut runner = connected("0060065701005b0000");
    runner.remove_unreachable_instruction_blocks();
    assert!(nodes_of(&runner).contains(&(4, 5)));
    runner.remove_unreachable_instruction_blocks();
    assert_eq!(nodes_of(&runner), vec![(0, 0), (6, 7)]);
}

#[test]
fn pruning_twice_changes_nothing_where_the_first_pass_spares_all_targets() {
    for text in ["600456015b00", "005b00", "6006576001005b6002", "60086005565b5b565b00"] {
        let mut runner = solved(text);
        runner.remove_unreachable_instruction_blocks();
        let nodes = nodes_of(&runner);
        let edges = edges_of(&runner);
        runner.remove_unreachable_instruction_blocks();
        assert_eq!(nodes_of(&runner), nodes, "{text}");
        assert_eq!(edges_of(&runner), edges, "{text}");
    }
}

#[test]
fn pruning_keeps_what_the_entry_reaches() {
    let runner = analysis("60086005565b5b565b00");
    assert_eq!(nodes_of(&runner), vec![(0, 4), (5, 5), (6, 7), (8, 9)]);
    let runner = analysis("6006576001005b6002");
    assert_eq!(nodes_of(&runner), vec![(0, 2), (3, 5), (6, 8)]);
}

#[test]
fn block_other_than_the_first_is_a_jumpdest_or_is_fallen_into() {
    let text = "6006576001005b60025b00";
    let bytes = code(text);
    let valid = valid_jumpdests(&bytes).unwrap();
    let runner = connected(text);
    let blocks = &runner.map_to_instructionblock;
    for i in 1..blocks.len() {
        let key = (blocks[i].start_pc, blocks[i].end_pc);
        let before = (blocks[i - 1].start_pc, blocks[i - 1].end_pc);
        assert!(
            valid.contains(&blocks[i].start_pc) || runner.cfg_dag.contains_edge(before, key),
            "block {i}"
        );
    }
}

#[test]
fn node_lookups_find_blocks_by_their_program_counters() {
    let runner = runner_of("6006576001005b6002");
    assert_eq!(runner.get_node_from_pc(0), (0, 2));
    assert_eq!(runner.get_node_from_pc(2), (0, 2));
    assert_eq!(runner.get_node_from_pc(5), (3, 5));
    assert_eq!(runner.get_node_from_pc(7), (6, 8));
    assert_eq!(runner.find_node_from_pc(1), None);
    assert_eq!(runner.find_node_from_pc(8), None);
    assert_eq!(runner.find_node_from_pc(9), None);
    assert_eq!(runner.get_node_from_entry_pc(3), (3, 5));
    assert_eq!(runner.find_node_from_entry_pc(4), None);
    assert_eq!(runner.get_node_from_exit_pc(8), (6, 8));
    assert_eq!(runner.find_node_from_exit_pc(6), None);
}

#[test]
fn initialize_adds_the_nodes_of_the_given_blocks() {
    let mut runner = connected("600456015b00");
    runner.remove_unreachable_instruction_blocks();
    assert_eq!(nodes_of(&runner), vec![(0, 2), (4, 5)]);
    let again = blocks_of(&code("600456015b00"));
    runner.initialize_cfg_with_instruction_blocks(again);
    assert_eq!(nodes_of(&runner), vec![(0, 2), (3, 3), (4, 5)]);
    assert_eq!(edges_of(&runner), vec![((0, 2), (4, 5), Edges::Jump)]);
}

#[test]
fn executed_pcs_are_kept() {
    let mut runner = runner_of("6001600201");
    runner.set_executed_pcs([0u16, 2].into_iter().collect());
    let kept = runner.executed_pcs.as_ref().unwrap();
    assert!(kept.contains(&0) && kept.contains(&2) && !kept.contains(&4));
}

#[test]
fn analysis_refuses_code_it_cannot_scan() {
    let zero = Address::zero();
    assert_eq!(
        analyze_contract(&[], &zero, &code("ef00")).err(),
        Some(AnalysisError::BytecodeAnalysis)
    );
    assert_eq!(
        analyze_contract(&[], &zero, &vec![0u8; 0x1_0001]).err(),
        Some(AnalysisError::BytecodeAnalysis)
    );
}

#[test]
fn analysis_of_empty_code_is_an_empty_graph() {
    let zero = Address::zero();
    let cfg = analyze_contract(&[], &zero, &Vec::new()).unwrap();
    assert!(cfg.cfg_runner.map_to_instructionblock.is_empty());
    assert_eq!(cfg.cfg_runner.cfg_dag.node_count(), 0);
    assert_eq!(cfg.cfg_runner.cfg_dag.edge_count(), 0);
    assert!(cfg.executed_pcs.is_empty());
    assert!(cfg.solver_converged);
}

#[test]
fn analysis_solves_before_it_prunes() {
    // The return block at pc 8 is only reached by the solver's edge.
    let runner = analysis("60086005565b5b565b00");
    assert!(edges_of(&runner).contains(&((6, 7), (8, 9), Edges::SymbolicJump)));
    // A block that only the entry reaches by an indirect jump stays if it
    // starts with JUMPDEST, and a plain block behind STOP goes.
    let pruned = analysis("600456015b00");
    assert_eq!(nodes_of(&pruned), vec![(0, 2), (4, 5)]);
}

/// A program with `growers` loops that push a word each time round, and
/// one shared routine of `chain` blocks that returns to `returns` places,
/// each of which calls the routine again.
fn growers_and_shared_routine(growers: usize, chain: usize, returns: usize) -> Vec<u8> {
    let prelude = 5 * growers;
    let call = prelude;
    let first_grower = call + 5;
    let first = first_grower + 6 * growers;
    let last_of_chain = first + chain - 1;
    let place = |i: usize| last_of_chain + 2 + 6 * i;
    let mut bytes = Vec::new();
    for g in 0..growers {
        bytes.extend([0x60, 0x01, 0x60, (first_grower + 6 * g) as u8, 0x57]);
    }
    bytes.extend([0x60, place(0) as u8, 0x60, first as u8, 0x56]);
    for g in 0..growers {
        bytes.extend([0x5b, 0x60, 0x00, 0x60, (first_grower + 6 * g) as u8, 0x56]);
    }
    bytes.extend(std::iter::repeat(0x5b).take(chain));
    bytes.push(0x56);
    for i in 0..returns {
        if i + 1 < returns {
            bytes.extend([0x5b, 0x60, place(i + 1) as u8, 0x60, first as u8, 0x56]);
        } else {
            bytes.extend([0x5b, 0x00]);
        }
    }
    assert!(bytes.len() < 256);
    bytes
}

#[test]
fn shared_routine_with_many_callers_comes_to_rest() {
    let bytes = growers_and_shared_routine(0, 5, 8);
    let valid = valid_jumpdests(&bytes).unwrap();
    let blocks = blocks_of(&bytes);
    let count = blocks.len();
    let mut runner = CFGRunner::new(bytes, blocks);
    runner.form_basic_connections();
    let outcome = symbolic_cycle(&mut runner, &valid);
    assert!(outcome.converged);
    assert!(outcome.iterations < 8 * count);
    let symbolic = edges_of(&runner).iter().filter(|e| e.2 == Edges::SymbolicJump).count();
    assert_eq!(symbolic, 8);
    let at_rest = edges_of(&runner);
    assert!(symbolic_cycle(&mut runner, &valid).converged);
    assert_eq!(edges_of(&runner), at_rest);
}

#[test]
fn a_run_that_stops_at_its_budget_leaves_edges_for_the_next() {
    // Six loops that grow the stack use up most of the budget, so that
    // the first run finds two of the three return places only.
    let bytes = growers_and_shared_routine(6, 10, 3);
    let valid = valid_jumpdests(&bytes).unwrap();
    let blocks = blocks_of(&bytes);
    let count = blocks.len();
    let mut runner = CFGRunner::new(bytes, blocks);
    runner.form_basic_connections();
    let basic = edges_of(&runner);
    let first = symbolic_cycle(&mut runner, &valid);
    assert!(!first.converged);
    assert_eq!(first.iterations, 8 * count);
    let once = edges_of(&runner);
    assert_eq!(once.len(), basic.len() + 2);
    assert!(basic.iter().all(|e| once.contains(e)));
    let second = symbolic_cycle(&mut runner, &valid);
    assert!(!second.converged);
    let twice = edges_of(&runner);
    assert_eq!(twice.len(), once.len() + 1);
    assert!(once.iter().all(|e| twice.contains(e)));
    let symbolic: Vec<_> = twice.iter().filter(|e| e.2 == Edges::SymbolicJump).collect();
    assert_eq!(symbolic.len(), 3);
    let routine_end = symbolic[0].0;
    assert!(symbolic.iter().all(|e| e.0 == routine_end && valid.contains(&e.1 .0)));
}

/// Bytes from a fixed sequence that looks random.
fn scrambled(len: usize, mut seed: u64) -> Vec<u8> {
    (0..len)
        .map(|_| {
            seed = seed.wrapping_mul(6364136223846793005).wrapping_add(1442695040888963407);
            (seed >> 33) as u8
        })
        .collect()
}

#[test]
fn analysis_of_arbitrary_code_keeps_its_promises() {
    for seed in 1..=4u64 {
        let bytes = scrambled(24_576, seed);
        let zero = Address::zero();
        let cfg = analyze_contract(&[], &zero, &bytes).unwrap();
        let runner = &cfg.cfg_runner;
        let blocks = &runner.map_to_instructionblock;
        assert_eq!(evm_cfg::cfg_gen::dasm::assemble(blocks), bytes);
        assert_eq!(blocks[0].start_pc, 0);
        for pair in blocks.windows(2) {
            assert_eq!(pair[1].start_pc as u32, pair[0].end_pc as u32 + 1);
        }
        let valid = valid_jumpdests(&bytes).unwrap();
        for (from, to, kind) in runner.cfg_dag.all_edges() {
            assert!(runner.cfg_dag.contains_node(from) && runner.cfg_dag.contains_node(to));
            if *kind == Edges::SymbolicJump {
                assert!(valid.contains(&to.0));
            }
        }
        for node in runner.cfg_dag.nodes() {
            assert_eq!(runner.find_node_from_entry_pc(node.0), Some(node));
            assert_eq!(runner.block_starting_at(node.0).map(|i| blocks[i].end_pc), Some(node.1));
        }
        assert_eq!(runner.block_starting_at(1).is_some(), blocks.iter().any(|b| b.start_pc == 1));
    }
}

#[test]
fn analysis_of_code_of_the_largest_size_finishes() {
    // Every byte is a block of its own.
    let bytes = vec![0x5b; 0x1_0000];
    let zero = Address::zero();
    let cfg = analyze_contract(&[], &zero, &bytes).unwrap();
    assert_eq!(cfg.cfg_runner.map_to_instructionblock.len(), 0x1_0000);
    assert_eq!(cfg.cfg_runner.cfg_dag.node_count(), 0x1_0000);
    // Each block runs on into the next, but for the last: it starts at the
    // end of the code.
    assert_eq!(cfg.cfg_runner.cfg_dag.edge_count(), 0xfffe);
    assert!(cfg.solver_converged);
}
