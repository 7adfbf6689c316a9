use evm_cfg::address::Address;
use evm_cfg::analyzer::{analyze_contract, TransactionAnalyzer};
use evm_cfg::cfg_gen::cfg_dot::render_ran_dot;
use evm_cfg::cfg_gen::cfg_graph::{CFGRunner, Edges};
use evm_cfg::cfg_gen::dasm::disassemble;
use evm_cfg::cfg_gen::trace::TraceStep;
use evm_cfg::text::{push_decimal, push_escaped};

fn code(hex_text: &str) -> Vec<u8> {
    hex::decode(hex_text).unwrap()
}

fn address(fill: u8) -> Address {
    Address { bytes: [fill; 20] }
}

fn step(at: u8, pc: u16, op: &str) -> TraceStep {
    TraceStep {
        pc: Some(pc),
        op: Some(op.to_string()),
        gas: None,
        gas_cost: None,
        depth: None,
        error: None,
        stack: None,
        memory: None,
        storage: None,
        address: Some((0..20).map(|i| (i.to_string(), at)).collect()),
    }
}

const HEADER: &str = "digraph G {\n    rankdir=TB;\n    node [shape=box, style=\"filled, rounded\", color=\"#565f89\", fontcolor=\"#c0caf5\", fontname=\"Helvetica\", fillcolor=\"#24283b\"];\n    edge [color=\"#414868\", fontcolor=\"#c0caf5\", fontname=\"Helvetica\"];\n    bgcolor=\"#1a1b26\";\n";

const CFG_HEADER: &str = "digraph G {\n    node [shape=box, style=\"filled, rounded\", color=\"#565f89\", fontcolor=\"#c0caf5\", fontname=\"Helvetica\", fillcolor=\"#24283b\"];\n    edge [color=\"#414868\", fontcolor=\"#c0caf5\", fontname=\"Helvetica\"];\n    bgcolor=\"#1a1b26\";\n";

const RAN_HEADER: &str = "digraph G {\n    node [shape=box, style=\"filled, rounded\", color=\"#565f89\", fontcolor=\"#1a1b26\", fontname=\"Helvetica\"];\n    edge [color=\"#9ece6a\", fontcolor=\"#1a1b26\", fontname=\"Helvetica\", penwidth=3];\n    bgcolor=\"#1a1b26\";\n";

#[test]
fn text_helpers_append() {
    let mut out = String::from("n=");
    push_decimal(&mut out, 120);
    push_escaped(&mut out, " say \"hi\" \\ ");
    push_escaped(&mut out, "\"");
    assert_eq!(out, "n=120 say \\\"hi\\\" \\ \\\"");
}

#[test]
fn block_text_has_a_line_for_each_instruction() {
    let blocks = disassemble(&code("6006576001005b61abcd"));
    assert_eq!(blocks[0].to_string(), "0 PUSH1 0x06\\l2 JUMPI\\l");
    assert_eq!(blocks[1].to_string(), "3 PUSH1 0x01\\l5 STOP\\l");
    assert_eq!(blocks[2].to_string(), "6 JUMPDEST\\l7 PUSH2 0xabcd\\l");
    let odd = disassemble(&code("0c61ff"));
    assert_eq!(odd[0].to_string(), "0 unknown\\l");
    assert_eq!(odd[1].to_string(), "1 PUSH2 0xff\\l");
}

#[test]
fn block_color_marks_how_it_ends() {
    let color = |text: &str| disassemble(&code(text))[0].node_color();
    assert_eq!(color("fd"), Some("#f7768e"));
    assert_eq!(color("fe"), Some("#f7768e"));
    assert_eq!(color("0c"), Some("#f7768e"));
    assert_eq!(color("00"), Some("#7aa2f7"));
    assert_eq!(color("f3"), Some("#7aa2f7"));
    assert_eq!(color("ff"), Some("#7aa2f7"));
    assert_eq!(color("56"), None);
    assert_eq!(color("6001"), None);
}

#[test]
fn edge_kinds_have_their_label_names() {
    assert_eq!(Edges::Jump.label(), "");
    assert_eq!(Edges::ConditionTrue.label(), "True");
    assert_eq!(Edges::ConditionFalse.label(), "False");
    assert_eq!(Edges::SymbolicJump.label(), "Symbolic");
}

#[test]
fn default_node_is_empty() {
    let node = evm_cfg::analyzer::TransactionNode::default();
    assert_eq!(node.contract_address, Address::zero());
    assert_eq!(node.pc, 0);
    assert_eq!(node.instruction, "");
    assert!(!node.contains_sstore);
}

#[test]
fn global_graph_of_an_empty_analysis_is_header_and_footer() {
    let analyzer = TransactionAnalyzer::new(Vec::new());
    assert_eq!(analyzer.export_global_graph_dot(), format!("{HEADER}}}\n"));
}

#[test]
fn global_graph_lists_nodes_then_edges() {
    // A (0xaa..): PUSH1 3, JUMPI, JUMPDEST, PUSH1 0, PUSH1 0, SSTORE, CALL, STOP
    // B (0xbb..): STOP
    let a = "6003575b6000600055f100";
    let steps = vec![
        step(0xaa, 0, "PUSH1"),
        step(0xaa, 3, "JUMPDEST"),
        step(0xaa, 9, "CALL"),
        step(0xbb, 0, "STOP"),
    ];
    let mut analyzer = TransactionAnalyzer::new(steps);
    analyzer.bytecode_cache.insert(address(0xaa), code(a));
    analyzer.bytecode_cache.insert(address(0xbb), code("00"));
    analyzer.generate_contract_cfgs().unwrap();
    assert_eq!(analyzer.build_global_transaction_graph(), Ok(0));
    let aa = format!("0x{}", "aa".repeat(20));
    let bb = format!("0x{}", "bb".repeat(20));
    let expected = format!(
        "{HEADER}\
         \x20   0 [label=\"{aa}\\nPC: 0\\n0 PUSH1 0x03\\l2 JUMPI\\l\"];\n\
         \x20   1 [label=\"{aa}\\nPC: 3\\n3 JUMPDEST\\l4 PUSH1 0x00\\l6 PUSH1 0x00\\l8 SSTORE\\l9 CALL\\l10 STOP\\l\", fillcolor=\"#bb9af7\", fontcolor=\"#1a1b26\", penwidth=2];\n\
         \x20   2 [label=\"{bb}\\nPC: 0\\n0 STOP\\l\"];\n\
         \x20   0 -> 1 [color=\"#9ece6a\", label=\"True\"];\n\
         \x20   1 -> 2 [color=\"#7aa2f7\", style=\"bold\", penwidth=2, label=\"CALL\"];\n\
         }}\n"
    );
    assert_eq!(analyzer.export_global_graph_dot(), expected);
}

#[test]
fn global_graph_styles_each_kind_of_edge() {
    //  0: PUSH1 0c  2: PUSH1 01  4: PUSH1 09  6: JUMPI   true 9, false 7
    //  7: STOP      8: STOP
    //  9: JUMPDEST                                        falls into the next
    // 10: JUMPDEST 11: JUMP                               indirect, target 0x0c
    // 12: JUMPDEST 13: STOP
    let text = "600c60016009570000 5b5b56 5b00".replace(' ', "");
    let steps = vec![
        step(1, 0, "PUSH1"),
        step(1, 7, "STOP"),
        step(1, 9, "JUMPDEST"),
        step(1, 10, "JUMPDEST"),
        step(1, 12, "JUMPDEST"),
    ];
    let mut analyzer = TransactionAnalyzer::new(steps);
    analyzer.bytecode_cache.insert(address(1), code(&text));
    analyzer.generate_contract_cfgs().unwrap();
    analyzer.build_global_transaction_graph().unwrap();
    let dot = analyzer.export_global_graph_dot();
    let pc_of = |index: &str| analyzer.global_graph.raw_nodes()[index.parse::<usize>().unwrap()].weight.pc;
    let mut lines: Vec<(u16, u16, String)> = dot
        .lines()
        .filter(|l| l.contains(" -> "))
        .map(|l| {
            let (ends, style) = l.trim_start().split_once(" [").unwrap();
            let (from, to) = ends.split_once(" -> ").unwrap();
            (pc_of(from), pc_of(to), format!("[{style}"))
        })
        .collect();
    lines.sort();
    assert_eq!(
        lines,
        vec![
            (0, 7, "[color=\"#f7768e\", label=\"False\"];".to_string()),
            (0, 9, "[color=\"#9ece6a\", label=\"True\"];".to_string()),
            (9, 10, "[color=\"#414868\"];".to_string()),
            (10, 12, "[color=\"#e0af68\", style=\"dotted\", label=\"Symbolic\"];".to_string()),
        ]
    );
}

#[test]
fn global_graph_escapes_quotes_in_a_node() {
    let mut analyzer = TransactionAnalyzer::new(Vec::new());
    analyzer.global_graph.add_node(evm_cfg::analyzer::TransactionNode {
        contract_address: address(0),
        pc: 9,
        instruction: "say \"x\"".to_string(),
        contains_sstore: false,
    });
    let dot = analyzer.export_global_graph_dot();
    let zero = format!("0x{}", "00".repeat(20));
    assert_eq!(dot, format!("{HEADER}    0 [label=\"{zero}\\nPC: 9\\nsay \\\"x\\\"\"];\n}}\n"));
}

#[test]
fn contract_graph_lists_nodes_by_their_place_in_the_listing() {
    let bytes = code("6003575b00fe");
    let blocks = disassemble(&bytes);
    let mut runner = CFGRunner::new(bytes, blocks);
    runner.cfg_dag.add_edge((0, 2), (3, 4), Edges::ConditionTrue);
    runner.set_executed_pcs([0u16, 3].into_iter().collect());
    let text = runner.cfg_dot_str_with_blocks();
    let expected = format!(
        "{CFG_HEADER}\
         \x20   0 [ label = \"0 PUSH1 0x03\\l2 JUMPI\\l\" shape = invhouse fillcolor = \"#9ece6a\" fontcolor = \"#1a1b26\"]\n\
         \x20   1 [ label = \"3 JUMPDEST\\l4 STOP\\l\" color = \"#7aa2f7\" fillcolor = \"#9ece6a\" fontcolor = \"#1a1b26\"]\n\
         \x20   2 [ label = \"5 INVALID\\l\" color = \"#f7768e\" fillcolor = \"#703440\"]\n\
         \x20   0 -> 1 [ label = \"True\" color = \"#9ece6a\" penwidth=3]\n\
         \n}}"
    );
    assert_eq!(text, expected);
    assert_eq!(
        runner.node_attributes((5, 5)),
        "label = \"5 INVALID\\l\" color = \"#f7768e\" fillcolor = \"#703440\""
    );
    assert_eq!(runner.node_attributes((7, 9)), "");
    assert_eq!(
        runner.edge_attributes((0, 2), (3, 4), Edges::Jump),
        "label = \"\" color = \"#9ece6a\" penwidth=3"
    );
    assert_eq!(runner.edge_attributes((0, 2), (5, 5), Edges::Jump), "");
}

#[test]
fn contract_graph_without_a_trace_styles_edges_by_kind() {
    let bytes = code("6003575b00fe");
    let blocks = disassemble(&bytes);
    let mut runner = CFGRunner::new(bytes, blocks);
    runner.cfg_dag.add_edge((0, 2), (3, 4), Edges::ConditionTrue);
    runner.cfg_dag.add_edge((0, 2), (0, 2), Edges::ConditionFalse);
    runner.cfg_dag.add_edge((3, 4), (0, 2), Edges::SymbolicJump);
    runner.cfg_dag.add_edge((3, 4), (3, 4), Edges::Jump);
    let text = runner.cfg_dot_str_with_blocks();
    let lines: Vec<&str> = text.lines().filter(|l| l.contains(" -> ")).collect();
    assert_eq!(
        lines,
        vec![
            "    0 -> 1 [ label = \"True\" color = \"#9ece6a\"]",
            "    0 -> 0 [ label = \"False\" color = \"#f7768e\"]",
            "    1 -> 0 [ label = \"Symbolic\" color = \"#e0af68\", style=\"dotted, bold\"]",
            "    1 -> 1 [ ]",
        ]
    );
}

#[test]
fn contract_graph_of_an_analysis_names_every_block() {
    let cfg = analyze_contract(&[step(1, 0, "PUSH1")], &address(1), &code("6003565b00")).unwrap();
    let text = cfg.cfg_runner.cfg_dot_str_with_blocks();
    assert!(text.starts_with(CFG_HEADER));
    assert!(text.ends_with("]\n\n}"));
    assert!(text.contains("label = \"0 PUSH1 0x03\\l2 JUMP\\l\" shape = invhouse fillcolor = \"#9ece6a\" fontcolor = \"#1a1b26\"]"));
    assert!(text.contains("label = \"3 JUMPDEST\\l4 STOP\\l\" color = \"#7aa2f7\"]"));
    assert_eq!(text.lines().filter(|l| l.contains(" -> ")).count(), 1);
}

#[test]
fn graph_of_what_ran_names_blocks_by_their_range() {
    // 0: PUSH1 8, JUMPI | 3: PUSH1 1, PUSH1 2, ADD | 8: JUMPDEST, PUSH1 0, PUSH1 0, SSTORE, STOP
    let bytes = code("6008576001600201 5b600060005500".replace(' ', "").as_str());
    let blocks = disassemble(&bytes);
    let edges = vec![
        ((0u16, 2u16), (8u16, 14u16), Edges::ConditionTrue),
        ((0, 2), (3, 7), Edges::ConditionFalse),
    ];
    let all = Some([0u16, 3, 8].into_iter().collect());
    let text = render_ran_dot(&blocks, &all, &edges);
    let expected = format!(
        "{RAN_HEADER}\
         \"0_2\" [label = \"0 PUSH1 0x08\\l2 JUMPI\\l\" fillcolor = \"#9ece6a\" fontcolor = \"#1a1b26\" shape = invhouse];\n\
         \"3_7\" [label = \"3 PUSH1 0x01\\l5 PUSH1 0x02\\l7 ADD\\l\" fillcolor = \"#ff9e64\" fontcolor = \"#1a1b26\"];\n\
         \"8_14\" [label = \"8 JUMPDEST\\l9 PUSH1 0x00\\l11 PUSH1 0x00\\l13 SSTORE\\l14 STOP\\l\" fillcolor = \"#f7768e\" fontcolor = \"#1a1b26\"];\n\
         \"0_2\" -> \"8_14\";\n\
         \"0_2\" -> \"3_7\";\n\
         }}"
    );
    assert_eq!(text, expected);
    let some = Some([1u16, 9].into_iter().collect());
    let partial = render_ran_dot(&blocks, &some, &edges);
    assert_eq!(partial.lines().filter(|l| l.contains("label")).count(), 2);
    assert_eq!(partial.lines().filter(|l| l.contains(" -> ")).count(), 1);
}

#[test]
fn graph_of_what_ran_is_empty_without_a_trace() {
    let blocks = disassemble(&code("00"));
    assert_eq!(render_ran_dot(&blocks, &None, &Vec::new()), format!("{RAN_HEADER}}}"));
    let cfg = analyze_contract(&[], &address(1), &code("00")).unwrap();
    assert_eq!(cfg.cfg_runner.cfg_dot_str_highlighted_only(), format!("{RAN_HEADER}}}"));
    let empty = CFGRunner::new(Vec::new(), disassemble(&Vec::new()));
    assert_eq!(empty.cfg_dot_str_with_blocks(), format!("{CFG_HEADER}\n}}"));
}
