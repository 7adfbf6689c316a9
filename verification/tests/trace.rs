use evm_cfg::address::Address;
use evm_cfg::blockchain::{merge_trace, BytecodeCache, StructLog};
use evm_cfg::cfg_gen::trace::{
    attribute_addresses, extract_call_edges, extract_contract_addresses, filter_steps_by_address, get_executed_pcs,
    TraceStep, TraceTransaction,
};
use evm_cfg::config::Config;
use evm_cfg::error::{AnalysisError, ConfigError};
use evm_cfg::text::to_decimal;

fn address(fill: u8) -> Address {
    Address { bytes: [fill; 20] }
}

fn entries(bytes: &[u8]) -> Vec<(String, u8)> {
    // The order of the entries does not matter: they go by their keys.
    bytes.iter().enumerate().rev().map(|(i, b)| (i.to_string(), *b)).collect()
}

fn step(at: Option<u8>, pc: u16, op: &str) -> TraceStep {
    TraceStep {
        pc: Some(pc),
        op: Some(op.to_string()),
        gas: Some(100),
        gas_cost: Some(3),
        depth: Some(1),
        error: None,
        stack: Some(Vec::new()),
        memory: None,
        storage: None,
        address: at.map(|fill| entries(&[fill; 20])),
    }
}

#[test]
fn decimal_text_of_numbers() {
    assert_eq!(to_decimal(0), "0");
    assert_eq!(to_decimal(7), "7");
    assert_eq!(to_decimal(10), "10");
    assert_eq!(to_decimal(65535), "65535");
    assert_eq!(to_decimal(u64::MAX), "18446744073709551615");
}

#[test]
fn address_in_text_is_lower_case_hex() {
    let mut bytes = [0u8; 20];
    bytes[0] = 0xde;
    bytes[1] = 0xad;
    bytes[19] = 0x0f;
    let a = Address { bytes };
    assert_eq!(a.to_hex(), "0xdead00000000000000000000000000000000000f");
    assert_eq!(a.to_bytes(), bytes.to_vec());
    assert_eq!(Address::zero().to_hex(), format!("0x{}", "00".repeat(20)));
}

#[test]
fn address_is_read_from_forty_digits() {
    let text = "0xDEad00000000000000000000000000000000000f";
    let parsed = Address::parse(text).unwrap();
    assert_eq!(parsed.bytes[0], 0xde);
    assert_eq!(parsed.bytes[1], 0xad);
    assert_eq!(parsed.bytes[19], 0x0f);
    assert_eq!(Address::parse(&text[2..]), Some(parsed));
    assert_eq!(Address::parse(&parsed.to_hex()), Some(parsed));
}

#[test]
fn address_is_not_read_from_other_text() {
    assert_eq!(Address::parse(""), None);
    assert_eq!(Address::parse("0x"), None);
    assert_eq!(Address::parse("0x1234"), None);
    assert_eq!(Address::parse(&format!("0x{}", "0".repeat(39))), None);
    assert_eq!(Address::parse(&format!("0x{}", "0".repeat(41))), None);
    assert_eq!(Address::parse(&format!("0x{}", "0".repeat(64))), None);
    assert_eq!(Address::parse(&format!("0x{}g", "0".repeat(39))), None);
    assert_eq!(Address::parse(&format!("0X{}", "0".repeat(40))), None);
}

#[test]
fn address_text_may_hold_blanks() {
    let spaced = format!("0x{} {}\n", "11".repeat(10), "22".repeat(10));
    let parsed = Address::parse(&spaced).unwrap();
    assert_eq!(parsed.bytes[9], 0x11);
    assert_eq!(parsed.bytes[10], 0x22);
}

#[test]
fn addresses_compare_by_their_bytes() {
    assert!(address(1).same(&address(1)));
    assert!(!address(1).same(&address(2)));
    let mut last = [1u8; 20];
    last[19] = 2;
    assert!(!address(1).same(&Address { bytes: last }));
}

#[test]
fn reported_address_is_put_together_by_index() {
    let s = step(Some(0xab), 0, "STOP");
    assert_eq!(s.address_bytes(), Some(vec![0xab; 20]));
    assert_eq!(s.address_hex(), Some(format!("0x{}", "ab".repeat(20))));
    assert_eq!(s.get_h160_address(), Some(address(0xab)));
}

#[test]
fn reported_address_of_another_length_is_no_address() {
    let mut short = step(None, 0, "STOP");
    short.address = Some(entries(&[1, 2, 3]));
    assert_eq!(short.address_bytes(), Some(vec![1, 2, 3]));
    assert_eq!(short.address_hex(), Some("0x010203".to_string()));
    assert_eq!(short.get_h160_address(), None);
    let mut long = step(None, 0, "STOP");
    long.address = Some(entries(&[9; 21]));
    assert_eq!(long.get_h160_address(), None);
    let none = step(None, 0, "STOP");
    assert_eq!(none.address_bytes(), None);
    assert_eq!(none.address_hex(), None);
    assert_eq!(none.get_h160_address(), None);
}

#[test]
fn reported_address_skips_indices_without_an_entry() {
    let mut s = step(None, 0, "STOP");
    s.address = Some(vec![
        ("0".to_string(), 0xaa),
        ("2".to_string(), 0xcc),
        ("x".to_string(), 0xdd),
    ]);
    assert_eq!(s.address_bytes(), Some(vec![0xaa, 0xcc]));
}

#[test]
fn contract_calls_are_the_four_calling_instructions() {
    for op in ["CALL", "DELEGATECALL", "STATICCALL", "CALLCODE"] {
        assert!(step(Some(1), 0, op).is_contract_call(), "{op}");
    }
    for op in ["call", "CREATE", "CALLDATALOAD", "", "CALL "] {
        assert!(!step(Some(1), 0, op).is_contract_call(), "{op}");
    }
    let mut none = step(Some(1), 0, "CALL");
    none.op = None;
    assert!(!none.is_contract_call());
}

#[test]
fn call_type_is_the_instruction_name() {
    assert_eq!(step(Some(1), 0, "STATICCALL").get_call_type(), Some("STATICCALL".to_string()));
    assert_eq!(step(Some(1), 0, "ADD").get_call_type(), Some("ADD".to_string()));
    let mut none = step(Some(1), 0, "CALL");
    none.op = None;
    assert_eq!(none.get_call_type(), None);
}

#[test]
fn call_target_is_the_second_word_from_the_top() {
    let target = format!("0x{}", "cd".repeat(20));
    let mut s = step(Some(1), 0, "CALL");
    s.stack = Some(vec!["0x0".to_string(), target.clone(), "0xffff".to_string()]);
    assert_eq!(s.get_call_target(), Some(address(0xcd)));
    s.stack = Some(vec!["cd".repeat(20), "0x1".to_string()]);
    assert_eq!(s.get_call_target(), Some(address(0xcd)));
}

#[test]
fn call_target_needs_a_call_and_an_address_word() {
    let target = format!("0x{}", "cd".repeat(20));
    let mut s = step(Some(1), 0, "ADD");
    s.stack = Some(vec![target.clone(), "0x1".to_string()]);
    assert_eq!(s.get_call_target(), None);
    s.op = Some("CALL".to_string());
    s.stack = Some(vec![target.clone()]);
    assert_eq!(s.get_call_target(), None);
    s.stack = None;
    assert_eq!(s.get_call_target(), None);
    // A full 32-byte word spells no address.
    s.stack = Some(vec![format!("0x{}{}", "00".repeat(12), "cd".repeat(20)), "0x1".to_string()]);
    assert_eq!(s.get_call_target(), None);
}

#[test]
fn executed_pcs_are_the_pcs_of_the_steps() {
    let mut blind = step(Some(1), 9, "ADD");
    blind.pc = None;
    let steps = vec![step(Some(1), 3, "ADD"), blind, step(Some(2), 5, "ADD"), step(None, 3, "ADD")];
    let pcs = get_executed_pcs(&steps);
    assert_eq!(pcs.len(), 2);
    assert!(pcs.contains(&3) && pcs.contains(&5));
    assert!(get_executed_pcs(&[]).is_empty());
}

#[test]
fn steps_are_filtered_by_the_executing_contract() {
    let steps = vec![
        step(Some(1), 0, "ADD"),
        step(Some(2), 1, "ADD"),
        step(None, 2, "ADD"),
        step(Some(1), 3, "ADD"),
    ];
    let own = filter_steps_by_address(&steps, &address(1));
    let pcs: Vec<_> = own.iter().map(|s| s.pc).collect();
    assert_eq!(pcs, vec![Some(0), Some(3)]);
    assert_eq!(own[1].op, Some("ADD".to_string()));
    assert_eq!(own[1].gas, Some(100));
    assert_eq!(own[1].address, steps[3].address);
    assert!(filter_steps_by_address(&steps, &address(3)).is_empty());
}

#[test]
fn a_copy_of_a_step_holds_the_same_values() {
    let mut s = step(Some(4), 7, "SSTORE");
    s.error = Some("out of gas".to_string());
    s.stack = Some(vec!["0x1".to_string(), "0x2".to_string()]);
    s.memory = Some(vec!["00".to_string()]);
    s.storage = Some(vec![("0x0".to_string(), "0x1".to_string())]);
    let copy = s.duplicate();
    assert_eq!(copy.pc, s.pc);
    assert_eq!(copy.op, s.op);
    assert_eq!(copy.gas, s.gas);
    assert_eq!(copy.gas_cost, s.gas_cost);
    assert_eq!(copy.depth, s.depth);
    assert_eq!(copy.error, s.error);
    assert_eq!(copy.stack, s.stack);
    assert_eq!(copy.memory, s.memory);
    assert_eq!(copy.storage, s.storage);
    assert_eq!(copy.address, s.address);
}

#[test]
fn contract_addresses_come_once_in_order_of_appearance() {
    let steps = vec![
        step(Some(2), 0, "ADD"),
        step(Some(1), 1, "ADD"),
        step(None, 2, "ADD"),
        step(Some(2), 3, "ADD"),
        step(Some(3), 4, "ADD"),
    ];
    assert_eq!(extract_contract_addresses(&steps), vec![address(2), address(1), address(3)]);
    assert!(extract_contract_addresses(&[]).is_empty());
}

#[test]
fn call_edges_join_a_call_to_the_next_contract() {
    let steps = vec![
        step(Some(0xa), 10, "PUSH1"),
        step(Some(0xa), 12, "CALL"),
        step(Some(0xb), 0, "PUSH1"),
        step(Some(0xb), 2, "STOP"),
        step(Some(0xa), 14, "STOP"),
    ];
    let edges = extract_call_edges(&steps);
    assert_eq!(edges.len(), 1);
    assert_eq!(edges[0].from_addr, address(0xa));
    assert_eq!(edges[0].from_pc, 12);
    assert_eq!(edges[0].to_addr, address(0xb));
    assert_eq!(edges[0].call_type, "CALL");
}

#[test]
fn call_edges_need_two_different_contracts() {
    // A call that stays in the same contract, a call without a next
    // step, a call into a step without address, a call without pc.
    let same = vec![step(Some(1), 0, "CALL"), step(Some(1), 1, "ADD")];
    assert!(extract_call_edges(&same).is_empty());
    let last = vec![step(Some(1), 0, "ADD"), step(Some(1), 1, "CALL")];
    assert!(extract_call_edges(&last).is_empty());
    let blind = vec![step(Some(1), 0, "DELEGATECALL"), step(None, 0, "ADD")];
    assert!(extract_call_edges(&blind).is_empty());
    let mut lost = step(Some(1), 0, "CALL");
    lost.pc = None;
    assert!(extract_call_edges(&[lost, step(Some(2), 0, "ADD")]).is_empty());
    let other = vec![step(Some(1), 0, "ADD"), step(Some(2), 0, "ADD")];
    assert!(extract_call_edges(&other).is_empty());
    assert!(extract_call_edges(&[]).is_empty());
    assert!(extract_call_edges(&[step(Some(1), 0, "CALL")]).is_empty());
}

#[test]
fn call_edges_come_in_the_order_of_the_trace() {
    let steps = vec![
        step(Some(1), 5, "STATICCALL"),
        step(Some(2), 0, "CALLCODE"),
        step(Some(3), 0, "STOP"),
        step(Some(2), 1, "STOP"),
    ];
    let edges = extract_call_edges(&steps);
    let kinds: Vec<_> = edges.iter().map(|e| (e.from_pc, e.call_type.as_str())).collect();
    assert_eq!(kinds, vec![(5, "STATICCALL"), (0, "CALLCODE")]);
    assert_eq!(edges[1].to_addr, address(3));
}

#[test]
fn trace_transaction_holds_the_struct_logs() {
    let t = TraceTransaction {
        gas: 21000,
        failed: false,
        return_value: String::new(),
        struct_logs: vec![step(Some(1), 0, "STOP")],
    };
    assert_eq!(t.struct_logs.len(), 1);
    assert_eq!(t.gas, 21000);
    assert!(!t.failed);
}

#[test]
fn merged_steps_fill_in_what_a_log_leaves_out() {
    let logs = vec![
        StructLog {
            pc: Some(7),
            op: Some("ADD".to_string()),
            stack: Some(vec!["0x1".to_string()]),
            depth: Some(2),
            gas: Some(9),
            gas_cost: None,
        },
        StructLog { pc: None, op: None, stack: None, depth: None, gas: None, gas_cost: Some(1) },
        StructLog { pc: Some(1), op: None, stack: None, depth: None, gas: None, gas_cost: None },
    ];
    let merged = merge_trace(logs, vec![Some("a"), None]);
    assert_eq!(merged.len(), 3);
    assert_eq!((merged[0].pc, merged[0].op.as_str(), merged[0].depth), (7, "ADD", 2));
    assert_eq!(merged[0].stack, vec!["0x1".to_string()]);
    assert_eq!((merged[0].gas, merged[0].gas_cost, merged[0].address), (Some(9), None, Some("a")));
    assert_eq!((merged[1].pc, merged[1].op.as_str(), merged[1].depth), (0, "", 0));
    assert!(merged[1].stack.is_empty());
    assert_eq!((merged[1].gas_cost, merged[1].address), (Some(1), None));
    assert_eq!((merged[2].pc, merged[2].address), (1, None));
}

#[test]
fn merged_steps_ignore_addresses_beyond_the_log() {
    let logs = vec![StructLog { pc: Some(1), op: None, stack: None, depth: None, gas: None, gas_cost: None }];
    let merged = merge_trace(logs, vec![Some(1u8), Some(2), Some(3)]);
    assert_eq!(merged.len(), 1);
    assert_eq!(merged[0].address, Some(1));
    assert!(merge_trace::<u8>(Vec::new(), vec![Some(1)]).is_empty());
}

#[test]
fn bytecode_cache_keeps_one_code_for_each_address() {
    let mut cache = BytecodeCache::new();
    assert_eq!(cache.get(&address(1)), None);
    cache.insert(address(1), vec![0x00]);
    cache.insert(address(2), vec![0x01, 0x02]);
    assert_eq!(cache.get(&address(1)), Some(&vec![0x00]));
    assert_eq!(cache.get(&address(2)), Some(&vec![0x01, 0x02]));
    cache.insert(address(1), vec![0xff]);
    assert_eq!(cache.get(&address(1)), Some(&vec![0xff]));
    assert_eq!(cache.get(&address(2)), Some(&vec![0x01, 0x02]));
    assert_eq!(cache.cache.len(), 2);
}

#[test]
fn bytecode_cache_does_not_keep_empty_code() {
    let mut cache = BytecodeCache::new();
    cache.store_fetched(address(1), Vec::new());
    assert!(cache.cache.is_empty());
    cache.store_fetched(address(1), vec![0x5b]);
    assert_eq!(cache.get(&address(1)), Some(&vec![0x5b]));
    cache.store_fetched(address(1), Vec::new());
    assert_eq!(cache.get(&address(1)), Some(&vec![0x5b]));
}

#[test]
fn config_needs_the_endpoint() {
    let config = Config::from_value(Some("http://localhost:8545".to_string())).unwrap();
    assert_eq!(config.rpc_url, "http://localhost:8545");
    let missing = Config::from_value(None).err().unwrap();
    assert_eq!(missing, ConfigError::MissingRpcUrl);
    assert!(missing.message().starts_with("GETH_API environment variable not found"));
}

#[test]
fn analysis_errors_have_their_words() {
    assert_eq!(AnalysisError::BytecodeAnalysis.message(), "bytecode analysis failed");
    assert!(AnalysisError::GraphCapacity.message().contains("cannot hold"));
}

#[test]
fn steps_without_address_get_the_contract_of_their_depth() {
    let at = |depth: u64, op: &str, stack: Vec<String>| {
        let mut s = step(None, 0, op);
        s.depth = Some(depth);
        s.stack = Some(stack);
        s
    };
    let callee = format!("0x{}", "bb".repeat(20));
    let inner = format!("0x{}", "cc".repeat(20));
    let steps = vec![
        at(1, "PUSH1", vec![]),
        at(1, "CALL", vec![callee.clone(), "0x1".to_string()]),
        at(2, "PUSH1", vec![]),
        at(2, "STATICCALL", vec![inner.clone(), "0x1".to_string()]),
        at(3, "STOP", vec![]),
        at(2, "STOP", vec![]),
        at(1, "STOP", vec![]),
    ];
    let filled = attribute_addresses(&steps, &address(0xaa));
    let owners: Vec<_> = filled.iter().map(|s| s.get_h160_address().map(|a| a.bytes[0])).collect();
    assert_eq!(
        owners,
        vec![Some(0xaa), Some(0xaa), Some(0xbb), Some(0xbb), Some(0xcc), Some(0xbb), Some(0xaa)]
    );
    let edges = extract_call_edges(&filled);
    let ends: Vec<_> = edges.iter().map(|e| (e.from_addr.bytes[0], e.to_addr.bytes[0])).collect();
    assert_eq!(ends, vec![(0xaa, 0xbb), (0xbb, 0xcc)]);
    assert_eq!(filled[1].op, steps[1].op);
    assert_eq!(filled[1].stack, steps[1].stack);
}

#[test]
fn steps_with_an_address_keep_it() {
    let mut observed = step(Some(0x11), 0, "ADD");
    observed.depth = Some(1);
    let mut deep = step(None, 0, "ADD");
    deep.depth = Some(5);
    let mut blind = step(None, 0, "ADD");
    blind.depth = None;
    let mut unnamed = step(None, 0, "CALL");
    unnamed.depth = Some(1);
    unnamed.stack = Some(vec!["0x1234".to_string(), "0x1".to_string()]);
    let mut after = step(None, 0, "ADD");
    after.depth = Some(2);
    let filled = attribute_addresses(&[observed, deep, blind, unnamed, after], &address(0xaa));
    let owners: Vec<_> = filled.iter().map(|s| s.get_h160_address().map(|a| a.bytes[0])).collect();
    assert_eq!(owners, vec![Some(0x11), None, None, Some(0xaa), None]);
    assert!(attribute_addresses(&[], &address(1)).is_empty());
}
