use evm_cfg::cfg_gen::dasm::{disassemble, Instruction};
use evm_cfg::cfg_gen::lattice::{
    atoms_list, cap_stack, duplicate_stack, fresh_constant, join_stacks, list_holds, merge,
    transfer,
};
use evm_cfg::cfg_gen::stack_info::{peek_top, symbol_of};
use evm_cfg::cfg_gen::symbolic::{apply_instruction, Symbol, SymbolicElement};
use evm_cfg::cfg_gen::word::Word;

fn word(v: u64) -> Word {
    Word { hi: 0, lo: v as u128 }
}

fn concrete(v: u64) -> SymbolicElement {
    SymbolicElement::Concrete(word(v))
}

fn op(pc: u16, opcode: u8) -> Instruction {
    Instruction { pc, opcode, immediate: None }
}

fn push1(pc: u16, value: u8) -> Instruction {
    Instruction { pc, opcode: 0x60, immediate: Some(vec![value]) }
}

fn run(stack: &mut Vec<SymbolicElement>, taken: &mut u32, ops: &[Instruction]) {
    for ins in ops {
        apply_instruction(stack, taken, ins);
    }
}

fn sorted(mut symbols: Vec<Symbol>) -> Vec<String> {
    let mut names: Vec<String> = symbols.drain(..).map(|s| format!("{s:?}")).collect();
    names.sort();
    names
}

#[test]
fn push_puts_its_constant_on_top() {
    let mut stack = Vec::new();
    let mut taken = 0;
    run(&mut stack, &mut taken, &[push1(0, 7), op(2, 0x5f)]);
    assert_eq!(stack, vec![concrete(7), concrete(0)]);
    assert_eq!(taken, 0);
}

#[test]
fn pop_below_the_stack_reaches_into_the_entry() {
    let mut stack = vec![concrete(1)];
    let mut taken = 0;
    run(&mut stack, &mut taken, &[op(0, 0x50), op(1, 0x50), op(2, 0x50)]);
    assert!(stack.is_empty());
    assert_eq!(taken, 2);
}

#[test]
fn dup_copies_the_slot_it_counts_from_the_top() {
    let mut stack = vec![concrete(1), concrete(2), concrete(3)];
    let mut taken = 0;
    apply_instruction(&mut stack, &mut taken, &op(0, 0x81));
    assert_eq!(stack, vec![concrete(1), concrete(2), concrete(3), concrete(2)]);
    apply_instruction(&mut stack, &mut taken, &op(1, 0x80));
    assert_eq!(stack.last(), Some(&concrete(2)));
    assert_eq!(taken, 0);
}

#[test]
fn dup_below_the_stack_names_entry_slots_from_the_top() {
    let mut stack = vec![concrete(9)];
    let mut taken = 0;
    // DUP3 needs three slots: two entry slots come to lie below.
    apply_instruction(&mut stack, &mut taken, &op(0, 0x82));
    assert_eq!(
        stack,
        vec![
            SymbolicElement::Opaque(1),
            SymbolicElement::Opaque(0),
            concrete(9),
            SymbolicElement::Opaque(1),
        ]
    );
    assert_eq!(taken, 2);
    // A further reach goes on counting.
    run(&mut stack, &mut taken, &[op(1, 0x50), op(2, 0x50), op(3, 0x50), op(4, 0x50), op(5, 0x50)]);
    assert!(stack.is_empty());
    assert_eq!(taken, 3);
}

#[test]
fn swap_exchanges_the_top_with_the_slot_it_counts() {
    let mut stack = vec![concrete(1), concrete(2), concrete(3)];
    let mut taken = 0;
    apply_instruction(&mut stack, &mut taken, &op(0, 0x91));
    assert_eq!(stack, vec![concrete(3), concrete(2), concrete(1)]);
    apply_instruction(&mut stack, &mut taken, &op(1, 0x90));
    assert_eq!(stack, vec![concrete(3), concrete(1), concrete(2)]);
}

#[test]
fn other_instructions_replace_their_inputs_by_an_unknown() {
    let mut stack = vec![concrete(1), concrete(2), concrete(3)];
    let mut taken = 0;
    apply_instruction(&mut stack, &mut taken, &op(0x10, 0x01));
    assert_eq!(stack, vec![concrete(1), SymbolicElement::Opaque(0x0100_0010)]);
    apply_instruction(&mut stack, &mut taken, &op(0x11, 0x35));
    assert_eq!(stack, vec![concrete(1), SymbolicElement::CalldataWord]);
    apply_instruction(&mut stack, &mut taken, &op(0x12, 0x54));
    assert_eq!(stack, vec![concrete(1), SymbolicElement::StorageWord]);
    apply_instruction(&mut stack, &mut taken, &op(0x13, 0x55));
    assert!(stack.is_empty());
    apply_instruction(&mut stack, &mut taken, &op(0x14, 0x5b));
    assert!(stack.is_empty());
    assert_eq!(taken, 0);
}

#[test]
fn top_of_an_empty_stack_is_the_next_entry_slot() {
    assert_eq!(peek_top(&Vec::new(), 4), SymbolicElement::Opaque(4));
    assert_eq!(peek_top(&vec![concrete(1), concrete(2)], 4), concrete(2));
    assert_eq!(symbol_of(&concrete(5)), Symbol::Concrete(word(5)));
    assert_eq!(symbol_of(&SymbolicElement::StorageWord), Symbol::StorageWord);
    assert_eq!(SymbolicElement::of_symbol(Symbol::Opaque(3)), SymbolicElement::Opaque(3));
    let phi = SymbolicElement::Phi(vec![Symbol::CalldataWord, Symbol::Opaque(1)]);
    assert_eq!(phi.duplicate(), phi);
}

#[test]
fn slots_list_their_symbols() {
    assert_eq!(atoms_list(&concrete(3)), vec![Symbol::Concrete(word(3))]);
    assert_eq!(atoms_list(&SymbolicElement::CalldataWord), vec![Symbol::CalldataWord]);
    let phi = SymbolicElement::Phi(vec![Symbol::Opaque(1), Symbol::Concrete(word(2))]);
    assert_eq!(atoms_list(&phi), vec![Symbol::Opaque(1), Symbol::Concrete(word(2))]);
    assert!(list_holds(&atoms_list(&phi), Symbol::Opaque(1)));
    assert!(!list_holds(&atoms_list(&phi), Symbol::Opaque(2)));
}

#[test]
fn merging_slots_unites_their_symbols() {
    let (same, grew) = merge(&concrete(1), &concrete(1));
    assert_eq!(same, concrete(1));
    assert!(!grew);
    let (both, grew) = merge(&concrete(1), &concrete(2));
    assert!(grew);
    assert_eq!(
        sorted(atoms_list(&both)),
        sorted(vec![Symbol::Concrete(word(1)), Symbol::Concrete(word(2))])
    );
    let (kept, grew) = merge(&both, &concrete(2));
    assert!(!grew);
    assert_eq!(sorted(atoms_list(&kept)), sorted(atoms_list(&both)));
    let (three, grew) = merge(&both, &SymbolicElement::Phi(vec![Symbol::StorageWord, Symbol::Concrete(word(1))]));
    assert!(grew);
    assert_eq!(atoms_list(&three).len(), 3);
}

#[test]
fn joining_stacks_aligns_them_at_the_top() {
    let old = vec![concrete(1), concrete(2)];
    let new = vec![concrete(7), concrete(8), concrete(2)];
    let (joined, changed) = join_stacks(&old, &new);
    assert!(changed);
    assert_eq!(joined.len(), 3);
    assert_eq!(joined[0], concrete(7));
    assert_eq!(
        sorted(atoms_list(&joined[1])),
        sorted(vec![Symbol::Concrete(word(1)), Symbol::Concrete(word(8))])
    );
    assert_eq!(joined[2], concrete(2));
}

#[test]
fn joining_a_stack_that_brings_nothing_changes_nothing() {
    let old = vec![concrete(1), SymbolicElement::Phi(vec![Symbol::Concrete(word(2)), Symbol::Concrete(word(3))])];
    let (joined, changed) = join_stacks(&old, &vec![concrete(3)]);
    assert!(!changed);
    assert_eq!(joined, old);
    let (joined, changed) = join_stacks(&old, &Vec::new());
    assert!(!changed);
    assert_eq!(joined, old);
    let (joined, changed) = join_stacks(&Vec::new(), &old);
    assert!(changed);
    assert_eq!(joined, old);
}

#[test]
fn joining_reports_a_change_only_for_a_new_constant() {
    let old = vec![concrete(1)];
    let unknown = vec![SymbolicElement::Opaque(4), SymbolicElement::StorageWord];
    let (joined, changed) = join_stacks(&old, &unknown);
    assert!(!changed);
    assert_eq!(joined.len(), 2);
    assert_eq!(joined[0], SymbolicElement::Opaque(4));
    assert_eq!(
        sorted(atoms_list(&joined[1])),
        sorted(vec![Symbol::Concrete(word(1)), Symbol::StorageWord])
    );
    let (_, changed) = join_stacks(&old, &vec![concrete(5), SymbolicElement::CalldataWord]);
    assert!(changed);
    assert_eq!(fresh_constant(&concrete(1), &concrete(1)), None);
    assert_eq!(fresh_constant(&concrete(1), &SymbolicElement::StorageWord), None);
    assert_eq!(fresh_constant(&SymbolicElement::StorageWord, &concrete(9)), Some(word(9)));
    assert_eq!(
        fresh_constant(
            &concrete(2),
            &SymbolicElement::Phi(vec![Symbol::Concrete(word(2)), Symbol::Concrete(word(3))])
        ),
        Some(word(3))
    );
}

#[test]
fn stacks_are_cut_to_their_top_slots() {
    let small = vec![concrete(1), concrete(2)];
    assert_eq!(cap_stack(duplicate_stack(&small)), small);
    let tall: Vec<SymbolicElement> = (0..1030u64).map(concrete).collect();
    let cut = cap_stack(tall);
    assert_eq!(cut.len(), 1024);
    assert_eq!(cut[0], concrete(6));
    assert_eq!(cut[1023], concrete(1029));
    let exact: Vec<SymbolicElement> = (0..1024u64).map(concrete).collect();
    assert_eq!(cap_stack(duplicate_stack(&exact)), exact);
}

#[test]
fn transfer_runs_a_block_on_its_entry_stack() {
    // JUMPDEST, PUSH1 5, SWAP1, JUMP: jumps to what the caller left on top.
    let blocks = disassemble(&hex::decode("5b60059056").unwrap());
    let (operand, exit) = transfer(&blocks[0], &vec![concrete(9)]);
    assert_eq!(operand, Some(concrete(9)));
    assert_eq!(exit, vec![concrete(5)]);
    let (operand, exit) = transfer(&blocks[0], &Vec::new());
    assert_eq!(operand, Some(SymbolicElement::Opaque(0)));
    assert_eq!(exit, vec![concrete(5)]);
    // A block without a jump has no operand.
    let plain = disassemble(&hex::decode("6001").unwrap());
    let (operand, exit) = transfer(&plain[0], &vec![concrete(1)]);
    assert_eq!(operand, None);
    assert_eq!(exit, vec![concrete(1), concrete(1)]);
}
