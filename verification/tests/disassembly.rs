use evm_cfg::cfg_gen::dasm::{assemble, disassemble, Instruction, InstructionBlock};
use evm_cfg::cfg_gen::jump_table::valid_jumpdests;
use evm_cfg::cfg_gen::opcode::{
    opcode_immediate_size, opcode_is_block_ender, opcode_is_known, opcode_name, opcode_stack_in,
    opcode_stack_out,
};
use evm_cfg::cfg_gen::symbolic::Symbol;
use evm_cfg::cfg_gen::word::Word;
use evm_cfg::cfg_gen::{opcode, OpcodeInfo};
use evm_cfg::error::AnalysisError;

fn code(hex_text: &str) -> Vec<u8> {
    hex::decode(hex_text).unwrap()
}

fn analysed(hex_text: &str) -> Vec<InstructionBlock> {
    let mut blocks = disassemble(&code(hex_text));
    for block in blocks.iter_mut() {
        block.analyze_stack_info();
    }
    blocks
}

fn ranges(blocks: &[InstructionBlock]) -> Vec<(u16, u16)> {
    blocks.iter().map(|b| (b.start_pc, b.end_pc)).collect()
}

#[test]
fn opcode_table_knows_the_arithmetic_instructions() {
    let add: OpcodeInfo = opcode(0x01);
    assert_eq!(add.byte, 0x01);
    assert_eq!(add.name, "ADD");
    assert_eq!(add.stack_in, 2);
    assert_eq!(add.stack_out, 1);
    assert_eq!(add.immediate_size, 0);
    assert!(!add.is_block_ender);
    assert_eq!(opcode(0x08).stack_in, 3);
    assert_eq!(opcode(0x08).name, "ADDMOD");
}

#[test]
fn opcode_table_gives_pushes_their_immediate_size() {
    assert_eq!(opcode(0x60).name, "PUSH1");
    assert_eq!(opcode(0x60).immediate_size, 1);
    assert_eq!(opcode(0x7f).name, "PUSH32");
    assert_eq!(opcode(0x7f).immediate_size, 32);
    assert_eq!(opcode(0x5f).name, "PUSH0");
    assert_eq!(opcode(0x5f).immediate_size, 0);
    assert_eq!(opcode_immediate_size(0x6f), 16);
    assert_eq!(opcode(0x60).stack_out, 1);
}

#[test]
fn opcode_table_counts_dup_swap_and_log_operands() {
    assert_eq!(opcode_name(0x80), "DUP1");
    assert_eq!((opcode_stack_in(0x80), opcode_stack_out(0x80)), (1, 2));
    assert_eq!(opcode_name(0x8f), "DUP16");
    assert_eq!((opcode_stack_in(0x8f), opcode_stack_out(0x8f)), (16, 17));
    assert_eq!(opcode_name(0x90), "SWAP1");
    assert_eq!((opcode_stack_in(0x90), opcode_stack_out(0x90)), (2, 2));
    assert_eq!(opcode_name(0x9f), "SWAP16");
    assert_eq!((opcode_stack_in(0x9f), opcode_stack_out(0x9f)), (17, 17));
    assert_eq!(opcode_name(0xa4), "LOG4");
    assert_eq!((opcode_stack_in(0xa4), opcode_stack_out(0xa4)), (6, 0));
    assert_eq!((opcode_stack_in(0xf1), opcode_stack_out(0xf1)), (7, 1));
}

#[test]
fn opcode_table_names_the_block_enders() {
    for byte in [0x00u8, 0x56, 0x57, 0xf3, 0xfd, 0xfe, 0xff] {
        assert!(opcode_is_block_ender(byte), "{byte:#x}");
        assert!(opcode_is_known(byte), "{byte:#x}");
    }
    for byte in [0x01u8, 0x5b, 0x60, 0x55, 0xf1, 0xf4, 0xfa] {
        assert!(!opcode_is_block_ender(byte), "{byte:#x}");
    }
}

#[test]
fn opcode_table_treats_unassigned_bytes_as_unknown_block_enders() {
    for byte in [0x0cu8, 0x1e, 0x21, 0x4b, 0xa5, 0xef, 0xf6, 0xfc] {
        let info = opcode(byte);
        assert_eq!(info.name, "unknown");
        assert!(info.is_block_ender);
        assert!(!opcode_is_known(byte));
        assert_eq!((info.stack_in, info.stack_out, info.immediate_size), (0, 0, 0));
    }
}

#[test]
fn word_of_a_short_immediate_is_right_aligned() {
    assert_eq!(Word::from_immediate(&vec![0x03], 1), Word { hi: 0, lo: 3 });
    assert_eq!(Word::from_immediate(&vec![0x01, 0x02], 2), Word { hi: 0, lo: 0x0102 });
    assert_eq!(Word::from_u64(7), Word { hi: 0, lo: 7 });
    assert_eq!(Word::zero(), Word { hi: 0, lo: 0 });
}

#[test]
fn word_of_a_truncated_immediate_reads_the_missing_tail_as_zero() {
    assert_eq!(Word::from_immediate(&vec![0x01], 2), Word { hi: 0, lo: 0x0100 });
    assert_eq!(Word::from_immediate(&vec![], 1), Word { hi: 0, lo: 0 });
}

#[test]
fn word_of_a_full_immediate_fills_both_halves() {
    let mut imm = vec![0u8; 32];
    imm[0] = 0x80;
    imm[15] = 0x01;
    imm[16] = 0x02;
    imm[31] = 0xff;
    let word = Word::from_immediate(&imm, 32);
    assert_eq!(word.hi, (0x80u128 << 120) | 1);
    assert_eq!(word.lo, (0x02u128 << 120) | 0xff);
    let seventeen = Word::from_immediate(&vec![0x01; 17], 17);
    assert_eq!(seventeen.hi, 0x01);
    assert_eq!(seventeen.lo, 0x0101_0101_0101_0101_0101_0101_0101_0101);
}

#[test]
fn word_names_a_program_counter_only_up_to_sixteen_bits() {
    assert_eq!(Word { hi: 0, lo: 0 }.as_pc(), Some(0));
    assert_eq!(Word { hi: 0, lo: 0xffff }.as_pc(), Some(0xffff));
    assert_eq!(Word { hi: 0, lo: 0x1_0000 }.as_pc(), None);
    assert_eq!(Word { hi: 1, lo: 3 }.as_pc(), None);
}

#[test]
fn value_of_a_push_is_its_immediate_as_a_number() {
    let blocks = disassemble(&code("61012c5b7f"));
    assert_eq!(blocks[0].ops[0].value(), Some(Word { hi: 0, lo: 300 }));
    assert_eq!(blocks[1].ops[0].value(), None);
    assert_eq!(blocks[1].ops[1].value(), Some(Word { hi: 0, lo: 0 }));
    let odd = Instruction { pc: 0, opcode: 0x60, immediate: Some(vec![1, 2]) };
    assert_eq!(odd.value(), None);
}

#[test]
fn straight_line_code_is_one_block() {
    let blocks = analysed("6001600201");
    assert_eq!(ranges(&blocks), vec![(0, 4)]);
    let pcs: Vec<u16> = blocks[0].ops.iter().map(|op| op.pc).collect();
    assert_eq!(pcs, vec![0, 2, 4]);
    assert_eq!(blocks[0].ops[0].immediate, Some(vec![0x01]));
    assert_eq!(blocks[0].ops[1].immediate, Some(vec![0x02]));
    assert_eq!(blocks[0].ops[2].immediate, None);
    assert_eq!(blocks[0].stack_info.net_stack_delta, 1);
    assert_eq!(blocks[0].stack_info.min_stack_depth, 0);
    assert_eq!(blocks[0].stack_info.push_used_for_jump, None);
    assert_eq!(blocks[0].indirect_jump, None);
}

#[test]
fn jump_and_jumpdest_split_the_code() {
    let blocks = analysed("6003565b00");
    assert_eq!(ranges(&blocks), vec![(0, 2), (3, 4)]);
    assert_eq!(blocks[0].stack_info.push_used_for_jump, Some(Word { hi: 0, lo: 3 }));
    assert_eq!(blocks[0].indirect_jump, None);
    assert_eq!(blocks[0].stack_info.net_stack_delta, 0);
    assert_eq!(blocks[1].stack_info.push_used_for_jump, None);
}

#[test]
fn jumpi_ends_a_block_and_a_plain_instruction_starts_the_next() {
    let blocks = analysed("6006576001005b6002");
    assert_eq!(ranges(&blocks), vec![(0, 2), (3, 5), (6, 8)]);
    assert_eq!(blocks[0].stack_info.push_used_for_jump, Some(Word { hi: 0, lo: 6 }));
    assert_eq!(blocks[0].stack_info.min_stack_depth, 1);
    assert_eq!(blocks[0].stack_info.net_stack_delta, -1);
    assert_eq!(blocks[2].stack_info.net_stack_delta, 1);
}

#[test]
fn empty_code_has_no_blocks() {
    assert!(disassemble(&Vec::new()).is_empty());
    assert!(assemble(&Vec::new()).is_empty());
    assert!(valid_jumpdests(&Vec::new()).unwrap().is_empty());
}

#[test]
fn trailing_partial_push_keeps_the_bytes_that_are_there() {
    let blocks = analysed("600161ff");
    assert_eq!(ranges(&blocks), vec![(0, 3)]);
    let last = blocks[0].ops.last().unwrap();
    assert_eq!(last.pc, 2);
    assert_eq!(last.opcode, 0x61);
    assert_eq!(last.immediate, Some(vec![0xff]));
    let bare = analysed("60");
    assert_eq!(ranges(&bare), vec![(0, 0)]);
    assert_eq!(bare[0].ops[0].immediate, Some(vec![]));
}

#[test]
fn jumpdest_inside_an_immediate_is_no_boundary() {
    let bytes = code("605b00");
    let blocks = disassemble(&bytes);
    assert_eq!(ranges(&blocks), vec![(0, 2)]);
    assert_eq!(blocks[0].ops.len(), 2);
    assert!(valid_jumpdests(&bytes).unwrap().is_empty());
}

#[test]
fn valid_jumpdests_are_the_jumpdest_instructions() {
    let found = valid_jumpdests(&code("5b605b5b615b5b5b00")).unwrap();
    let mut list: Vec<u16> = found.into_iter().collect();
    list.sort();
    assert_eq!(list, vec![0, 3, 7]);
}

#[test]
fn valid_jumpdests_reach_past_the_first_byte_of_the_table() {
    let mut bytes = vec![0x01u8; 40];
    bytes[9] = 0x5b;
    bytes[16] = 0x5b;
    bytes[39] = 0x5b;
    let mut list: Vec<u16> = valid_jumpdests(&bytes).unwrap().into_iter().collect();
    list.sort();
    assert_eq!(list, vec![9, 16, 39]);
}

#[test]
fn code_with_a_format_marker_is_refused() {
    assert_eq!(valid_jumpdests(&code("ef0001")).err(), Some(AnalysisError::BytecodeAnalysis));
    assert_eq!(valid_jumpdests(&code("ef01")).err(), Some(AnalysisError::BytecodeAnalysis));
    assert!(valid_jumpdests(&code("ef")).is_ok());
    assert!(valid_jumpdests(&code("ef02")).is_ok());
}

#[test]
fn code_beyond_the_program_counter_space_is_refused() {
    assert!(valid_jumpdests(&vec![0x5b; 0x1_0000]).is_ok());
    assert_eq!(
        valid_jumpdests(&vec![0x5b; 0x1_0001]).err(),
        Some(AnalysisError::BytecodeAnalysis)
    );
}

#[test]
fn every_instruction_lies_in_exactly_one_block() {
    let bytes = code("6006576001005b60025b5b56fe6000");
    let blocks = disassemble(&bytes);
    let mut pc = 0usize;
    while pc < bytes.len() {
        let holders = blocks
            .iter()
            .filter(|b| b.ops.iter().any(|op| op.pc as usize == pc))
            .count();
        assert_eq!(holders, 1, "pc {pc}");
        pc += 1 + opcode_immediate_size(bytes[pc]) as usize;
    }
    let total: usize = blocks.iter().map(|b| b.ops.len()).sum();
    assert_eq!(total, 11);
}

#[test]
fn blocks_follow_each_other_without_gap() {
    let bytes = code("6006576001005b60025b5b56fe6000");
    let blocks = disassemble(&bytes);
    assert_eq!(blocks[0].start_pc, 0);
    for pair in blocks.windows(2) {
        assert_eq!(pair[1].start_pc, pair[0].end_pc + 1);
    }
    assert_eq!(blocks.last().unwrap().end_pc as usize, bytes.len() - 1);
}

#[test]
fn writing_a_disassembly_out_gives_the_code_back() {
    for text in ["", "00", "6001600201", "6003565b00", "6006576001005b6002", "600161ff", "7f00", "605b00fe5b"] {
        let bytes = code(text);
        assert_eq!(assemble(&disassemble(&bytes)), bytes, "{text}");
    }
}

#[test]
fn assemble_writes_opcode_and_immediate() {
    let block = InstructionBlock {
        start_pc: 0,
        end_pc: 2,
        ops: vec![
            Instruction { pc: 0, opcode: 0x61, immediate: Some(vec![0xaa, 0xbb]) },
            Instruction { pc: 3, opcode: 0x00, immediate: None },
        ],
        stack_info: evm_cfg::cfg_gen::dasm::StackInfo::empty(),
        indirect_jump: None,
    };
    assert_eq!(assemble(&vec![block]), vec![0x61, 0xaa, 0xbb, 0x00]);
}

#[test]
fn stack_info_counts_what_a_block_takes_from_its_caller() {
    // SWAP1, POP, POP: reaches two slots deep and leaves two fewer.
    let blocks = analysed("905050");
    assert_eq!(blocks[0].stack_info.min_stack_depth, 2);
    assert_eq!(blocks[0].stack_info.net_stack_delta, -2);
    // DUP3 reaches three slots deep and leaves one more.
    let dup = analysed("82");
    assert_eq!(dup[0].stack_info.min_stack_depth, 3);
    assert_eq!(dup[0].stack_info.net_stack_delta, 1);
}

#[test]
fn jump_to_a_caller_value_is_indirect() {
    // JUMPDEST, JUMP: the target is the caller's top of stack.
    let blocks = analysed("5b56");
    assert_eq!(blocks[0].stack_info.push_used_for_jump, None);
    assert_eq!(blocks[0].indirect_jump, Some(Symbol::Opaque(0)));
    // PUSH1 7, SWAP1, JUMP: the pushed value is swapped away from the top.
    let swapped = analysed("60079056");
    assert_eq!(swapped[0].stack_info.push_used_for_jump, None);
    assert_eq!(swapped[0].indirect_jump, Some(Symbol::Opaque(0)));
}

#[test]
fn jump_to_a_computed_value_is_indirect() {
    // PUSH1 1, PUSH1 2, ADD, JUMP: the target is the result of ADD at pc 4.
    let blocks = analysed("600160020156");
    assert_eq!(blocks[0].stack_info.push_used_for_jump, None);
    assert_eq!(blocks[0].indirect_jump, Some(Symbol::Opaque(0x0100_0004)));
    // CALLDATALOAD and SLOAD results keep their kind.
    let calldata = analysed("60003556");
    assert_eq!(calldata[0].indirect_jump, Some(Symbol::CalldataWord));
    let storage = analysed("60005456");
    assert_eq!(storage[0].indirect_jump, Some(Symbol::StorageWord));
}

#[test]
fn jump_through_dup_and_push0_is_direct() {
    // PUSH1 9, DUP1, JUMP
    let dup = analysed("60098056");
    assert_eq!(dup[0].stack_info.push_used_for_jump, Some(Word { hi: 0, lo: 9 }));
    // PUSH0, JUMP
    let zero = analysed("5f56");
    assert_eq!(zero[0].stack_info.push_used_for_jump, Some(Word { hi: 0, lo: 0 }));
}
