use crate::cfg_gen::opcode::{
    immediate_size, is_block_ender, is_push, opcode_immediate_size, opcode_is_block_ender,
    JUMPDEST,
};
use crate::cfg_gen::symbolic::Symbol;
use crate::cfg_gen::word::{immediate_word, Word};
use vstd::prelude::*;

verus! {

/// One decoded instruction: where it stands, its opcode byte, and for
/// `PUSH1..PUSH32` the immediate bytes that the code holds for it.
#[derive(Clone, Debug, PartialEq, Eq)]
pub struct Instruction {
    pub pc: u16,
    pub opcode: u8,
    pub immediate: Option<Vec<u8>>,
}

/// What a block does to the stack, seen from its own instructions alone.
#[derive(Clone, Copy, Debug, PartialEq, Eq)]
pub struct StackInfo {
    /// Number of stack words that must be present when the block is entered.
    pub min_stack_depth: u32,
    /// Stack height at the block's exit minus the height at its entry.
    pub net_stack_delta: i32,
    /// The constant that the block itself pushed for its terminal jump.
    pub push_used_for_jump: Option<Word>,
}

/// A maximal straight-line run of instructions.
#[derive(Clone, Debug, PartialEq, Eq)]
pub struct InstructionBlock {
    pub start_pc: u16,
    pub end_pc: u16,
    pub ops: Vec<Instruction>,
    pub stack_info: StackInfo,
    /// For a terminal jump whose target the block did not push itself:
    /// the symbol that stands for the target.
    pub indirect_jump: Option<Symbol>,
}

/// Largest code length whose every byte has a 16-bit program counter.
pub const MAX_CODE_LEN: usize = 0x1_0000;

/// Program counter of the instruction that follows the one at `pc`.
pub open spec fn next_pc(code: Seq<u8>, pc: int) -> int {
    pc + 1 + immediate_size(code[pc])
}

/// Whether decoding that starts at `from` arrives at `pc`, which may be
/// the end of the code or lie beyond it.
pub open spec fn is_op_boundary(code: Seq<u8>, from: int, pc: int) -> bool
    decreases
        if from < pc {
            pc - from
        } else {
            0
        },
{
    if 0 <= from < pc && from < code.len() {
        is_op_boundary(code, next_pc(code, from), pc)
    } else {
        from == pc
    }
}

/// Whether an instruction starts at `pc`: a linear scan from the first
/// byte, which skips every push immediate, stops there.
pub open spec fn is_instruction_start(code: Seq<u8>, pc: int) -> bool {
    0 <= pc < code.len() && is_op_boundary(code, 0, pc)
}

/// Whether `pc` is a valid jump destination: a `JUMPDEST` byte that is
/// an instruction of its own and no part of a push immediate.
pub open spec fn is_valid_jumpdest(code: Seq<u8>, pc: int) -> bool {
    is_instruction_start(code, pc) && code[pc] == JUMPDEST
}

/// One past the last byte that belongs to the instruction at `pc`.
pub open spec fn instruction_end(code: Seq<u8>, pc: int) -> int {
    if next_pc(code, pc) <= code.len() {
        next_pc(code, pc)
    } else {
        code.len() as int
    }
}

/// Whether `ins` is the instruction that the code holds at `ins.pc`. A
/// push whose immediate runs past the end of the code carries the bytes
/// that are there.
pub open spec fn instruction_at(code: Seq<u8>, ins: Instruction) -> bool {
    &&& ins.pc < code.len()
    &&& ins.opcode == code[ins.pc as int]
    &&& is_push(ins.opcode) ==> ins.immediate is Some && ins.immediate->0@ == code.subrange(
        ins.pc + 1,
        instruction_end(code, ins.pc as int),
    )
    &&& !is_push(ins.opcode) ==> ins.immediate is None
}

/// Whether the instruction `ops[j]` stands right behind `ops[j - 1]`.
pub open spec fn op_follows(code: Seq<u8>, ops: Seq<Instruction>, j: int) -> bool {
    ops[j].pc == next_pc(code, ops[j - 1].pc as int)
}

/// Whether the block `blocks[i]` starts right behind `blocks[i - 1]`.
pub open spec fn block_follows(blocks: Seq<InstructionBlock>, i: int) -> bool {
    blocks[i].start_pc == blocks[i - 1].end_pc + 1
}

/// Whether `b` is a basic block of `code`: consecutive instructions from
/// `start_pc` to `end_pc`, of which only the last may end a block and only
/// the first may be a `JUMPDEST`, and which runs on until a block-ender,
/// the end of the code, or the byte before a `JUMPDEST`.
pub open spec fn block_matches(code: Seq<u8>, b: InstructionBlock) -> bool {
    &&& 0 < b.ops.len() <= b.end_pc - b.start_pc + 1
    &&& b.ops[0].pc == b.start_pc
    &&& forall|j: int| 0 <= j < b.ops.len() ==> instruction_at(code, #[trigger] b.ops[j])
    &&& forall|j: int|
        0 <= j < b.ops.len() ==> b.start_pc <= (#[trigger] b.ops[j]).pc <= b.end_pc
    &&& forall|j: int| 0 < j < b.ops.len() ==> #[trigger] op_follows(code, b.ops@, j)
    &&& forall|j: int|
        0 <= j < b.ops.len() - 1 ==> !is_block_ender((#[trigger] b.ops[j]).opcode)
    &&& forall|j: int| 0 < j < b.ops.len() ==> (#[trigger] b.ops[j]).opcode != JUMPDEST
    &&& b.end_pc + 1 == instruction_end(code, b.ops@.last().pc as int)
    &&& {
        ||| is_block_ender(b.ops@.last().opcode)
        ||| b.end_pc + 1 == code.len()
        ||| code[b.end_pc + 1] == JUMPDEST
    }
}

/// Whether `blocks` is the partition of `code` into basic blocks: the
/// blocks follow each other without gap from the first byte to the last.
pub open spec fn is_disassembly(code: Seq<u8>, blocks: Seq<InstructionBlock>) -> bool {
    &&& code.len() <= MAX_CODE_LEN
    &&& code.len() == 0 ==> blocks.len() == 0
    &&& code.len() > 0 ==> blocks.len() > 0 && blocks[0].start_pc == 0 && blocks.last().end_pc
        == code.len() - 1
    &&& forall|i: int| 0 <= i < blocks.len() ==> block_matches(code, #[trigger] blocks[i])
    &&& forall|i: int| 0 < i < blocks.len() ==> #[trigger] block_follows(blocks, i)
}

/// Whether one of the instructions of `b` stands at `pc`.
pub open spec fn block_holds_pc(b: InstructionBlock, pc: int) -> bool {
    exists|j: int| 0 <= j < b.ops.len() && (#[trigger] b.ops[j]).pc == pc
}

/// The bytes that `ins` stands for in the code.
pub open spec fn instruction_bytes(ins: Instruction) -> Seq<u8> {
    match ins.immediate {
        Some(imm) => seq![ins.opcode] + imm@,
        None => seq![ins.opcode],
    }
}

/// The bytes of a run of instructions, in order.
pub open spec fn ops_bytes(ops: Seq<Instruction>) -> Seq<u8>
    decreases ops.len(),
{
    if ops.len() == 0 {
        Seq::empty()
    } else {
        ops_bytes(ops.drop_last()) + instruction_bytes(ops.last())
    }
}

/// The bytes of a run of blocks, in order.
pub open spec fn blocks_bytes(blocks: Seq<InstructionBlock>) -> Seq<u8>
    decreases blocks.len(),
{
    if blocks.len() == 0 {
        Seq::empty()
    } else {
        blocks_bytes(blocks.drop_last()) + ops_bytes(blocks.last().ops@)
    }
}

/// The number that a push puts on the stack: its immediate as a 256-bit
/// word, a missing tail read as zero bytes. Nothing for an instruction
/// that is no push or carries no immediate of a fitting length.
pub open spec fn pushed_word(ins: Instruction) -> Option<Word> {
    if is_push(ins.opcode) && ins.immediate is Some && ins.immediate->0.len() <= immediate_size(
        ins.opcode,
    ) {
        Some(immediate_word(ins.immediate->0@, immediate_size(ins.opcode)))
    } else {
        None
    }
}

impl Instruction {
    /// The number that a push puts on the stack.
    pub fn value(&self) -> (word: Option<Word>)
        ensures
            word == pushed_word(*self),
    {
        let size = opcode_immediate_size(self.opcode);
        match &self.immediate {
            Some(imm) => if size > 0 && imm.len() <= size as usize {
                Some(Word::from_immediate(imm, size))
            } else {
                None
            },
            None => None,
        }
    }
}

impl StackInfo {
    /// The stack information of a block that nothing is known of yet.
    pub fn empty() -> (info: StackInfo)
        ensures
            info.min_stack_depth == 0,
            info.net_stack_delta == 0,
            info.push_used_for_jump is None,
    {
        StackInfo { min_stack_depth: 0, net_stack_delta: 0, push_used_for_jump: None }
    }
}

/// Copies `code[from..to]`.
pub fn copy_range(code: &Vec<u8>, from: usize, to: usize) -> (out: Vec<u8>)
    requires
        from <= to <= code.len(),
    ensures
        out@ == code@.subrange(from as int, to as int),
{
    let mut out: Vec<u8> = Vec::new();
    let mut i: usize = from;
    while i < to
        invariant
            from <= i <= to <= code.len(),
            out@ == code@.subrange(from as int, i as int),
        decreases to - i,
    {
        out.push(code[i]);
        i = i + 1;
    }
    out
}

/// Splits `code` into its basic blocks. A block starts at the first byte,
/// after a block-ender, and at every `JUMPDEST` that is an instruction.
/// The blocks come in the order of their program counters, with empty
/// stack information.
pub fn disassemble(code: &Vec<u8>) -> (blocks: Vec<InstructionBlock>)
    requires
        code.len() <= MAX_CODE_LEN,
    ensures
        is_disassembly(code@, blocks@),
        forall|i: int|
            0 <= i < blocks.len() ==> {
                &&& (#[trigger] blocks[i]).stack_info.min_stack_depth == 0
                &&& blocks[i].stack_info.net_stack_delta == 0
                &&& blocks[i].stack_info.push_used_for_jump is None
                &&& blocks[i].indirect_jump is None
            },
{
    let len = code.len();
    let mut blocks: Vec<InstructionBlock> = Vec::new();
    let mut ops: Vec<Instruction> = Vec::new();
    let mut start: usize = 0;
    let mut pc: usize = 0;
    while pc < len
        invariant
            len == code.len(),
            len <= MAX_CODE_LEN,
            start <= pc <= len,
            ops.len() == 0 ==> start == pc,
            ops.len() <= pc - start,
            ops.len() > 0 ==> {
                &&& pc < len
                &&& code[pc as int] != JUMPDEST
                &&& ops[0].pc == start
                &&& pc == next_pc(code@, ops@.last().pc as int)
                &&& forall|j: int| 0 <= j < ops.len() ==> instruction_at(code@, #[trigger] ops[j])
                &&& forall|j: int| 0 <= j < ops.len() ==> start <= (#[trigger] ops[j]).pc < pc
                &&& forall|j: int| 0 < j < ops.len() ==> #[trigger] op_follows(code@, ops@, j)
                &&& forall|j: int| 0 <= j < ops.len() ==> !is_block_ender((#[trigger] ops[j]).opcode)
                &&& forall|j: int| 0 < j < ops.len() ==> (#[trigger] ops[j]).opcode != JUMPDEST
            },
            blocks.len() == 0 ==> start == 0,
            blocks.len() > 0 ==> blocks[0].start_pc == 0 && blocks@.last().end_pc + 1 == start,
            forall|i: int| 0 <= i < blocks.len() ==> block_matches(code@, #[trigger] blocks[i]),
            forall|i: int| 0 < i < blocks.len() ==> #[trigger] block_follows(blocks@, i),
            forall|i: int|
                0 <= i < blocks.len() ==> {
                    &&& (#[trigger] blocks[i]).stack_info.min_stack_depth == 0
                    &&& blocks[i].stack_info.net_stack_delta == 0
                    &&& blocks[i].stack_info.push_used_for_jump is None
                    &&& blocks[i].indirect_jump is None
                },
        decreases len - pc,
    {
        let op = code[pc];
        let size = opcode_immediate_size(op) as usize;
        let avail = if size <= len - pc - 1 {
            size
        } else {
            len - pc - 1
        };
        let next = pc + 1 + avail;
        let immediate = if size > 0 {
            Some(copy_range(code, pc + 1, next))
        } else {
            None
        };
        let ins = Instruction { pc: pc as u16, opcode: op, immediate };
        assert(instruction_at(code@, ins));
        let ghost old_ops = ops@;
        ops.push(ins);
        proof {
            assert forall|j: int| 0 < j < ops.len() implies #[trigger] op_follows(
                code@,
                ops@,
                j,
            ) by {
                if j < old_ops.len() {
                    assert(op_follows(code@, old_ops, j));
                }
            }
        }
        let close = opcode_is_block_ender(op) || next >= len || code[next] == JUMPDEST;
        if close {
            let block = InstructionBlock {
                start_pc: start as u16,
                end_pc: (next - 1) as u16,
                ops,
                stack_info: StackInfo::empty(),
                indirect_jump: None,
            };
            assert(block_matches(code@, block));
            let ghost old_blocks = blocks@;
            blocks.push(block);
            proof {
                assert forall|i: int| 0 < i < blocks.len() implies #[trigger] block_follows(
                    blocks@,
                    i,
                ) by {
                    if i < old_blocks.len() {
                        assert(block_follows(old_blocks, i));
                    }
                }
            }
            ops = Vec::new();
            start = next;
        }
        pc = next;
    }
    blocks
}

/// Blocks that stand later in a disassembly lie at higher addresses.
pub proof fn lemma_blocks_ascend(code: Seq<u8>, blocks: Seq<InstructionBlock>, i1: int, i2: int)
    requires
        is_disassembly(code, blocks),
        0 <= i1 < i2 < blocks.len(),
    ensures
        blocks[i1].start_pc <= blocks[i1].end_pc < blocks[i2].start_pc <= blocks[i2].end_pc,
    decreases i2 - i1,
{
    assert(block_matches(code, blocks[i1]));
    assert(block_matches(code, blocks[i2]));
    assert(blocks[i1].start_pc <= blocks[i1].ops[0].pc <= blocks[i1].end_pc);
    assert(blocks[i2].start_pc <= blocks[i2].ops[0].pc <= blocks[i2].end_pc);
    assert(block_follows(blocks, i2));
    if i1 + 1 < i2 {
        lemma_blocks_ascend(code, blocks, i1, i2 - 1);
    }
}

proof fn lemma_scan_meets_instruction(
    code: Seq<u8>,
    blocks: Seq<InstructionBlock>,
    i: int,
    j: int,
    pc: int,
)
    requires
        is_disassembly(code, blocks),
        0 <= i < blocks.len(),
        0 <= j < blocks[i].ops.len(),
        blocks[i].ops[j].pc <= pc < code.len(),
        is_op_boundary(code, blocks[i].ops[j].pc as int, pc),
    ensures
        exists|k: int| 0 <= k < blocks.len() && block_holds_pc(#[trigger] blocks[k], pc),
    decreases pc - blocks[i].ops[j].pc,
{
    let b = blocks[i];
    let from = b.ops[j].pc as int;
    assert(block_matches(code, b));
    assert(instruction_at(code, b.ops[j]));
    let next = next_pc(code, from);
    if from < pc {
        assert(0 <= from < code.len());
        assert(is_op_boundary(code, from, pc) == is_op_boundary(code, next, pc));
        assert(is_op_boundary(code, next, pc));
        assert(next <= pc);
    }
    if from == pc {
        assert(block_holds_pc(blocks[i], pc));
    } else if j + 1 < b.ops.len() {
        assert(op_follows(code, b.ops@, j + 1));
        lemma_scan_meets_instruction(code, blocks, i, j + 1, pc);
    } else if i + 1 < blocks.len() {
        let c = blocks[i + 1];
        assert(block_follows(blocks, i + 1));
        assert(block_matches(code, c));
        assert(instruction_at(code, c.ops[0]));
        lemma_scan_meets_instruction(code, blocks, i + 1, 0, pc);
    } else {
        assert(false);
    }
}

/// A scan that arrives at an instruction also arrives at the next one.
pub proof fn lemma_scan_goes_on(code: Seq<u8>, from: int, pc: int)
    requires
        0 <= from <= pc < code.len(),
        is_op_boundary(code, from, pc),
    ensures
        is_op_boundary(code, from, next_pc(code, pc)),
    decreases pc - from,
{
    let after = next_pc(code, pc);
    if from == pc {
        assert(is_op_boundary(code, after, after));
    } else {
        let next = next_pc(code, from);
        assert(is_op_boundary(code, next, pc));
        assert(next <= pc);
        lemma_scan_goes_on(code, next, pc);
    }
}

/// Every instruction of a disassembly stands where an instruction starts.
pub proof fn lemma_ops_are_instruction_starts(
    code: Seq<u8>,
    blocks: Seq<InstructionBlock>,
    i: int,
    j: int,
)
    requires
        is_disassembly(code, blocks),
        0 <= i < blocks.len(),
        0 <= j < blocks[i].ops.len(),
    ensures
        is_instruction_start(code, blocks[i].ops[j].pc as int),
    decreases i, j,
{
    let b = blocks[i];
    assert(block_matches(code, b));
    assert(instruction_at(code, b.ops[j]));
    if j > 0 {
        lemma_ops_are_instruction_starts(code, blocks, i, j - 1);
        assert(instruction_at(code, b.ops[j - 1]));
        assert(op_follows(code, b.ops@, j));
        lemma_scan_goes_on(code, 0, b.ops[j - 1].pc as int);
    } else if i > 0 {
        let a = blocks[i - 1];
        assert(block_matches(code, a));
        let last = a.ops.len() - 1;
        lemma_ops_are_instruction_starts(code, blocks, i - 1, last);
        assert(instruction_at(code, a.ops[last]));
        assert(block_follows(blocks, i));
        lemma_scan_goes_on(code, 0, a.ops[last].pc as int);
    } else {
        assert(is_op_boundary(code, 0, 0));
    }
}

/// Every instruction of the code belongs to exactly one basic block of
/// its disassembly.
pub proof fn lemma_instruction_in_exactly_one_block(
    code: Seq<u8>,
    blocks: Seq<InstructionBlock>,
    pc: int,
)
    requires
        is_disassembly(code, blocks),
        is_instruction_start(code, pc),
    ensures
        exists|i: int| 0 <= i < blocks.len() && block_holds_pc(#[trigger] blocks[i], pc),
        forall|i1: int, i2: int|
            0 <= i1 < blocks.len() && 0 <= i2 < blocks.len() && block_holds_pc(
                #[trigger] blocks[i1],
                pc,
            ) && block_holds_pc(#[trigger] blocks[i2], pc) ==> i1 == i2,
{
    assert(block_matches(code, blocks[0]));
    lemma_scan_meets_instruction(code, blocks, 0, 0, pc);
    assert forall|i1: int, i2: int|
        0 <= i1 < blocks.len() && 0 <= i2 < blocks.len() && block_holds_pc(
            #[trigger] blocks[i1],
            pc,
        ) && block_holds_pc(#[trigger] blocks[i2], pc) implies i1 == i2 by {
        assert(block_matches(code, blocks[i1]));
        assert(block_matches(code, blocks[i2]));
        if i1 < i2 {
            lemma_blocks_ascend(code, blocks, i1, i2);
        } else if i2 < i1 {
            lemma_blocks_ascend(code, blocks, i2, i1);
        }
    }
}

/// A block begins with `JUMPDEST` if and only if it starts at a valid
/// jump destination.
pub proof fn lemma_jumpdest_heads_block(code: Seq<u8>, blocks: Seq<InstructionBlock>, i: int)
    requires
        is_disassembly(code, blocks),
        0 <= i < blocks.len(),
    ensures
        blocks[i].ops[0].opcode == JUMPDEST <==> is_valid_jumpdest(code, blocks[i].start_pc as int),
{
    assert(block_matches(code, blocks[i]));
    assert(instruction_at(code, blocks[i].ops[0]));
    lemma_ops_are_instruction_starts(code, blocks, i, 0);
}

/// A block starts at every valid jump destination.
pub proof fn lemma_jumpdest_starts_block(code: Seq<u8>, blocks: Seq<InstructionBlock>, pc: int)
    requires
        is_disassembly(code, blocks),
        is_valid_jumpdest(code, pc),
    ensures
        exists|i: int| 0 <= i < blocks.len() && (#[trigger] blocks[i]).start_pc == pc,
{
    lemma_instruction_in_exactly_one_block(code, blocks, pc);
    let i = choose|i: int| 0 <= i < blocks.len() && block_holds_pc(#[trigger] blocks[i], pc);
    let b = blocks[i];
    let j = choose|j: int| 0 <= j < b.ops.len() && (#[trigger] b.ops[j]).pc == pc;
    assert(block_matches(code, b));
    assert(instruction_at(code, b.ops[j]));
    assert(j == 0);
    assert(blocks[i].start_pc == pc);
}

proof fn lemma_instruction_bytes(code: Seq<u8>, ins: Instruction)
    requires
        instruction_at(code, ins),
    ensures
        instruction_bytes(ins) == code.subrange(
            ins.pc as int,
            instruction_end(code, ins.pc as int),
        ),
{
    assert(instruction_bytes(ins) =~= code.subrange(
        ins.pc as int,
        instruction_end(code, ins.pc as int),
    ));
}

proof fn lemma_block_prefix_bytes(code: Seq<u8>, b: InstructionBlock, k: int)
    requires
        block_matches(code, b),
        0 <= k <= b.ops.len(),
    ensures
        ops_bytes(b.ops@.take(k)) == code.subrange(
            b.start_pc as int,
            if k == b.ops.len() {
                b.end_pc + 1
            } else {
                b.ops[k].pc as int
            },
        ),
    decreases k,
{
    let to = if k == b.ops.len() {
        b.end_pc + 1
    } else {
        b.ops[k].pc as int
    };
    if k == 0 {
        assert(ops_bytes(b.ops@.take(0)) =~= code.subrange(b.start_pc as int, to));
    } else {
        lemma_block_prefix_bytes(code, b, k - 1);
        let ins = b.ops[k - 1];
        assert(instruction_at(code, ins));
        lemma_instruction_bytes(code, ins);
        assert(b.ops@.take(k).drop_last() =~= b.ops@.take(k - 1));
        assert(b.ops@.take(k).last() == ins);
        if k < b.ops.len() {
            assert(instruction_at(code, b.ops[k]));
            assert(op_follows(code, b.ops@, k));
        }
        assert(b.start_pc <= ins.pc);
        assert(to == instruction_end(code, ins.pc as int));
        assert(ops_bytes(b.ops@.take(k)) =~= code.subrange(b.start_pc as int, to));
    }
}

proof fn lemma_blocks_prefix_bytes(code: Seq<u8>, blocks: Seq<InstructionBlock>, k: int)
    requires
        is_disassembly(code, blocks),
        0 <= k <= blocks.len(),
    ensures
        blocks_bytes(blocks.take(k)) == code.subrange(
            0,
            if k == blocks.len() {
                code.len() as int
            } else {
                blocks[k].start_pc as int
            },
        ),
    decreases k,
{
    let to = if k == blocks.len() {
        code.len() as int
    } else {
        blocks[k].start_pc as int
    };
    if k == 0 {
        assert(blocks_bytes(blocks.take(0)) =~= code.subrange(0, to));
    } else {
        lemma_blocks_prefix_bytes(code, blocks, k - 1);
        let b = blocks[k - 1];
        assert(block_matches(code, b));
        lemma_block_prefix_bytes(code, b, b.ops.len() as int);
        assert(b.ops@.take(b.ops.len() as int) =~= b.ops@);
        assert(blocks.take(k).drop_last() =~= blocks.take(k - 1));
        assert(blocks.take(k).last() == b);
        assert(b.start_pc <= b.ops[0].pc <= b.end_pc);
        if k < blocks.len() {
            assert(block_follows(blocks, k));
        }
        if k > 1 {
            assert(block_follows(blocks, k - 1));
        }
        assert(to == b.end_pc + 1);
        assert(blocks_bytes(blocks.take(k)) =~= code.subrange(0, to));
    }
}

/// Writing the instructions of a disassembly out again, block after
/// block, gives back the code that was disassembled.
pub proof fn lemma_disassembly_round_trip(code: Seq<u8>, blocks: Seq<InstructionBlock>)
    requires
        is_disassembly(code, blocks),
    ensures
        blocks_bytes(blocks) == code,
{
    lemma_blocks_prefix_bytes(code, blocks, blocks.len() as int);
    assert(blocks.take(blocks.len() as int) =~= blocks);
    assert(code.subrange(0, code.len() as int) =~= code);
}

/// Writes the bytes of the instructions of `blocks` out, in order.
pub fn assemble(blocks: &Vec<InstructionBlock>) -> (code: Vec<u8>)
    ensures
        code@ == blocks_bytes(blocks@),
{
    let mut out: Vec<u8> = Vec::new();
    let mut i: usize = 0;
    while i < blocks.len()
        invariant
            i <= blocks.len(),
            out@ == blocks_bytes(blocks@.take(i as int)),
        decreases blocks.len() - i,
    {
        let block = &blocks[i];
        let ghost before = out@;
        let mut j: usize = 0;
        while j < block.ops.len()
            invariant
                j <= block.ops.len(),
                out@ == before + ops_bytes(block.ops@.take(j as int)),
            decreases block.ops.len() - j,
        {
            let ins = &block.ops[j];
            let ghost prefix = out@;
            out.push(ins.opcode);
            match &ins.immediate {
                Some(imm) => {
                    let mut k: usize = 0;
                    while k < imm.len()
                        invariant
                            k <= imm.len(),
                            out@ == prefix + seq![ins.opcode] + imm@.take(k as int),
                        decreases imm.len() - k,
                    {
                        out.push(imm[k]);
                        k = k + 1;
                        assert(imm@.take(k as int) =~= imm@.take(k - 1).push(imm[k - 1]));
                    }
                    assert(imm@.take(imm.len() as int) =~= imm@);
                },
                None => {},
            }
            proof {
                assert(block.ops@.take(j + 1).drop_last() =~= block.ops@.take(j as int));
                assert(block.ops@.take(j + 1).last() == *ins);
                assert(out@ =~= before + ops_bytes(block.ops@.take(j + 1)));
            }
            j = j + 1;
        }
        proof {
            assert(block.ops@.take(block.ops.len() as int) =~= block.ops@);
            assert(blocks@.take(i + 1).drop_last() =~= blocks@.take(i as int));
            assert(blocks@.take(i + 1).last() == *block);
        }
        i = i + 1;
    }
    proof {
        assert(blocks@.take(blocks.len() as int) =~= blocks@);
    }
    out
}

} // verus!
