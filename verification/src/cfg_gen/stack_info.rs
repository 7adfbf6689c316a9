use crate::cfg_gen::dasm::{Instruction, InstructionBlock, StackInfo, MAX_CODE_LEN};
use crate::cfg_gen::opcode::{JUMP, JUMPI};
use crate::cfg_gen::symbolic::{
    apply_instruction, carries_immediate, no_phi, run, stack_view, state_of, with_depth,
    StackState, Symbol, SymbolicElement,
};
use vstd::prelude::*;

verus! {

/// The empty stack of a block that is looked at by itself.
pub open spec fn baseline() -> StackState {
    StackState { stack: Seq::empty(), taken: 0 }
}

/// Whether the run of instructions ends in `JUMP` or `JUMPI`.
pub open spec fn ends_with_jump(ops: Seq<Instruction>) -> bool {
    ops.len() > 0 && (ops.last().opcode == JUMP || ops.last().opcode == JUMPI)
}

/// The slot that holds the target when the last instruction of `ops`, a
/// jump, is reached with `entry` as the stack at the first: the top.
pub open spec fn jump_operand(entry: StackState, ops: Seq<Instruction>) -> Set<Symbol> {
    with_depth(run(entry, ops.drop_last()), 1).stack.last()
}

/// The symbol for the target of the block's terminal jump, from the
/// block's own instructions.
pub open spec fn jump_symbol(ops: Seq<Instruction>) -> Symbol {
    jump_operand(baseline(), ops).choose()
}

/// The stack information of a block with the instructions `ops`: how deep
/// it reaches into the entry stack, by how much it changes the height, and
/// the constant that it pushed itself for its terminal jump, if it did.
pub open spec fn stack_info_of(ops: Seq<Instruction>) -> StackInfo {
    let exit = run(baseline(), ops);
    StackInfo {
        min_stack_depth: exit.taken as u32,
        net_stack_delta: (exit.stack.len() - exit.taken) as i32,
        push_used_for_jump: if ends_with_jump(ops) {
            match jump_symbol(ops) {
                Symbol::Concrete(w) => Some(w),
                _ => None,
            }
        } else {
            None
        },
    }
}

/// The symbol that stands for the target of the block's terminal jump
/// where the block did not push the target itself.
pub open spec fn indirect_jump_of(ops: Seq<Instruction>) -> Option<Symbol> {
    if ends_with_jump(ops) {
        match jump_symbol(ops) {
            Symbol::Concrete(_) => None,
            symbol => Some(symbol),
        }
    } else {
        None
    }
}

/// The top slot of the stack, or the first unknown entry slot if the
/// stack is empty.
pub fn peek_top(stack: &Vec<SymbolicElement>, taken: u32) -> (top: SymbolicElement)
    ensures
        top.atoms() == with_depth(state_of(stack@, taken), 1).stack.last(),
        no_phi(stack@) ==> !(top is Phi),
{
    if stack.len() > 0 {
        stack[stack.len() - 1].duplicate()
    } else {
        SymbolicElement::Opaque(taken)
    }
}

impl InstructionBlock {
    /// Fills in the block's stack information and, for a terminal jump
    /// whose target the block did not push itself, the symbol of the
    /// target. The instructions are simulated on a symbolic stack that
    /// starts empty; what lies below is unknown.
    pub fn analyze_stack_info(&mut self)
        requires
            old(self).ops.len() <= MAX_CODE_LEN,
            forall|j: int|
                0 <= j < old(self).ops.len() ==> carries_immediate(#[trigger] old(self).ops[j]),
        ensures
            final(self).start_pc == old(self).start_pc,
            final(self).end_pc == old(self).end_pc,
            final(self).ops == old(self).ops,
            final(self).stack_info == stack_info_of(old(self).ops@),
            final(self).indirect_jump == indirect_jump_of(old(self).ops@),
    {
        let mut stack: Vec<SymbolicElement> = Vec::new();
        let mut taken: u32 = 0;
        let mut target: Option<Symbol> = None;
        let count = self.ops.len();
        let mut j: usize = 0;
        assert(self.ops@.take(0) =~= Seq::<Instruction>::empty());
        assert(stack_view(stack@) =~= Seq::<Set<Symbol>>::empty());
        while j < count
            invariant
                j <= count,
                count == self.ops.len(),
                count <= MAX_CODE_LEN,
                *self == *old(self),
                forall|k: int| 0 <= k < self.ops.len() ==> carries_immediate(#[trigger] self.ops[k]),
                taken <= 17 * j,
                stack.len() <= 18 * j,
                no_phi(stack@),
                state_of(stack@, taken) == run(baseline(), self.ops@.take(j as int)),
                target == (if j == count && ends_with_jump(self.ops@) {
                    Some(jump_symbol(self.ops@))
                } else {
                    None
                }),
            decreases count - j,
        {
            let ins = &self.ops[j];
            if j + 1 == count && (ins.opcode == JUMP || ins.opcode == JUMPI) {
                let top = peek_top(&stack, taken);
                proof {
                    assert(self.ops@.drop_last() =~= self.ops@.take(j as int));
                    assert(top.atoms() == jump_operand(baseline(), self.ops@));
                    assert(top.atoms().contains(top.symbol()));
                }
                target = Some(symbol_of(&top));
            }
            apply_instruction(&mut stack, &mut taken, ins);
            proof {
                assert(self.ops@.take(j + 1).drop_last() =~= self.ops@.take(j as int));
                assert(self.ops@.take(j + 1).last() == self.ops@[j as int]);
            }
            j = j + 1;
        }
        assert(self.ops@.take(count as int) =~= self.ops@);
        let height = stack.len();
        let delta: i32 = (height as i64 - taken as i64) as i32;
        let pushed = match target {
            Some(Symbol::Concrete(w)) => Some(w),
            _ => None,
        };
        let indirect = match target {
            Some(Symbol::Concrete(_)) => None,
            Some(symbol) => Some(symbol),
            None => None,
        };
        self.stack_info = StackInfo {
            min_stack_depth: taken,
            net_stack_delta: delta,
            push_used_for_jump: pushed,
        };
        self.indirect_jump = indirect;
    }
}

/// The single symbol of a slot that is no join.
pub fn symbol_of(e: &SymbolicElement) -> (symbol: Symbol)
    requires
        !(e is Phi),
    ensures
        symbol == e.symbol(),
        e.atoms() == set![symbol],
{
    match e {
        SymbolicElement::Concrete(w) => Symbol::Concrete(*w),
        SymbolicElement::CalldataWord => Symbol::CalldataWord,
        SymbolicElement::StorageWord => Symbol::StorageWord,
        SymbolicElement::Opaque(id) => Symbol::Opaque(*id),
        SymbolicElement::Phi(alternatives) => Symbol::CalldataWord,
    }
}

} // verus!
