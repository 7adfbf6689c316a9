use crate::cfg_gen::dasm::{Instruction, InstructionBlock};
use crate::cfg_gen::opcode::{
    is_known, mnemonic, opcode_is_known, opcode_name, INVALID, RETURN, REVERT, SELFDESTRUCT, SSTORE,
    STOP,
};
use crate::text::{decimal, hex_encode, hex_lower, push_decimal};
use vstd::prelude::*;

verus! {

/// What stands between the program counter and the mnemonic.
pub const AFTER_PC: &'static str = " ";

/// What stands between the mnemonic and the immediate of a push.
pub const BEFORE_IMMEDIATE: &'static str = " 0x";

/// What ends the line of one instruction: a line end that leaves the
/// line flush left in a Graphviz label.
pub const LINE_END: &'static str = "\\l";

/// The color of a block that ends in failure.
pub const FAILURE_COLOR: &'static str = "#f7768e";

/// The color of a block that ends the execution in order.
pub const HALT_COLOR: &'static str = "#7aa2f7";

/// One instruction as a line of text: the program counter in decimal, the
/// mnemonic and, for a push, the immediate in hexadecimal.
pub open spec fn instruction_text(ins: Instruction) -> Seq<char> {
    let head = decimal(ins.pc as nat) + AFTER_PC@ + mnemonic(ins.opcode);
    match ins.immediate {
        Some(imm) => head + BEFORE_IMMEDIATE@ + hex_lower(imm@) + LINE_END@,
        None => head + LINE_END@,
    }
}

/// A run of instructions as text, one line for each.
pub open spec fn ops_text(ops: Seq<Instruction>) -> Seq<char>
    decreases ops.len(),
{
    if ops.len() == 0 {
        Seq::empty()
    } else {
        ops_text(ops.drop_last()) + instruction_text(ops.last())
    }
}

/// Whether one of the instructions is `SSTORE`.
pub open spec fn has_sstore(ops: Seq<Instruction>) -> bool {
    exists|j: int| 0 <= j < ops.len() && (#[trigger] ops[j]).opcode == SSTORE
}

/// The color that marks how a block ends: failure for `REVERT`, `INVALID`
/// and unassigned bytes, halt for `STOP`, `RETURN` and `SELFDESTRUCT`,
/// none for a block that goes on.
pub open spec fn color_of(ops: Seq<Instruction>) -> Option<Seq<char>> {
    if ops.len() == 0 {
        None
    } else {
        let last = ops.last().opcode;
        if last == REVERT || last == INVALID || !is_known(last) {
            Some(FAILURE_COLOR@)
        } else if last == STOP || last == RETURN || last == SELFDESTRUCT {
            Some(HALT_COLOR@)
        } else {
            None
        }
    }
}

impl InstructionBlock {
    /// The block as text, one line for each instruction.
    pub fn to_string(&self) -> (text: String)
        ensures
            text@ == ops_text(self.ops@),
    {
        let mut text = String::new();
        let mut j: usize = 0;
        proof {
            assert(self.ops@.take(0) =~= Seq::<Instruction>::empty());
        }
        while j < self.ops.len()
            invariant
                j <= self.ops.len(),
                text@ == ops_text(self.ops@.take(j as int)),
            decreases self.ops.len() - j,
        {
            let ins = &self.ops[j];
            let ghost before = text@;
            push_decimal(&mut text, ins.pc as u64);
            text.append(AFTER_PC);
            text.append(opcode_name(ins.opcode));
            match &ins.immediate {
                Some(imm) => {
                    text.append(BEFORE_IMMEDIATE);
                    let digits = hex_encode(imm);
                    text.append(digits.as_str());
                },
                None => {},
            }
            text.append(LINE_END);
            proof {
                assert(self.ops@.take(j + 1).drop_last() =~= self.ops@.take(j as int));
                assert(self.ops@.take(j + 1).last() == *ins);
                assert(text@ =~= before + instruction_text(*ins));
            }
            j = j + 1;
        }
        proof {
            assert(self.ops@.take(self.ops.len() as int) =~= self.ops@);
        }
        text
    }

    /// Whether the block writes to persistent storage.
    pub fn contains_sstore(&self) -> (found: bool)
        ensures
            found == has_sstore(self.ops@),
    {
        let mut j: usize = 0;
        while j < self.ops.len()
            invariant
                j <= self.ops.len(),
                forall|k: int| 0 <= k < j ==> (#[trigger] self.ops[k]).opcode != SSTORE,
            decreases self.ops.len() - j,
        {
            if self.ops[j].opcode == SSTORE {
                return true;
            }
            j = j + 1;
        }
        false
    }

    /// The color that marks how the block ends.
    pub fn node_color(&self) -> (color: Option<&'static str>)
        ensures
            color is Some == color_of(self.ops@) is Some,
            color is Some ==> color->0@ == color_of(self.ops@)->0,
    {
        if self.ops.len() == 0 {
            return None;
        }
        let last = self.ops[self.ops.len() - 1].opcode;
        if last == REVERT || last == INVALID || !opcode_is_known(last) {
            Some(FAILURE_COLOR)
        } else if last == STOP || last == RETURN || last == SELFDESTRUCT {
            Some(HALT_COLOR)
        } else {
            None
        }
    }
}

} // verus!
