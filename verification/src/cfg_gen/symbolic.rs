use crate::cfg_gen::dasm::Instruction;
use crate::cfg_gen::opcode::{
    immediate_size, is_dup, is_push, is_swap, opcode_stack_in, opcode_stack_out, stack_in,
    stack_out, CALLDATALOAD, PUSH0, SLOAD,
};
use crate::cfg_gen::word::{immediate_word, Word};
use vstd::prelude::*;

verus! {

/// What is known of one stack word without running the code.
#[derive(Clone, Copy, Debug, PartialEq, Eq, Hash, Structural)]
pub enum Symbol {
    /// A constant that the code pushed.
    Concrete(Word),
    /// A word read from the call data.
    CalldataWord,
    /// A word read from persistent storage.
    StorageWord,
    /// An unknown word, named by where it came from.
    Opaque(u32),
}

/// One slot of a symbolic stack: a single symbol, or, where control flow
/// joins, the symbols that the slot may hold.
#[derive(Clone, Debug, PartialEq, Eq)]
pub enum SymbolicElement {
    Concrete(Word),
    CalldataWord,
    StorageWord,
    Opaque(u32),
    Phi(Vec<Symbol>),
}

/// Identifiers from here on name the result of the instruction at the
/// program counter that is added; smaller ones name a stack slot that was
/// there when the block was entered, counted from the top.
pub const OUTPUT_BASE: u32 = 0x0100_0000;

/// A symbolic stack, bottom first, each slot as the set of symbols it may
/// hold, and the number of entry slots that the code has reached into.
pub struct StackState {
    pub stack: Seq<Set<Symbol>>,
    pub taken: nat,
}

impl SymbolicElement {
    /// The symbols that the slot may hold.
    pub open spec fn atoms(self) -> Set<Symbol> {
        match self {
            SymbolicElement::Concrete(w) => set![Symbol::Concrete(w)],
            SymbolicElement::CalldataWord => set![Symbol::CalldataWord],
            SymbolicElement::StorageWord => set![Symbol::StorageWord],
            SymbolicElement::Opaque(id) => set![Symbol::Opaque(id)],
            SymbolicElement::Phi(alternatives) => alternatives@.to_set(),
        }
    }

    /// The single symbol of a slot that is no join.
    pub open spec fn symbol(self) -> Symbol {
        match self {
            SymbolicElement::Concrete(w) => Symbol::Concrete(w),
            SymbolicElement::CalldataWord => Symbol::CalldataWord,
            SymbolicElement::StorageWord => Symbol::StorageWord,
            SymbolicElement::Opaque(id) => Symbol::Opaque(id),
            SymbolicElement::Phi(alternatives) => alternatives@[0],
        }
    }

    /// The slot that holds just `symbol`.
    pub fn of_symbol(symbol: Symbol) -> (e: SymbolicElement)
        ensures
            e.atoms() == set![symbol],
            e.symbol() == symbol,
            !(e is Phi),
    {
        match symbol {
            Symbol::Concrete(w) => SymbolicElement::Concrete(w),
            Symbol::CalldataWord => SymbolicElement::CalldataWord,
            Symbol::StorageWord => SymbolicElement::StorageWord,
            Symbol::Opaque(id) => SymbolicElement::Opaque(id),
        }
    }

    /// A copy of the slot.
    pub fn duplicate(&self) -> (e: SymbolicElement)
        ensures
            e.atoms() == self.atoms(),
            e is Phi == self is Phi,
            !(self is Phi) ==> e.symbol() == self.symbol(),
    {
        match self {
            SymbolicElement::Concrete(w) => SymbolicElement::Concrete(*w),
            SymbolicElement::CalldataWord => SymbolicElement::CalldataWord,
            SymbolicElement::StorageWord => SymbolicElement::StorageWord,
            SymbolicElement::Opaque(id) => SymbolicElement::Opaque(*id),
            SymbolicElement::Phi(alternatives) => {
                let mut copy: Vec<Symbol> = Vec::new();
                let mut i: usize = 0;
                while i < alternatives.len()
                    invariant
                        i <= alternatives.len(),
                        copy@ == alternatives@.take(i as int),
                    decreases alternatives.len() - i,
                {
                    copy.push(alternatives[i]);
                    i = i + 1;
                    assert(alternatives@.take(i as int) =~= alternatives@.take(i - 1).push(
                        alternatives[i - 1],
                    ));
                }
                assert(alternatives@.take(alternatives.len() as int) =~= alternatives@);
                SymbolicElement::Phi(copy)
            },
        }
    }
}

/// The slots of an exec stack as sets of symbols.
pub open spec fn stack_view(stack: Seq<SymbolicElement>) -> Seq<Set<Symbol>> {
    stack.map_values(|e: SymbolicElement| e.atoms())
}

/// The state of an exec stack that has reached into `taken` entry slots.
pub open spec fn state_of(stack: Seq<SymbolicElement>, taken: u32) -> StackState {
    StackState { stack: stack_view(stack), taken: taken as nat }
}

/// Whether no slot of the stack is a join.
pub open spec fn no_phi(stack: Seq<SymbolicElement>) -> bool {
    forall|i: int| 0 <= i < stack.len() ==> !(#[trigger] stack[i] is Phi)
}

/// Number of slots that a stack of `len` slots lacks to hold `need`.
pub open spec fn lacking(len: nat, need: nat) -> nat {
    if len >= need {
        0
    } else {
        (need - len) as nat
    }
}

/// The unknown entry slots that come to light when code reaches `missing`
/// slots deeper than before, bottom first. The slot nearest to the top
/// gets the smallest identifier.
pub open spec fn entry_slots(taken: nat, missing: nat) -> Seq<Set<Symbol>> {
    Seq::new(missing, |i: int| set![Symbol::Opaque((taken + missing - 1 - i) as u32)])
}

/// The state with at least `need` slots on the stack.
pub open spec fn with_depth(s: StackState, need: nat) -> StackState {
    if s.stack.len() >= need {
        s
    } else {
        let missing = (need - s.stack.len()) as nat;
        StackState { stack: entry_slots(s.taken, missing) + s.stack, taken: s.taken + missing }
    }
}

/// Whether a push carries its immediate, of no more bytes than its size.
pub open spec fn carries_immediate(ins: Instruction) -> bool {
    is_push(ins.opcode) ==> ins.immediate is Some && ins.immediate->0.len() <= immediate_size(
        ins.opcode,
    )
}

/// The symbol that an instruction other than `DUP` and `SWAP` puts on the
/// stack: the constant of a push, the kind of a load, and else an unknown
/// named after the instruction.
pub open spec fn produced(ins: Instruction) -> Symbol {
    if is_push(ins.opcode) {
        Symbol::Concrete(immediate_word(ins.immediate->0@, immediate_size(ins.opcode)))
    } else if ins.opcode == PUSH0 {
        Symbol::Concrete(Word { hi: 0, lo: 0 })
    } else if ins.opcode == CALLDATALOAD {
        Symbol::CalldataWord
    } else if ins.opcode == SLOAD {
        Symbol::StorageWord
    } else {
        Symbol::Opaque((OUTPUT_BASE + ins.pc) as u32)
    }
}

/// The effect of one instruction on a symbolic stack. `DUP` and `SWAP` act
/// on positions. Every other instruction takes its inputs off and, if it
/// has a result, puts the symbol for it on top. Where the stack holds too
/// few slots, unknown entry slots are supplied from below first.
pub open spec fn step(s: StackState, ins: Instruction) -> StackState {
    let op = ins.opcode;
    let t = with_depth(s, stack_in(op) as nat);
    let n = t.stack.len() as int;
    if is_dup(op) {
        StackState { stack: t.stack.push(t.stack[n - stack_in(op)]), taken: t.taken }
    } else if is_swap(op) {
        StackState {
            stack: t.stack.update(n - 1, t.stack[n - stack_in(op)]).update(
                n - stack_in(op),
                t.stack[n - 1],
            ),
            taken: t.taken,
        }
    } else {
        let rest = t.stack.take(n - stack_in(op));
        StackState {
            stack: if stack_out(op) == 1 {
                rest.push(set![produced(ins)])
            } else {
                rest
            },
            taken: t.taken,
        }
    }
}

/// The effect of a run of instructions on a symbolic stack.
pub open spec fn run(s: StackState, ops: Seq<Instruction>) -> StackState
    decreases ops.len(),
{
    if ops.len() == 0 {
        s
    } else {
        step(run(s, ops.drop_last()), ops.last())
    }
}

/// The symbol that `ins` puts on the stack.
fn produce(ins: &Instruction) -> (symbol: Symbol)
    requires
        carries_immediate(*ins),
    ensures
        symbol == produced(*ins),
{
    let op = ins.opcode;
    if 0x60 <= op && op <= 0x7f {
        match &ins.immediate {
            Some(imm) => Symbol::Concrete(Word::from_immediate(imm, op - 0x5f)),
            None => Symbol::Concrete(Word::zero()),
        }
    } else if op == PUSH0 {
        Symbol::Concrete(Word::zero())
    } else if op == CALLDATALOAD {
        Symbol::CalldataWord
    } else if op == SLOAD {
        Symbol::StorageWord
    } else {
        Symbol::Opaque(OUTPUT_BASE + ins.pc as u32)
    }
}

/// Supplies unknown entry slots from below until the stack holds `need`.
fn reach_depth(stack: &mut Vec<SymbolicElement>, taken: &mut u32, need: usize)
    requires
        need <= 17,
        *old(taken) <= 0x00ff_0000,
    ensures
        state_of(final(stack)@, *final(taken)) == with_depth(
            state_of(old(stack)@, *old(taken)),
            need as nat,
        ),
        final(stack).len() >= need,
        final(stack).len() <= old(stack).len() + need,
        *final(taken) <= *old(taken) + need,
        no_phi(old(stack)@) ==> no_phi(final(stack)@),
{
    let ghost start = stack_view(stack@);
    let ghost first = *taken as nat;
    let ghost missing = lacking(stack@.len(), need as nat);
    let ghost old_stack = stack@;
    let mut added: usize = 0;
    while stack.len() < need
        invariant
            need <= 17,
            first <= 0x00ff_0000,
            added <= missing,
            stack.len() == old_stack.len() + added,
            missing == lacking(old_stack.len(), need as nat),
            *taken == first + added,
            start == stack_view(old_stack),
            stack_view(stack@) == entry_slots(first, added as nat) + start,
            no_phi(old_stack) ==> no_phi(stack@),
        decreases need - stack.len(),
    {
        let ghost before = stack@;
        stack.insert(0, SymbolicElement::Opaque(*taken));
        proof {
            assert(stack_view(stack@) =~= entry_slots(first, (added + 1) as nat) + start) by {
                let a = stack_view(stack@);
                let b = entry_slots(first, (added + 1) as nat) + start;
                assert(a.len() == b.len());
                assert forall|i: int| 0 <= i < a.len() implies a[i] == b[i] by {
                    if i == 0 {
                    } else {
                        assert(stack@[i] == before[i - 1]);
                        assert(stack_view(before)[i - 1] == (entry_slots(first, added as nat)
                            + start)[i - 1]);
                    }
                }
            }
            if no_phi(old_stack) {
                assert forall|i: int| 0 <= i < stack.len() implies !(#[trigger] stack[i] is Phi) by {
                    if i > 0 {
                        assert(stack@[i] == before[i - 1]);
                    }
                }
            }
        }
        *taken = *taken + 1;
        added = added + 1;
    }
    proof {
        if old_stack.len() >= need {
            assert(entry_slots(first, 0) + start =~= start);
        }
    }
}

/// Applies one instruction to the symbolic stack.
pub fn apply_instruction(stack: &mut Vec<SymbolicElement>, taken: &mut u32, ins: &Instruction)
    requires
        carries_immediate(*ins),
        *old(taken) <= 0x00ff_0000,
    ensures
        state_of(final(stack)@, *final(taken)) == step(state_of(old(stack)@, *old(taken)), *ins),
        *final(taken) <= *old(taken) + 17,
        final(stack).len() <= old(stack).len() + 18,
        no_phi(old(stack)@) ==> no_phi(final(stack)@),
{
    let op = ins.opcode;
    let need = opcode_stack_in(op) as usize;
    let ghost s = state_of(stack@, *taken);
    reach_depth(stack, taken, need);
    let ghost t = with_depth(s, need as nat);
    let ghost deep = stack@;
    let n = stack.len();
    if 0x80 <= op && op <= 0x8f {
        let copy = stack[n - need].duplicate();
        stack.push(copy);
        proof {
            assert(stack_view(stack@) =~= t.stack.push(t.stack[n - need]));
            assert forall|i: int| 0 <= i < stack.len() && no_phi(deep) implies !(
            #[trigger] stack[i] is Phi) by {
                if i < n {
                    assert(stack@[i] == deep[i]);
                }
            }
        }
    } else if 0x90 <= op && op <= 0x9f {
        let top = stack[n - 1].duplicate();
        let low = stack[n - need].duplicate();
        stack.set(n - 1, low);
        stack.set(n - need, top);
        proof {
            assert(stack_view(stack@) =~= t.stack.update(n - 1, t.stack[n - need]).update(
                n - need,
                t.stack[n - 1],
            ));
            assert forall|i: int| 0 <= i < stack.len() && no_phi(deep) implies !(
            #[trigger] stack[i] is Phi) by {
                assert(!(deep[n - 1] is Phi));
                assert(!(deep[n - need] is Phi));
                if i != n - 1 && i != n - need {
                    assert(stack@[i] == deep[i]);
                }
            }
        }
    } else {
        stack.truncate(n - need);
        proof {
            assert(stack_view(stack@) =~= t.stack.take(n - need));
        }
        if opcode_stack_out(op) == 1 {
            let ghost rest = stack@;
            stack.push(SymbolicElement::of_symbol(produce(ins)));
            proof {
                assert(stack_view(stack@) =~= stack_view(rest).push(set![produced(*ins)]));
            }
        }
        proof {
            assert forall|i: int| 0 <= i < stack.len() && no_phi(deep) implies !(
            #[trigger] stack[i] is Phi) by {
                if i < n - need {
                    assert(stack@[i] == deep[i]);
                }
            }
        }
    }
}

} // verus!
