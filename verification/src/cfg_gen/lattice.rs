use crate::cfg_gen::dasm::{Instruction, InstructionBlock, MAX_CODE_LEN};
use crate::cfg_gen::opcode::{is_dup, is_swap, stack_in, stack_out, JUMP, JUMPI};
use crate::cfg_gen::stack_info::{ends_with_jump, jump_operand, peek_top};
use crate::cfg_gen::symbolic::{
    apply_instruction, carries_immediate, entry_slots, produced, run, stack_view, state_of, step,
    with_depth, StackState, Symbol, SymbolicElement,
};
use crate::cfg_gen::word::Word;
use vstd::prelude::*;

verus! {

/// Largest number of slots that a stack holds.
pub const STACK_LIMIT: usize = 1024;

/// The constants among the symbols.
pub open spec fn concretes(atoms: Set<Symbol>) -> Set<Word> {
    Set::new(|w: Word| atoms.contains(Symbol::Concrete(w)))
}

/// The constants that the slot `depth` below the top may hold; none where
/// the stack is not that deep.
pub open spec fn slot(stack: Seq<Set<Symbol>>, depth: int) -> Set<Word> {
    if 0 <= depth < stack.len() {
        concretes(stack[stack.len() - 1 - depth])
    } else {
        Set::empty()
    }
}

/// Whether `t` allows every constant that `s` allows, slot for slot from
/// the top.
pub open spec fn below(s: Seq<Set<Symbol>>, t: Seq<Set<Symbol>>) -> bool {
    forall|depth: int| #[trigger] slot(s, depth).subset_of(slot(t, depth))
}

/// The top `STACK_LIMIT` slots of the stack.
pub open spec fn capped(stack: Seq<Set<Symbol>>) -> Seq<Set<Symbol>> {
    if stack.len() <= STACK_LIMIT {
        stack
    } else {
        stack.subrange(stack.len() - STACK_LIMIT, stack.len() as int)
    }
}

/// The state in which a block is entered with the stack `entry`.
pub open spec fn entered(entry: Seq<Set<Symbol>>) -> StackState {
    StackState { stack: entry, taken: 0 }
}

/// The stack with which a block of the instructions `ops` is left when it
/// is entered with `entry`.
pub open spec fn exit_of(ops: Seq<Instruction>, entry: Seq<Set<Symbol>>) -> Seq<Set<Symbol>> {
    capped(run(entered(entry), ops).stack)
}

/// The constants that the target of the terminal jump of `ops` may be
/// when the block is entered with `entry`.
pub open spec fn targets_of(ops: Seq<Instruction>, entry: Seq<Set<Symbol>>) -> Set<Word> {
    concretes(jump_operand(entered(entry), ops))
}

/// The slot `depth` of the stack after `ins`, from the slots before it.
pub open spec fn slot_after(before: Seq<Set<Symbol>>, ins: Instruction, depth: int) -> Set<Word> {
    let op = ins.opcode;
    let need = stack_in(op);
    if depth < 0 {
        Set::empty()
    } else if is_dup(op) {
        if depth == 0 {
            slot(before, need - 1)
        } else {
            slot(before, depth - 1)
        }
    } else if is_swap(op) {
        if depth == 0 {
            slot(before, need - 1)
        } else if depth == need - 1 {
            slot(before, 0)
        } else {
            slot(before, depth)
        }
    } else if stack_out(op) == 1 {
        if depth == 0 {
            concretes(set![produced(ins)])
        } else {
            slot(before, depth - 1 + need)
        }
    } else {
        slot(before, depth + need)
    }
}

/// Unknown entry slots supplied from below hold no constant.
pub proof fn lemma_with_depth_slots(s: StackState, need: nat, depth: int)
    ensures
        slot(with_depth(s, need).stack, depth) == slot(s.stack, depth),
        with_depth(s, need).stack.len() >= need,
        with_depth(s, need).stack.len() >= s.stack.len(),
{
    let t = with_depth(s, need);
    if s.stack.len() < need && 0 <= depth < t.stack.len() {
        let missing = (need - s.stack.len()) as nat;
        let at = t.stack.len() - 1 - depth;
        if depth < s.stack.len() {
            assert(t.stack[at] == s.stack[s.stack.len() - 1 - depth]);
        } else {
            assert(t.stack[at] == entry_slots(s.taken, missing)[at]);
            assert(concretes(t.stack[at]) =~= Set::<Word>::empty());
        }
    }
}

/// What an instruction does to the constants of each slot.
pub proof fn lemma_step_slots(s: StackState, ins: Instruction, depth: int)
    ensures
        slot(step(s, ins).stack, depth) == slot_after(s.stack, ins, depth),
{
    let op = ins.opcode;
    let need = stack_in(op);
    let t = with_depth(s, need as nat);
    let n = t.stack.len() as int;
    let after = step(s, ins).stack;
    lemma_with_depth_slots(s, need as nat, depth);
    lemma_with_depth_slots(s, need as nat, depth - 1);
    lemma_with_depth_slots(s, need as nat, need - 1);
    lemma_with_depth_slots(s, need as nat, 0);
    lemma_with_depth_slots(s, need as nat, depth + need);
    lemma_with_depth_slots(s, need as nat, depth - 1 + need);
    if depth < 0 {
    } else if is_dup(op) {
        if depth > 0 && depth < after.len() {
            assert(after[after.len() - 1 - depth] == t.stack[n - 1 - (depth - 1)]);
        }
    } else if is_swap(op) {
        if depth < after.len() {
            if depth != 0 && depth != need - 1 {
                assert(after[after.len() - 1 - depth] == t.stack[n - 1 - depth]);
            }
        }
    } else if stack_out(op) == 1 {
        if depth > 0 && depth < after.len() {
            assert(after[after.len() - 1 - depth] == t.stack[n - 1 - (depth - 1 + need)]);
        }
    } else {
        if depth < after.len() {
            assert(after[after.len() - 1 - depth] == t.stack[n - 1 - (depth + need)]);
        }
    }
}

/// An instruction keeps the order of stacks.
pub proof fn lemma_step_monotonic(s: StackState, t: StackState, ins: Instruction)
    requires
        below(s.stack, t.stack),
    ensures
        below(step(s, ins).stack, step(t, ins).stack),
{
    let need = stack_in(ins.opcode);
    assert forall|depth: int| #[trigger]
        slot(step(s, ins).stack, depth).subset_of(slot(step(t, ins).stack, depth)) by {
        lemma_step_slots(s, ins, depth);
        lemma_step_slots(t, ins, depth);
        assert(slot(s.stack, depth).subset_of(slot(t.stack, depth)));
        assert(slot(s.stack, depth - 1).subset_of(slot(t.stack, depth - 1)));
        assert(slot(s.stack, need - 1).subset_of(slot(t.stack, need - 1)));
        assert(slot(s.stack, 0).subset_of(slot(t.stack, 0)));
        assert(slot(s.stack, depth + need).subset_of(slot(t.stack, depth + need)));
        assert(slot(s.stack, depth - 1 + need).subset_of(slot(t.stack, depth - 1 + need)));
    }
}

/// A run of instructions keeps the order of stacks.
pub proof fn lemma_run_monotonic(s: StackState, t: StackState, ops: Seq<Instruction>)
    requires
        below(s.stack, t.stack),
    ensures
        below(run(s, ops).stack, run(t, ops).stack),
    decreases ops.len(),
{
    if ops.len() > 0 {
        lemma_run_monotonic(s, t, ops.drop_last());
        lemma_step_monotonic(run(s, ops.drop_last()), run(t, ops.drop_last()), ops.last());
    }
}

/// Cutting stacks to the limit keeps their order.
pub proof fn lemma_capped_monotonic(s: Seq<Set<Symbol>>, t: Seq<Set<Symbol>>)
    requires
        below(s, t),
    ensures
        below(capped(s), capped(t)),
{
    assert forall|depth: int| #[trigger] slot(capped(s), depth).subset_of(slot(capped(t), depth)) by {
        assert(slot(s, depth).subset_of(slot(t, depth)));
        if 0 <= depth < capped(s).len() {
            assert(capped(s)[capped(s).len() - 1 - depth] == s[s.len() - 1 - depth]);
        }
        if 0 <= depth < capped(t).len() {
            assert(capped(t)[capped(t).len() - 1 - depth] == t[t.len() - 1 - depth]);
        }
        if depth >= STACK_LIMIT {
            assert(slot(capped(s), depth) =~= Set::<Word>::empty());
        }
    }
}

/// A block that is entered with a stack that allows more is left with a
/// stack that allows more.
pub proof fn lemma_exit_monotonic(ops: Seq<Instruction>, s: Seq<Set<Symbol>>, t: Seq<Set<Symbol>>)
    requires
        below(s, t),
    ensures
        below(exit_of(ops, s), exit_of(ops, t)),
{
    lemma_run_monotonic(entered(s), entered(t), ops);
    lemma_capped_monotonic(run(entered(s), ops).stack, run(entered(t), ops).stack);
}

/// A block that is entered with a stack that allows more has more
/// constants for the target of its terminal jump.
pub proof fn lemma_targets_monotonic(
    ops: Seq<Instruction>,
    s: Seq<Set<Symbol>>,
    t: Seq<Set<Symbol>>,
)
    requires
        below(s, t),
    ensures
        targets_of(ops, s).subset_of(targets_of(ops, t)),
{
    let a = run(entered(s), ops.drop_last());
    let b = run(entered(t), ops.drop_last());
    lemma_run_monotonic(entered(s), entered(t), ops.drop_last());
    lemma_with_depth_slots(a, 1, 0);
    lemma_with_depth_slots(b, 1, 0);
    assert(slot(a.stack, 0).subset_of(slot(b.stack, 0)));
    assert(targets_of(ops, s) == slot(with_depth(a, 1).stack, 0));
    assert(targets_of(ops, t) == slot(with_depth(b, 1).stack, 0));
}

/// The order of stacks is transitive.
pub proof fn lemma_below_transitive(a: Seq<Set<Symbol>>, b: Seq<Set<Symbol>>, c: Seq<Set<Symbol>>)
    requires
        below(a, b),
        below(b, c),
    ensures
        below(a, c),
{
    assert forall|depth: int| #[trigger] slot(a, depth).subset_of(slot(c, depth)) by {
        assert(slot(a, depth).subset_of(slot(b, depth)));
        assert(slot(b, depth).subset_of(slot(c, depth)));
    }
}

/// The constants of a union are those of its parts.
pub proof fn lemma_concretes_of_union(a: Set<Symbol>, b: Set<Symbol>)
    ensures
        concretes(a.union(b)) == concretes(a).union(concretes(b)),
{
    assert(concretes(a.union(b)) =~= concretes(a).union(concretes(b)));
}

/// The symbols of a slot as a list.
pub fn atoms_list(e: &SymbolicElement) -> (list: Vec<Symbol>)
    ensures
        list@.to_set() == e.atoms(),
{
    let mut list: Vec<Symbol> = Vec::new();
    match e {
        SymbolicElement::Concrete(w) => {
            list.push(Symbol::Concrete(*w));
        },
        SymbolicElement::CalldataWord => {
            list.push(Symbol::CalldataWord);
        },
        SymbolicElement::StorageWord => {
            list.push(Symbol::StorageWord);
        },
        SymbolicElement::Opaque(id) => {
            list.push(Symbol::Opaque(*id));
        },
        SymbolicElement::Phi(alternatives) => {
            let mut i: usize = 0;
            while i < alternatives.len()
                invariant
                    i <= alternatives.len(),
                    list@ == alternatives@.take(i as int),
                decreases alternatives.len() - i,
            {
                list.push(alternatives[i]);
                i = i + 1;
                assert(alternatives@.take(i as int) =~= alternatives@.take(i - 1).push(
                    alternatives[i - 1],
                ));
            }
            assert(alternatives@.take(alternatives.len() as int) =~= alternatives@);
        },
    }
    proof {
        if !(e is Phi) {
            assert(list@ =~= seq![e.symbol()]);
            assert(list@[0] == e.symbol());
            assert(list@.to_set() =~= e.atoms());
        }
    }
    list
}

/// Whether the list holds the symbol.
pub fn list_holds(list: &Vec<Symbol>, symbol: Symbol) -> (found: bool)
    ensures
        found == list@.contains(symbol),
{
    let mut i: usize = 0;
    while i < list.len()
        invariant
            i <= list.len(),
            forall|k: int| 0 <= k < i ==> list[k] != symbol,
        decreases list.len() - i,
    {
        if list[i] == symbol {
            return true;
        }
        i = i + 1;
    }
    false
}

/// The slot that may hold what `a` may hold and what `b` may hold, and
/// whether `b` brought a symbol that `a` lacks.
pub fn merge(a: &SymbolicElement, b: &SymbolicElement) -> (merged: (SymbolicElement, bool))
    ensures
        merged.0.atoms() == a.atoms().union(b.atoms()),
        !merged.1 ==> b.atoms().subset_of(a.atoms()),
{
    let mut list = atoms_list(a);
    let extra = atoms_list(b);
    let mut grew = false;
    let mut i: usize = 0;
    while i < extra.len()
        invariant
            i <= extra.len(),
            extra@.to_set() == b.atoms(),
            list@.to_set() == a.atoms().union(extra@.take(i as int).to_set()),
            !grew ==> extra@.take(i as int).to_set().subset_of(a.atoms()),
        decreases extra.len() - i,
    {
        let symbol = extra[i];
        let ghost before = list@;
        if !list_holds(&list, symbol) {
            list.push(symbol);
            grew = true;
        }
        proof {
            let done = extra@.take(i as int);
            if !grew {
                assert(before.to_set().contains(symbol));
                assert(a.atoms().contains(symbol));
            }
            let next = extra@.take(i + 1);
            assert(next =~= done.push(symbol));
            assert(next.to_set() =~= done.to_set().insert(symbol)) by {
                assert forall|x: Symbol| next.to_set().contains(x) <==> done.to_set().insert(
                    symbol,
                ).contains(x) by {
                    if done.contains(x) {
                        let at = choose|at: int| 0 <= at < done.len() && done[at] == x;
                        assert(next[at] == x);
                    }
                    if x == symbol {
                        assert(next[i as int] == x);
                    }
                    if next.contains(x) {
                        let at = choose|at: int| 0 <= at < next.len() && next[at] == x;
                        if at < i {
                            assert(done[at] == x);
                        }
                    }
                }
            }
            assert(list@.to_set() =~= a.atoms().union(next.to_set())) by {
                assert forall|x: Symbol| list@.to_set().contains(x) <==> a.atoms().union(
                    next.to_set(),
                ).contains(x) by {
                    if before.contains(x) {
                        let at = choose|at: int| 0 <= at < before.len() && before[at] == x;
                        assert(list@[at] == x);
                        assert(before.to_set().contains(x));
                    }
                    if list@.contains(x) {
                        let at = choose|at: int| 0 <= at < list@.len() && list@[at] == x;
                        if at < before.len() {
                            assert(before[at] == x);
                            assert(before.to_set().contains(x));
                        }
                    }
                    if before.to_set().contains(x) {
                        assert(before.contains(x));
                    }
                    if x == symbol && !before.contains(symbol) {
                        assert(list@[list@.len() - 1] == x);
                    }
                }
            }
        }
        i = i + 1;
    }
    proof {
        assert(extra@.take(extra.len() as int) =~= extra@);
    }
    if grew {
        (SymbolicElement::Phi(list), true)
    } else {
        (a.duplicate(), false)
    }
}

/// The symbols that the slot `depth` below the top may hold; none where
/// the stack is not that deep.
pub open spec fn atoms_at(stack: Seq<Set<Symbol>>, depth: int) -> Set<Symbol> {
    if 0 <= depth < stack.len() {
        stack[stack.len() - 1 - depth]
    } else {
        Set::empty()
    }
}

/// A copy of the stack.
pub fn duplicate_stack(stack: &Vec<SymbolicElement>) -> (copy: Vec<SymbolicElement>)
    ensures
        stack_view(copy@) == stack_view(stack@),
{
    let mut copy: Vec<SymbolicElement> = Vec::new();
    let mut i: usize = 0;
    while i < stack.len()
        invariant
            i <= stack.len(),
            copy.len() == i,
            forall|k: int| 0 <= k < i ==> (#[trigger] copy[k]).atoms() == stack[k].atoms(),
        decreases stack.len() - i,
    {
        copy.push(stack[i].duplicate());
        i = i + 1;
    }
    assert(stack_view(copy@) =~= stack_view(stack@));
    copy
}

/// Number of constants that the top `upto` slots of the stack allow
/// together.
pub open spec fn slot_count(stack: Seq<Set<Symbol>>, upto: nat) -> nat
    decreases upto,
{
    if upto == 0 {
        0
    } else {
        slot_count(stack, (upto - 1) as nat) + slot(stack, upto - 1).len()
    }
}

/// Number of constants that the slots of the stack allow together.
pub open spec fn stack_weight(stack: Seq<Set<Symbol>>) -> nat {
    slot_count(stack, stack.len())
}

/// Whether every slot of the stack allows finitely many constants.
pub open spec fn finite_stack(stack: Seq<Set<Symbol>>) -> bool {
    forall|depth: int| #[trigger] slot(stack, depth).finite()
}

/// The constant of a symbol; zero for a symbol that is none.
pub open spec fn constant_of(symbol: Symbol) -> Word {
    match symbol {
        Symbol::Concrete(w) => w,
        _ => Word { hi: 0, lo: 0 },
    }
}

/// Finitely many symbols hold finitely many constants.
pub proof fn lemma_concretes_finite(atoms: Set<Symbol>)
    requires
        atoms.finite(),
    ensures
        concretes(atoms).finite(),
{
    let image = atoms.map(|symbol: Symbol| constant_of(symbol));
    atoms.lemma_map_finite(|symbol: Symbol| constant_of(symbol));
    assert(concretes(atoms).subset_of(image)) by {
        assert forall|w: Word| concretes(atoms).contains(w) implies image.contains(w) by {
            assert(atoms.contains(Symbol::Concrete(w)));
            assert(constant_of(Symbol::Concrete(w)) == w);
        }
    }
    vstd::set_lib::lemma_len_subset(concretes(atoms), image);
}

/// A stack that the solver holds allows finitely many constants.
pub proof fn lemma_held_stack_finite(stack: Seq<SymbolicElement>)
    ensures
        finite_stack(stack_view(stack)),
{
    broadcast use {vstd::set::group_set_axioms, vstd::seq_lib::seq_to_set_is_finite};

    let view = stack_view(stack);
    assert forall|depth: int| #[trigger] slot(view, depth).finite() by {
        if 0 <= depth < view.len() {
            let e = stack[stack.len() - 1 - depth];
            assert(view[view.len() - 1 - depth] == e.atoms());
            assert(e.atoms().finite());
            lemma_concretes_finite(e.atoms());
        }
    }
}

/// Slots beyond the stack allow no constant.
pub proof fn lemma_slot_count_beyond(stack: Seq<Set<Symbol>>, upto: nat)
    requires
        upto >= stack.len(),
    ensures
        slot_count(stack, upto) == stack_weight(stack),
    decreases upto,
{
    broadcast use vstd::set::group_set_axioms;

    if upto > stack.len() {
        lemma_slot_count_beyond(stack, (upto - 1) as nat);
        assert(slot(stack, upto - 1) =~= Set::<Word>::empty());
    }
}

/// A stack that allows as much allows as many constants.
pub proof fn lemma_slot_count_monotonic(s: Seq<Set<Symbol>>, t: Seq<Set<Symbol>>, upto: nat)
    requires
        below(s, t),
        finite_stack(t),
    ensures
        slot_count(s, upto) <= slot_count(t, upto),
    decreases upto,
{
    if upto > 0 {
        lemma_slot_count_monotonic(s, t, (upto - 1) as nat);
        assert(slot(s, upto - 1).subset_of(slot(t, upto - 1)));
        assert(slot(t, upto - 1).finite());
        vstd::set_lib::lemma_len_subset(slot(s, upto - 1), slot(t, upto - 1));
    }
}

/// A stack that allows as much and one constant more allows more
/// constants.
pub proof fn lemma_slot_count_strict(
    s: Seq<Set<Symbol>>,
    t: Seq<Set<Symbol>>,
    upto: nat,
    depth: int,
    w: Word,
)
    requires
        below(s, t),
        finite_stack(t),
        0 <= depth < upto,
        slot(t, depth).contains(w),
        !slot(s, depth).contains(w),
    ensures
        slot_count(s, upto) < slot_count(t, upto),
    decreases upto,
{
    assert(slot(s, upto - 1).subset_of(slot(t, upto - 1)));
    assert(slot(t, upto - 1).finite());
    if depth == upto - 1 {
        lemma_slot_count_monotonic(s, t, (upto - 1) as nat);
        slot(s, depth).lemma_subset_not_in_lt(slot(t, depth), w);
    } else {
        lemma_slot_count_strict(s, t, (upto - 1) as nat, depth, w);
        vstd::set_lib::lemma_len_subset(slot(s, upto - 1), slot(t, upto - 1));
    }
}

/// A stack that allows as much allows as many constants.
pub proof fn lemma_weight_monotonic(s: Seq<Set<Symbol>>, t: Seq<Set<Symbol>>)
    requires
        below(s, t),
        finite_stack(t),
    ensures
        stack_weight(s) <= stack_weight(t),
{
    let upto = if s.len() >= t.len() {
        s.len()
    } else {
        t.len()
    };
    lemma_slot_count_beyond(s, upto);
    lemma_slot_count_beyond(t, upto);
    lemma_slot_count_monotonic(s, t, upto);
}

/// A stack that allows as much and one constant more allows more
/// constants.
pub proof fn lemma_weight_strict(s: Seq<Set<Symbol>>, t: Seq<Set<Symbol>>, depth: int, w: Word)
    requires
        below(s, t),
        finite_stack(t),
        slot(t, depth).contains(w),
        !slot(s, depth).contains(w),
    ensures
        stack_weight(s) < stack_weight(t),
{
    let upto = if s.len() >= t.len() {
        s.len()
    } else {
        t.len()
    };
    lemma_slot_count_beyond(s, upto);
    lemma_slot_count_beyond(t, upto);
    lemma_slot_count_strict(s, t, upto, depth, w);
}

/// A constant that `b` may hold and `a` may not, if there is one.
pub fn fresh_constant(a: &SymbolicElement, b: &SymbolicElement) -> (fresh: Option<Word>)
    ensures
        fresh is Some ==> b.atoms().contains(Symbol::Concrete(fresh->0)) && !a.atoms().contains(
            Symbol::Concrete(fresh->0),
        ),
        fresh is None ==> concretes(b.atoms()).subset_of(concretes(a.atoms())),
{
    let known = atoms_list(a);
    let extra = atoms_list(b);
    let mut i: usize = 0;
    while i < extra.len()
        invariant
            i <= extra.len(),
            known@.to_set() == a.atoms(),
            extra@.to_set() == b.atoms(),
            forall|k: int|
                0 <= k < i && (#[trigger] extra[k]) is Concrete ==> a.atoms().contains(extra[k]),
        decreases extra.len() - i,
    {
        match extra[i] {
            Symbol::Concrete(w) => {
                if !list_holds(&known, Symbol::Concrete(w)) {
                    proof {
                        assert(extra@.to_set().contains(extra@[i as int]));
                        assert(!known@.to_set().contains(Symbol::Concrete(w)));
                    }
                    return Some(w);
                }
                proof {
                    assert(known@.to_set().contains(Symbol::Concrete(w)));
                }
            },
            _ => {},
        }
        i = i + 1;
    }
    proof {
        assert forall|w: Word| concretes(b.atoms()).contains(w) implies concretes(
            a.atoms(),
        ).contains(w) by {
            assert(extra@.to_set().contains(Symbol::Concrete(w)));
            let k = choose|k: int| 0 <= k < extra@.len() && extra@[k] == Symbol::Concrete(w);
            assert(extra[k] == Symbol::Concrete(w));
        }
    }
    None
}

/// The stack that allows, slot for slot from the top, what `old` allows
/// and what `new` allows, and whether `new` brought a constant that `old`
/// does not allow. Where it did, the joined stack allows more constants
/// than `old`.
pub fn join_stacks(old: &Vec<SymbolicElement>, new: &Vec<SymbolicElement>) -> (joined: (
    Vec<SymbolicElement>,
    bool,
))
    ensures
        forall|depth: int| #[trigger]
            slot(stack_view(joined.0@), depth) == slot(stack_view(old@), depth).union(
                slot(stack_view(new@), depth),
            ),
        !joined.1 ==> below(stack_view(new@), stack_view(old@)),
        joined.1 ==> stack_weight(stack_view(joined.0@)) > stack_weight(stack_view(old@)),
{
    let height = if old.len() >= new.len() {
        old.len()
    } else {
        new.len()
    };
    let ghost a = stack_view(old@);
    let ghost b = stack_view(new@);
    let mut out: Vec<SymbolicElement> = Vec::new();
    let mut changed = false;
    let ghost mut found_depth: int = 0;
    let ghost mut found: Word = Word { hi: 0, lo: 0 };
    let mut at: usize = 0;
    while at < height
        invariant
            changed ==> 0 <= found_depth < height && atoms_at(b, found_depth).contains(
                Symbol::Concrete(found),
            ) && !atoms_at(a, found_depth).contains(Symbol::Concrete(found)),
            at <= height,
            height >= old.len(),
            height >= new.len(),
            height == old.len() || height == new.len(),
            a == stack_view(old@),
            b == stack_view(new@),
            out.len() == at,
            forall|k: int|
                0 <= k < at ==> (#[trigger] out[k]).atoms() == atoms_at(a, height - 1 - k).union(
                    atoms_at(b, height - 1 - k),
                ),
            !changed ==> forall|k: int|
                0 <= k < at ==> concretes(#[trigger] atoms_at(b, height - 1 - k)).subset_of(
                    concretes(atoms_at(a, height - 1 - k)),
                ),
        decreases height - at,
    {
        let depth = height - 1 - at;
        let element = if depth < old.len() && depth < new.len() {
            let (merged, _) = merge(&old[old.len() - 1 - depth], &new[new.len() - 1 - depth]);
            match fresh_constant(&old[old.len() - 1 - depth], &new[new.len() - 1 - depth]) {
                Some(w) => {
                    changed = true;
                    proof {
                        found_depth = depth as int;
                        found = w;
                    }
                },
                None => {},
            }
            merged
        } else if depth < old.len() {
            proof {
                assert(concretes(atoms_at(b, depth as int)) =~= Set::<Word>::empty());
            }
            old[old.len() - 1 - depth].duplicate()
        } else {
            let nothing = SymbolicElement::Phi(Vec::new());
            proof {
                assert(nothing.atoms() =~= atoms_at(a, depth as int));
            }
            match fresh_constant(&nothing, &new[new.len() - 1 - depth]) {
                Some(w) => {
                    changed = true;
                    proof {
                        found_depth = depth as int;
                        found = w;
                    }
                },
                None => {},
            }
            new[new.len() - 1 - depth].duplicate()
        };
        proof {
            assert(element.atoms() =~= atoms_at(a, depth as int).union(atoms_at(b, depth as int)));
        }
        out.push(element);
        at = at + 1;
    }
    proof {
        let j = stack_view(out@);
        assert forall|depth: int| #[trigger]
            slot(j, depth) == slot(a, depth).union(slot(b, depth)) by {
            if 0 <= depth < height {
                let k = height - 1 - depth;
                assert(j[k] == out[k].atoms());
                lemma_concretes_of_union(atoms_at(a, depth), atoms_at(b, depth));
                assert(concretes(atoms_at(a, depth)) =~= slot(a, depth));
                assert(concretes(atoms_at(b, depth)) =~= slot(b, depth));
            } else {
                assert(slot(j, depth) =~= slot(a, depth).union(slot(b, depth)));
            }
        }
        if !changed {
            assert forall|depth: int| #[trigger] slot(b, depth).subset_of(slot(a, depth)) by {
                if 0 <= depth < height {
                    let k = height - 1 - depth;
                    assert(concretes(atoms_at(b, height - 1 - k)).subset_of(
                        concretes(atoms_at(a, height - 1 - k)),
                    ));
                    assert(concretes(atoms_at(a, depth)) =~= slot(a, depth));
                    assert(concretes(atoms_at(b, depth)) =~= slot(b, depth));
                }
            }
        } else {
            assert(concretes(atoms_at(a, found_depth)) =~= slot(a, found_depth));
            assert(concretes(atoms_at(b, found_depth)) =~= slot(b, found_depth));
            assert(slot(j, found_depth).contains(found));
            assert(below(a, j)) by {
                assert forall|depth: int| #[trigger] slot(a, depth).subset_of(slot(j, depth)) by {
                    assert(slot(j, depth) == slot(a, depth).union(slot(b, depth)));
                }
            }
            lemma_held_stack_finite(out@);
            lemma_weight_strict(a, j, found_depth, found);
        }
    }
    (out, changed)
}

/// The top `STACK_LIMIT` slots of the stack.
pub fn cap_stack(stack: Vec<SymbolicElement>) -> (top: Vec<SymbolicElement>)
    ensures
        stack_view(top@) == capped(stack_view(stack@)),
{
    if stack.len() <= STACK_LIMIT {
        return stack;
    }
    let skip = stack.len() - STACK_LIMIT;
    let mut top: Vec<SymbolicElement> = Vec::new();
    let mut i: usize = 0;
    while i < STACK_LIMIT
        invariant
            i <= STACK_LIMIT,
            skip == stack.len() - STACK_LIMIT,
            stack.len() > STACK_LIMIT,
            top.len() == i,
            forall|k: int| 0 <= k < i ==> (#[trigger] top[k]).atoms() == stack[skip + k].atoms(),
        decreases STACK_LIMIT - i,
    {
        top.push(stack[skip + i].duplicate());
        i = i + 1;
    }
    assert(stack_view(top@) =~= capped(stack_view(stack@)));
    top
}

/// Whether the block can be run on a symbolic stack: it has no more
/// instructions than a code has bytes, and its pushes carry their
/// immediates.
pub open spec fn runnable(block: InstructionBlock) -> bool {
    &&& block.ops.len() <= MAX_CODE_LEN
    &&& forall|j: int| 0 <= j < block.ops.len() ==> carries_immediate(#[trigger] block.ops[j])
}

/// Runs the block on the stack `entry`: the slot that holds the target
/// when a terminal jump is reached, and the stack at the block's exit.
pub fn transfer(block: &InstructionBlock, entry: &Vec<SymbolicElement>) -> (result: (
    Option<SymbolicElement>,
    Vec<SymbolicElement>,
))
    requires
        runnable(*block),
    ensures
        stack_view(result.1@) == exit_of(block.ops@, stack_view(entry@)),
        ends_with_jump(block.ops@) ==> result.0 is Some && result.0->0.atoms() == jump_operand(
            entered(stack_view(entry@)),
            block.ops@,
        ),
{
    let mut stack = duplicate_stack(entry);
    let mut taken: u32 = 0;
    let mut operand: Option<SymbolicElement> = None;
    let count = block.ops.len();
    let ghost start = entered(stack_view(entry@));
    let mut j: usize = 0;
    proof {
        assert(block.ops@.take(0) =~= Seq::<Instruction>::empty());
    }
    while j < count
        invariant
            j <= count,
            count == block.ops.len(),
            runnable(*block),
            start == entered(stack_view(entry@)),
            taken <= 17 * j,
            state_of(stack@, taken) == run(start, block.ops@.take(j as int)),
            j == count && ends_with_jump(block.ops@) ==> operand is Some && operand->0.atoms()
                == jump_operand(start, block.ops@),
        decreases count - j,
    {
        let ins = &block.ops[j];
        if j + 1 == count && (ins.opcode == JUMP || ins.opcode == JUMPI) {
            let top = peek_top(&stack, taken);
            proof {
                assert(block.ops@.drop_last() =~= block.ops@.take(j as int));
            }
            operand = Some(top);
        }
        apply_instruction(&mut stack, &mut taken, ins);
        proof {
            assert(block.ops@.take(j + 1).drop_last() =~= block.ops@.take(j as int));
            assert(block.ops@.take(j + 1).last() == block.ops@[j as int]);
        }
        j = j + 1;
    }
    assert(block.ops@.take(count as int) =~= block.ops@);
    (operand, cap_stack(stack))
}

} // verus!
