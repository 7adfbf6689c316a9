use crate::cfg_gen::cfg_graph::{
    key, lemma_start_determines_block, CFGRunner, Edges,
};
use crate::cfg_gen::dag::{dag_add_edge, dag_edge_label, dag_targets, Node};
use crate::cfg_gen::dasm::{block_matches, instruction_at, is_disassembly, InstructionBlock};
use crate::cfg_gen::lattice::{
    atoms_list, below, concretes, duplicate_stack, exit_of, finite_stack, join_stacks,
    lemma_below_transitive, lemma_exit_monotonic, lemma_targets_monotonic,
    lemma_weight_monotonic, runnable, slot, stack_weight, targets_of, transfer,
};
use crate::cfg_gen::opcode::{JUMP, JUMPI};
use crate::cfg_gen::stack_info::ends_with_jump;
use crate::cfg_gen::symbolic::{stack_view, Symbol, SymbolicElement};
use crate::cfg_gen::word::Word;
use std::collections::HashSet;
use std::collections::VecDeque;
use vstd::prelude::*;

verus! {

/// How a run of the solver ended.
#[derive(Clone, Copy, Debug, PartialEq, Eq)]
pub struct SolverOutcome {
    /// Whether the solver came to rest; else it stopped at its budget and
    /// the graph may lack edges.
    pub converged: bool,
    /// Number of blocks that were taken from the worklist.
    pub iterations: usize,
}

/// The entry stacks of the blocks, as far as the solver has reached them.
pub type Entries = Seq<Option<Seq<Set<Symbol>>>>;

/// The entry stacks that the solver holds, as sets of symbols.
pub open spec fn entries_view(entries: Seq<Option<Vec<SymbolicElement>>>) -> Entries {
    entries.map_values(
        |o: Option<Vec<SymbolicElement>>|
            match o {
                Some(stack) => Some(stack_view(stack@)),
                None => None,
            },
    )
}

/// Whether the block ends in a jump whose target it did not push itself.
pub open spec fn is_indirect(b: InstructionBlock) -> bool {
    ends_with_jump(b.ops@) && b.indirect_jump is Some
}

/// The pair of nodes of an edge from `blocks[i]` to `blocks[j]`.
pub open spec fn edge(blocks: Seq<InstructionBlock>, i: int, j: int) -> (Node, Node) {
    (key(blocks[i]), key(blocks[j]))
}

/// Whether the indirect jump of `blocks[i]`, entered with `entry`, may go
/// to `blocks[j]`: the start of that block is a valid jump destination
/// and one of the constants that the target may be.
pub open spec fn aims_at(
    blocks: Seq<InstructionBlock>,
    valid: Set<u16>,
    i: int,
    entry: Seq<Set<Symbol>>,
    j: int,
) -> bool {
    &&& is_indirect(blocks[i])
    &&& valid.contains(blocks[j].start_pc)
    &&& exists|w: Word| #[trigger]
        targets_of(blocks[i].ops@, entry).contains(w) && w.pc() == Some(blocks[j].start_pc)
}

/// Whether nothing is left to do for `blocks[i]`: every edge from it
/// leads to a block whose entry stack allows what the block leaves, and
/// every block that its indirect jump may go to has its edge.
pub open spec fn settled(
    blocks: Seq<InstructionBlock>,
    valid: Set<u16>,
    edges: Set<(Node, Node)>,
    ev: Entries,
    i: int,
) -> bool {
    &&& forall|j: int|
        0 <= j < blocks.len() && edges.contains(#[trigger] edge(blocks, i, j)) ==> ev[j] is Some
            && below(exit_of(blocks[i].ops@, ev[i]->0), ev[j]->0)
    &&& forall|j: int|
        0 <= j < blocks.len() && #[trigger] aims_at(blocks, valid, i, ev[i]->0, j)
            ==> edges.contains(edge(blocks, i, j))
}

/// Whether the edges are complete for the entry stacks `ev`: the first
/// block is entered, and nothing is left to do for any block that is.
pub open spec fn closed(
    blocks: Seq<InstructionBlock>,
    valid: Set<u16>,
    edges: Set<(Node, Node)>,
    ev: Entries,
) -> bool {
    &&& ev.len() == blocks.len()
    &&& blocks.len() > 0 ==> ev[0] is Some
    &&& forall|i: int|
        0 <= i < blocks.len() && (#[trigger] ev[i]) is Some ==> settled(blocks, valid, edges, ev, i)
}

/// Whether `e` enters every block that `ev` enters, with a stack that
/// allows as much.
pub open spec fn entries_below(ev: Entries, e: Entries) -> bool {
    &&& ev.len() == e.len()
    &&& forall|i: int|
        0 <= i < ev.len() && (#[trigger] ev[i]) is Some ==> e[i] is Some && below(ev[i]->0, e[i]->0)
}

/// Whether `edges` and `ev` hold nothing that could be left out: they lie
/// within every complete set of edges that holds `start`, and within its
/// entry stacks.
pub open spec fn sound(
    blocks: Seq<InstructionBlock>,
    valid: Set<u16>,
    start: Set<(Node, Node)>,
    edges: Set<(Node, Node)>,
    ev: Entries,
) -> bool {
    forall|x: Set<(Node, Node)>, e: Entries| #[trigger]
        closed(blocks, valid, x, e) && start.subset_of(x) ==> edges.subset_of(x) && entries_below(
            ev,
            e,
        )
}

/// Whether `edges` lies within every complete set of edges that holds
/// `start`.
pub open spec fn minimal(
    blocks: Seq<InstructionBlock>,
    valid: Set<u16>,
    start: Set<(Node, Node)>,
    edges: Set<(Node, Node)>,
) -> bool {
    forall|x: Set<(Node, Node)>, e: Entries| #[trigger]
        closed(blocks, valid, x, e) && start.subset_of(x) ==> edges.subset_of(x)
}

/// Whether `k` joins a block with an indirect jump to a block that starts
/// at a valid jump destination.
pub open spec fn is_solver_edge(
    blocks: Seq<InstructionBlock>,
    valid: Set<u16>,
    k: (Node, Node),
) -> bool {
    exists|i: int, j: int|
        0 <= i < blocks.len() && 0 <= j < blocks.len() && k == #[trigger] edge(blocks, i, j)
            && is_indirect(blocks[i]) && valid.contains(blocks[j].start_pc)
}

/// Whether `after` is `before` with edges of the solver added: what was
/// there is as it was, and each new edge is a symbolic jump from a block
/// with an indirect jump to a valid jump destination.
pub open spec fn extends(
    blocks: Seq<InstructionBlock>,
    valid: Set<u16>,
    before: Map<(Node, Node), Edges>,
    after: Map<(Node, Node), Edges>,
) -> bool {
    &&& forall|k: (Node, Node)| #[trigger]
        before.dom().contains(k) ==> after.contains_pair(k, before[k])
    &&& forall|k: (Node, Node)| #[trigger]
        after.dom().contains(k) && !before.dom().contains(k) ==> after[k] == Edges::SymbolicJump
            && is_solver_edge(blocks, valid, k)
}

/// Number of blocks that a run of the solver takes from its worklist at
/// most: eight times the number of blocks.
pub open spec fn budget(blocks: nat) -> nat {
    if blocks <= 0x1000_0000 {
        8 * blocks
    } else {
        0x8000_0000
    }
}

/// What an entry stack weighs: one for a block that is entered, and one
/// for every constant that a slot of its stack allows.
pub open spec fn entry_weight(entry: Option<Seq<Set<Symbol>>>) -> nat {
    match entry {
        Some(stack) => 1 + stack_weight(stack),
        None => 0,
    }
}

/// What the entry stacks of the first `upto` blocks weigh together.
pub open spec fn entries_weight(ev: Entries, upto: nat) -> nat
    decreases upto,
{
    if upto == 0 {
        0
    } else {
        entries_weight(ev, (upto - 1) as nat) + entry_weight(ev[upto - 1])
    }
}

/// What the entry stacks weigh together.
pub open spec fn total_weight(ev: Entries) -> nat {
    entries_weight(ev, ev.len())
}

/// Whether every slot of every entry stack allows finitely many
/// constants.
pub open spec fn finite_entries(ev: Entries) -> bool {
    forall|i: int| 0 <= i < ev.len() && (#[trigger] ev[i]) is Some ==> finite_stack(ev[i]->0)
}

/// Whether a run that took `iterations` blocks from its worklist has
/// worked for each: there are entry stacks that hold nothing that could
/// be left out and weigh as much as blocks were taken.
pub open spec fn has_worked(
    blocks: Seq<InstructionBlock>,
    valid: Set<u16>,
    start: Set<(Node, Node)>,
    edges: Set<(Node, Node)>,
    iterations: nat,
) -> bool {
    exists|ev: Entries| #[trigger]
        sound(blocks, valid, start, edges, ev) && iterations <= total_weight(ev)
}

/// Entry stacks that allow as much weigh as much.
pub proof fn lemma_entries_weight_monotonic(ev: Entries, e: Entries, upto: nat)
    requires
        entries_below(ev, e),
        finite_entries(e),
        upto <= ev.len(),
    ensures
        entries_weight(ev, upto) <= entries_weight(e, upto),
    decreases upto,
{
    if upto > 0 {
        lemma_entries_weight_monotonic(ev, e, (upto - 1) as nat);
        if ev[upto - 1] is Some {
            assert(e[upto - 1] is Some && below(ev[upto - 1]->0, e[upto - 1]->0));
            assert(finite_stack(e[upto - 1]->0));
            lemma_weight_monotonic(ev[upto - 1]->0, e[upto - 1]->0);
        }
    }
}

/// A run of the solver takes no more blocks from its worklist than the
/// entry stacks of any complete set of edges weigh. So a run that stops
/// at its budget shows that every complete set weighs as much as the
/// budget: where one weighs less, the solver comes to rest.
pub proof fn lemma_rest_is_owed(
    blocks: Seq<InstructionBlock>,
    valid: Set<u16>,
    start: Set<(Node, Node)>,
    edges: Set<(Node, Node)>,
    iterations: nat,
    x: Set<(Node, Node)>,
    e: Entries,
)
    requires
        has_worked(blocks, valid, start, edges, iterations),
        closed(blocks, valid, x, e),
        start.subset_of(x),
        finite_entries(e),
    ensures
        iterations <= total_weight(e),
{
    let ev = choose|ev: Entries| #[trigger]
        sound(blocks, valid, start, edges, ev) && iterations <= total_weight(ev);
    assert(entries_below(ev, e));
    lemma_entries_weight_monotonic(ev, e, ev.len());
}

/// Where a complete set of edges has entry stacks that weigh less than
/// the budget, a run of the solver comes to rest.
pub proof fn lemma_rest_within_budget(
    blocks: Seq<InstructionBlock>,
    valid: Set<u16>,
    start: Set<(Node, Node)>,
    edges: Set<(Node, Node)>,
    outcome: SolverOutcome,
    x: Set<(Node, Node)>,
    e: Entries,
)
    requires
        has_worked(blocks, valid, start, edges, outcome.iterations as nat),
        !outcome.converged ==> outcome.iterations == budget(blocks.len()),
        closed(blocks, valid, x, e),
        start.subset_of(x),
        finite_entries(e),
        total_weight(e) < budget(blocks.len()),
    ensures
        outcome.converged,
{
    lemma_rest_is_owed(blocks, valid, start, edges, outcome.iterations as nat, x, e);
}

/// What the entry stacks weigh after one of them is put anew.
proof fn lemma_weight_after_update(
    ev: Entries,
    j: int,
    entry: Option<Seq<Set<Symbol>>>,
    upto: nat,
)
    requires
        0 <= j < ev.len(),
        upto <= ev.len(),
    ensures
        entries_weight(ev.update(j, entry), upto) + (if j < upto {
            entry_weight(ev[j])
        } else {
            0
        }) == entries_weight(ev, upto) + (if j < upto {
            entry_weight(entry)
        } else {
            0
        }),
    decreases upto,
{
    if upto > 0 {
        lemma_weight_after_update(ev, j, entry, (upto - 1) as nat);
    }
}

/// Entry stacks of blocks that are not entered weigh nothing.
proof fn lemma_weight_of_none(ev: Entries, upto: nat)
    requires
        upto <= ev.len(),
        forall|i: int| 0 <= i < ev.len() ==> (#[trigger] ev[i]) is None,
    ensures
        entries_weight(ev, upto) == 0,
    decreases upto,
{
    if upto > 0 {
        lemma_weight_of_none(ev, (upto - 1) as nat);
    }
}

/// Whether every block has its node in the graph.
pub open spec fn holds_all_blocks(cfg: CFGRunner) -> bool {
    forall|i: int|
        0 <= i < cfg.map_to_instructionblock.len() ==> cfg.nodes().contains(
            key(#[trigger] cfg.map_to_instructionblock[i]),
        )
}

/// Every block of a disassembly can be run on a symbolic stack.
pub proof fn lemma_blocks_runnable(code: Seq<u8>, blocks: Seq<InstructionBlock>, i: int)
    requires
        is_disassembly(code, blocks),
        0 <= i < blocks.len(),
    ensures
        runnable(blocks[i]),
{
    let b = blocks[i];
    assert(block_matches(code, b));
    assert forall|j: int| 0 <= j < b.ops.len() implies crate::cfg_gen::symbolic::carries_immediate(
        #[trigger] b.ops[j],
    ) by {
        assert(instruction_at(code, b.ops[j]));
    }
}

/// An edge to a possible target of an indirect jump keeps the edges
/// within every complete set.
proof fn lemma_edge_is_sound(
    blocks: Seq<InstructionBlock>,
    valid: Set<u16>,
    start: Set<(Node, Node)>,
    edges: Set<(Node, Node)>,
    ev: Entries,
    i: int,
    j: int,
)
    requires
        sound(blocks, valid, start, edges, ev),
        ev.len() == blocks.len(),
        0 <= i < blocks.len(),
        0 <= j < blocks.len(),
        ev[i] is Some,
        aims_at(blocks, valid, i, ev[i]->0, j),
    ensures
        sound(blocks, valid, start, edges.insert(edge(blocks, i, j)), ev),
{
    assert forall|x: Set<(Node, Node)>, e: Entries| #[trigger]
        closed(blocks, valid, x, e) && start.subset_of(x) implies edges.insert(
        edge(blocks, i, j),
    ).subset_of(x) && entries_below(ev, e) by {
        assert(edges.subset_of(x) && entries_below(ev, e));
        assert(e[i] is Some && below(ev[i]->0, e[i]->0));
        lemma_targets_monotonic(blocks[i].ops@, ev[i]->0, e[i]->0);
        let w = choose|w: Word| #[trigger]
            targets_of(blocks[i].ops@, ev[i]->0).contains(w) && w.pc() == Some(
                blocks[j].start_pc,
            );
        assert(targets_of(blocks[i].ops@, e[i]->0).contains(w));
        assert(aims_at(blocks, valid, i, e[i]->0, j));
        assert(settled(blocks, valid, x, e, i));
    }
}

/// The constants that `old`, if that is there, and `exit` allow together
/// for the slot `depth`.
pub open spec fn joint_slot(
    old: Option<Seq<Set<Symbol>>>,
    exit: Seq<Set<Symbol>>,
    depth: int,
) -> Set<Word> {
    match old {
        Some(o) => slot(o, depth).union(slot(exit, depth)),
        None => slot(exit, depth),
    }
}

/// Whether `joined` allows no more than `old`, if that is there, and
/// `exit` allow together.
pub open spec fn is_join(
    old: Option<Seq<Set<Symbol>>>,
    exit: Seq<Set<Symbol>>,
    joined: Seq<Set<Symbol>>,
) -> bool {
    forall|depth: int| #[trigger] slot(joined, depth).subset_of(joint_slot(old, exit, depth))
}

/// Joining what a block leaves into the entry stack of a block that it
/// has an edge to keeps the entry stacks within those of every complete
/// set.
proof fn lemma_join_is_sound(
    blocks: Seq<InstructionBlock>,
    valid: Set<u16>,
    start: Set<(Node, Node)>,
    edges: Set<(Node, Node)>,
    ev: Entries,
    i: int,
    j: int,
    s: Seq<Set<Symbol>>,
    joined: Seq<Set<Symbol>>,
)
    requires
        sound(blocks, valid, start, edges, ev),
        ev.len() == blocks.len(),
        0 <= i < blocks.len(),
        0 <= j < blocks.len(),
        ev[i] is Some,
        below(s, ev[i]->0),
        edges.contains(edge(blocks, i, j)),
        is_join(ev[j], exit_of(blocks[i].ops@, s), joined),
    ensures
        sound(blocks, valid, start, edges, ev.update(j, Some(joined))),
{
    let next = ev.update(j, Some(joined));
    assert forall|x: Set<(Node, Node)>, e: Entries| #[trigger]
        closed(blocks, valid, x, e) && start.subset_of(x) implies edges.subset_of(x)
        && entries_below(next, e) by {
        assert(edges.subset_of(x) && entries_below(ev, e));
        assert(e[i] is Some && below(ev[i]->0, e[i]->0));
        lemma_below_transitive(s, ev[i]->0, e[i]->0);
        lemma_exit_monotonic(blocks[i].ops@, s, e[i]->0);
        assert(settled(blocks, valid, x, e, i));
        assert(x.contains(edge(blocks, i, j)));
        assert(e[j] is Some);
        let out = exit_of(blocks[i].ops@, s);
        let far = exit_of(blocks[i].ops@, e[i]->0);
        assert(below(far, e[j]->0));
        assert forall|depth: int| #[trigger] slot(joined, depth).subset_of(slot(e[j]->0, depth)) by {
            assert(slot(out, depth).subset_of(slot(far, depth)));
            assert(slot(far, depth).subset_of(slot(e[j]->0, depth)));
            assert(slot(joined, depth).subset_of(joint_slot(ev[j], out, depth)));
            if ev[j] is Some {
                assert(below(ev[j]->0, e[j]->0));
                assert(slot(ev[j]->0, depth).subset_of(slot(e[j]->0, depth)));
            }
        }
        assert forall|k: int| 0 <= k < next.len() && (#[trigger] next[k]) is Some implies e[k] is Some
            && below(next[k]->0, e[k]->0) by {
            if k != j {
                assert(ev[k] is Some);
            }
        }
    }
}

/// A block stays settled when the entry stack of another block grows.
proof fn lemma_settled_despite_join(
    blocks: Seq<InstructionBlock>,
    valid: Set<u16>,
    edges: Set<(Node, Node)>,
    ev: Entries,
    other: int,
    j: int,
    joined: Seq<Set<Symbol>>,
)
    requires
        ev.len() == blocks.len(),
        0 <= other < blocks.len(),
        0 <= j < blocks.len(),
        other != j,
        settled(blocks, valid, edges, ev, other),
        ev[j] is Some ==> below(ev[j]->0, joined),
    ensures
        settled(blocks, valid, edges, ev.update(j, Some(joined)), other),
{
    let next = ev.update(j, Some(joined));
    assert forall|t: int|
        0 <= t < blocks.len() && edges.contains(#[trigger] edge(blocks, other, t)) implies next[t] is Some
        && below(exit_of(blocks[other].ops@, next[other]->0), next[t]->0) by {
        assert(ev[t] is Some && below(exit_of(blocks[other].ops@, ev[other]->0), ev[t]->0));
        if t == j {
            lemma_below_transitive(exit_of(blocks[other].ops@, ev[other]->0), ev[t]->0, joined);
        }
    }
    assert forall|t: int|
        0 <= t < blocks.len() && #[trigger] aims_at(
            blocks,
            valid,
            other,
            next[other]->0,
            t,
        ) implies edges.contains(edge(blocks, other, t)) by {
        assert(aims_at(blocks, valid, other, ev[other]->0, t));
    }
}

/// A block stays settled when edges from another block are added.
proof fn lemma_settled_despite_edges(
    code: Seq<u8>,
    blocks: Seq<InstructionBlock>,
    valid: Set<u16>,
    edges: Set<(Node, Node)>,
    more: Set<(Node, Node)>,
    ev: Entries,
    other: int,
    i: int,
)
    requires
        is_disassembly(code, blocks),
        0 <= other < blocks.len(),
        0 <= i < blocks.len(),
        other != i,
        settled(blocks, valid, edges, ev, other),
        edges.subset_of(more),
        forall|k: (Node, Node)| #[trigger] more.contains(k) && !edges.contains(k) ==> k.0 == key(blocks[i]),
    ensures
        settled(blocks, valid, more, ev, other),
{
    assert forall|t: int|
        0 <= t < blocks.len() && more.contains(#[trigger] edge(blocks, other, t)) implies ev[t] is Some
        && below(exit_of(blocks[other].ops@, ev[other]->0), ev[t]->0) by {
        if !edges.contains(edge(blocks, other, t)) {
            lemma_start_determines_block(code, blocks, other, i);
        }
    }
    assert forall|t: int|
        0 <= t < blocks.len() && #[trigger] aims_at(
            blocks,
            valid,
            other,
            ev[other]->0,
            t,
        ) implies more.contains(edge(blocks, other, t)) by {
        assert(edges.contains(edge(blocks, other, t)));
    }
}

/// Whether the symbol is a constant that names the start of `blocks[j]`,
/// a valid jump destination.
pub open spec fn hits(
    blocks: Seq<InstructionBlock>,
    valid: Set<u16>,
    symbol: Symbol,
    j: int,
) -> bool {
    symbol matches Symbol::Concrete(w) && w.pc() == Some(blocks[j].start_pc) && valid.contains(
        blocks[j].start_pc,
    )
}

/// Whether `after` holds the edges `before` and beyond them only edges
/// that start at `from`.
pub open spec fn grows_from(
    before: Set<(Node, Node)>,
    after: Set<(Node, Node)>,
    from: Node,
) -> bool {
    &&& before.subset_of(after)
    &&& forall|k: (Node, Node)| #[trigger] after.contains(k) && !before.contains(k) ==> k.0 == from
}

/// Adds an edge from `blocks[i]` to every block that starts at a valid
/// jump destination which `operand`, the target of the block's indirect
/// jump, may be, unless the two are joined already.
fn resolve(
    cfg: &mut CFGRunner,
    valid: &HashSet<u16>,
    i: usize,
    operand: &SymbolicElement,
    Ghost(start): Ghost<Set<(Node, Node)>>,
    Ghost(first): Ghost<Map<(Node, Node), Edges>>,
    Ghost(ev): Ghost<Entries>,
)
    requires
        old(cfg).wf(),
        holds_all_blocks(*old(cfg)),
        i < old(cfg).map_to_instructionblock.len(),
        is_indirect(old(cfg).map_to_instructionblock[i as int]),
        ev.len() == old(cfg).map_to_instructionblock.len(),
        ev[i as int] is Some,
        concretes(operand.atoms()) == targets_of(
            old(cfg).map_to_instructionblock[i as int].ops@,
            ev[i as int]->0,
        ),
        sound(old(cfg).map_to_instructionblock@, valid@, start, old(cfg).edges().dom(), ev),
        extends(old(cfg).map_to_instructionblock@, valid@, first, old(cfg).edges()),
    ensures
        final(cfg).wf(),
        holds_all_blocks(*final(cfg)),
        final(cfg).same_blocks(*old(cfg)),
        final(cfg).nodes() == old(cfg).nodes(),
        sound(final(cfg).map_to_instructionblock@, valid@, start, final(cfg).edges().dom(), ev),
        extends(final(cfg).map_to_instructionblock@, valid@, first, final(cfg).edges()),
        grows_from(
            old(cfg).edges().dom(),
            final(cfg).edges().dom(),
            key(old(cfg).map_to_instructionblock[i as int]),
        ),
        forall|j: int|
            0 <= j < final(cfg).map_to_instructionblock.len() && #[trigger] aims_at(
                final(cfg).map_to_instructionblock@,
                valid@,
                i as int,
                ev[i as int]->0,
                j,
            ) ==> final(cfg).edges().dom().contains(
                edge(final(cfg).map_to_instructionblock@, i as int, j),
            ),
{
    broadcast use vstd::std_specs::hash::group_hash_axioms;

    let ghost blocks = cfg.map_to_instructionblock@;
    let ghost code = cfg.bytecode@;
    let ghost dom0 = cfg.edges().dom();
    let ghost nodes0 = cfg.nodes();
    let ghost ii = i as int;
    let from = (cfg.map_to_instructionblock[i].start_pc, cfg.map_to_instructionblock[i].end_pc);
    let list = atoms_list(operand);
    let mut t: usize = 0;
    while t < list.len()
        invariant
            t <= list.len(),
            list@.to_set() == operand.atoms(),
            blocks == cfg.map_to_instructionblock@,
            code == cfg.bytecode@,
            ii == i,
            0 <= ii < blocks.len(),
            from == key(blocks[ii]),
            dom0 == old(cfg).edges().dom(),
            nodes0 == old(cfg).nodes(),
            cfg.wf(),
            holds_all_blocks(*cfg),
            cfg.same_blocks(*old(cfg)),
            cfg.nodes() == nodes0,
            is_indirect(blocks[ii]),
            ev.len() == blocks.len(),
            ev[ii] is Some,
            concretes(operand.atoms()) == targets_of(blocks[ii].ops@, ev[ii]->0),
            sound(blocks, valid@, start, cfg.edges().dom(), ev),
            extends(blocks, valid@, first, cfg.edges()),
            grows_from(dom0, cfg.edges().dom(), from),
            forall|u: int, j: int|
                0 <= u < t && 0 <= j < blocks.len() && #[trigger] hits(blocks, valid@, list[u], j)
                    ==> cfg.edges().dom().contains(edge(blocks, ii, j)),
        decreases list.len() - t,
    {
        let symbol = list[t];
        let ghost edges_before = cfg.edges();
        let target: Option<usize> = match symbol {
            Symbol::Concrete(w) => match w.as_pc() {
                Some(pc) => if valid.contains(&pc) {
                    cfg.block_starting_at(pc)
                } else {
                    None
                },
                None => None,
            },
            _ => None,
        };
        match target {
            Some(j) => {
                let to = (
                    cfg.map_to_instructionblock[j].start_pc,
                    cfg.map_to_instructionblock[j].end_pc,
                );
                proof {
                    let w = symbol->Concrete_0;
                    assert(list@.to_set().contains(symbol));
                    assert(concretes(operand.atoms()).contains(w));
                    assert(aims_at(blocks, valid@, ii, ev[ii]->0, j as int));
                    lemma_edge_is_sound(
                        blocks,
                        valid@,
                        start,
                        cfg.edges().dom(),
                        ev,
                        ii,
                        j as int,
                    );
                }
                if dag_edge_label(&cfg.cfg_dag, from, to).is_none() {
                    dag_add_edge(&mut cfg.cfg_dag, from, to, Edges::SymbolicJump);
                    proof {
                        assert(cfg.nodes() =~= nodes0);
                        assert(cfg.edges().dom() =~= edges_before.dom().insert(
                            edge(blocks, ii, j as int),
                        ));
                        assert(is_solver_edge(blocks, valid@, edge(blocks, ii, j as int)));
                    }
                } else {
                    proof {
                        assert(cfg.edges().dom() =~= edges_before.dom().insert(
                            edge(blocks, ii, j as int),
                        ));
                    }
                }
                proof {
                    assert forall|u: int, j2: int|
                        0 <= u < t + 1 && 0 <= j2 < blocks.len() && #[trigger] hits(
                            blocks,
                            valid@,
                            list[u],
                            j2,
                        ) implies cfg.edges().dom().contains(edge(blocks, ii, j2)) by {
                        if u == t {
                            lemma_start_determines_block(code, blocks, j2, j as int);
                        } else {
                            assert(edges_before.dom().contains(edge(blocks, ii, j2)));
                        }
                    }
                }
            },
            None => {
                proof {
                    assert forall|u: int, j2: int|
                        0 <= u < t + 1 && 0 <= j2 < blocks.len() && #[trigger] hits(
                            blocks,
                            valid@,
                            list[u],
                            j2,
                        ) implies cfg.edges().dom().contains(edge(blocks, ii, j2)) by {
                        if u == t {
                            assert(false);
                        }
                    }
                }
            },
        }
        t = t + 1;
    }
    proof {
        assert forall|j: int|
            0 <= j < blocks.len() && #[trigger] aims_at(
                blocks,
                valid@,
                ii,
                ev[ii]->0,
                j,
            ) implies cfg.edges().dom().contains(edge(blocks, ii, j)) by {
            let w = choose|w: Word| #[trigger]
                targets_of(blocks[ii].ops@, ev[ii]->0).contains(w) && w.pc() == Some(
                    blocks[j].start_pc,
                );
            assert(concretes(operand.atoms()).contains(w));
            assert(list@.to_set().contains(Symbol::Concrete(w)));
            let u = choose|u: int| 0 <= u < list@.len() && list@[u] == Symbol::Concrete(w);
            assert(hits(blocks, valid@, list[u], j));
        }
    }
}

/// Whether every block on the worklist exists and has an entry stack.
pub open spec fn worklist_ok(worklist: Seq<usize>, ev: Entries) -> bool {
    forall|t: int|
        0 <= t < worklist.len() ==> (#[trigger] worklist[t]) < ev.len() && ev[worklist[t] as int] is Some
}

/// Whether every block that is marked as waiting is on the worklist.
pub open spec fn marks_ok(waiting: Seq<bool>, worklist: Seq<usize>) -> bool {
    forall|j: int| 0 <= j < waiting.len() && #[trigger] waiting[j] ==> worklist.contains(j as usize)
}

/// Whether every entered block other than `busy` that is not on the
/// worklist is settled.
pub open spec fn rest_settled(
    blocks: Seq<InstructionBlock>,
    valid: Set<u16>,
    edges: Set<(Node, Node)>,
    ev: Entries,
    worklist: Seq<usize>,
    busy: int,
) -> bool {
    forall|other: int|
        0 <= other < blocks.len() && other != busy && (#[trigger] ev[other]) is Some
            && !worklist.contains(other as usize) ==> settled(blocks, valid, edges, ev, other)
}

/// Whether `after` enters every block that `before` enters, with a stack
/// that allows as much, and every block whose stack differs is on the
/// worklist.
pub open spec fn entries_grow(before: Entries, after: Entries, worklist: Seq<usize>) -> bool {
    &&& before.len() == after.len()
    &&& forall|j: int|
        0 <= j < before.len() && (#[trigger] before[j]) is Some ==> after[j] is Some && below(
            before[j]->0,
            after[j]->0,
        )
    &&& forall|j: int|
        0 <= j < before.len() && (#[trigger] after[j]) != before[j] ==> worklist.contains(
            j as usize,
        )
}

/// Whether the stack `exit` has reached every block that an edge leads to
/// from `blocks[i]`.
pub open spec fn delivered(
    blocks: Seq<InstructionBlock>,
    edges: Set<(Node, Node)>,
    ev: Entries,
    i: int,
    exit: Seq<Set<Symbol>>,
) -> bool {
    forall|j: int|
        0 <= j < blocks.len() && edges.contains(#[trigger] edge(blocks, i, j)) ==> ev[j] is Some
            && below(exit, ev[j]->0)
}

/// Whether `n` is among the first `t` of the nodes.
pub open spec fn listed(nodes: Seq<Node>, t: int, n: Node) -> bool {
    exists|u: int| 0 <= u < t && u < nodes.len() && nodes[u] == n
}

/// Whether the stack `exit` has reached the blocks of the first `t` of
/// the nodes.
pub open spec fn delivered_to(
    blocks: Seq<InstructionBlock>,
    nodes: Seq<Node>,
    t: int,
    ev: Entries,
    exit: Seq<Set<Symbol>>,
) -> bool {
    forall|j: int|
        0 <= j < blocks.len() && #[trigger] listed(nodes, t, key(blocks[j])) ==> ev[j] is Some
            && below(exit, ev[j]->0)
}

/// Joins the stack `exit`, with which `blocks[i]` is left, into the entry
/// stack of every block that an edge leads to, and puts the blocks whose
/// entry stack grew on the worklist.
fn propagate(
    cfg: &CFGRunner,
    i: usize,
    exit: &Vec<SymbolicElement>,
    entries: &mut Vec<Option<Vec<SymbolicElement>>>,
    worklist: &mut VecDeque<usize>,
    waiting: &mut Vec<bool>,
    Ghost(valid): Ghost<Set<u16>>,
    Ghost(start): Ghost<Set<(Node, Node)>>,
    Ghost(s): Ghost<Seq<Set<Symbol>>>,
)
    requires
        cfg.wf(),
        i < cfg.map_to_instructionblock.len(),
        old(entries).len() == cfg.map_to_instructionblock.len(),
        entries_view(old(entries)@)[i as int] == Some(s),
        stack_view(exit@) == exit_of(cfg.map_to_instructionblock[i as int].ops@, s),
        sound(
            cfg.map_to_instructionblock@,
            valid,
            start,
            cfg.edges().dom(),
            entries_view(old(entries)@),
        ),
        worklist_ok(old(worklist)@, entries_view(old(entries)@)),
        old(waiting).len() == cfg.map_to_instructionblock.len(),
        marks_ok(old(waiting)@, old(worklist)@),
        rest_settled(
            cfg.map_to_instructionblock@,
            valid,
            cfg.edges().dom(),
            entries_view(old(entries)@),
            old(worklist)@,
            i as int,
        ),
    ensures
        final(entries).len() == old(entries).len(),
        final(waiting).len() == old(waiting).len(),
        marks_ok(final(waiting)@, final(worklist)@),
        final(worklist).len() + total_weight(entries_view(old(entries)@)) <= old(worklist).len()
            + total_weight(entries_view(final(entries)@)),
        entries_grow(entries_view(old(entries)@), entries_view(final(entries)@), final(worklist)@),
        forall|w: usize| old(worklist)@.contains(w) ==> final(worklist)@.contains(w),
        delivered(
            cfg.map_to_instructionblock@,
            cfg.edges().dom(),
            entries_view(final(entries)@),
            i as int,
            stack_view(exit@),
        ),
        sound(
            cfg.map_to_instructionblock@,
            valid,
            start,
            cfg.edges().dom(),
            entries_view(final(entries)@),
        ),
        worklist_ok(final(worklist)@, entries_view(final(entries)@)),
        rest_settled(
            cfg.map_to_instructionblock@,
            valid,
            cfg.edges().dom(),
            entries_view(final(entries)@),
            final(worklist)@,
            i as int,
        ),
{
    let ghost blocks = cfg.map_to_instructionblock@;
    let ghost code = cfg.bytecode@;
    let ghost dom = cfg.edges().dom();
    let ghost ev0 = entries_view(entries@);
    let ghost wl0 = worklist@;
    let ghost ii = i as int;
    let ghost out = stack_view(exit@);
    let from = (cfg.map_to_instructionblock[i].start_pc, cfg.map_to_instructionblock[i].end_pc);
    let targets = dag_targets(&cfg.cfg_dag, from);
    let mut t: usize = 0;
    while t < targets.len()
        invariant
            t <= targets.len(),
            blocks == cfg.map_to_instructionblock@,
            code == cfg.bytecode@,
            dom == cfg.edges().dom(),
            cfg.wf(),
            ii == i,
            0 <= ii < blocks.len(),
            from == key(blocks[ii]),
            targets@.to_set() == Set::new(|b: Node| dom.contains((from, b))),
            entries.len() == blocks.len(),
            ev0.len() == blocks.len(),
            ev0[ii] == Some(s),
            out == stack_view(exit@),
            out == exit_of(blocks[ii].ops@, s),
            entries_grow(ev0, entries_view(entries@), worklist@),
            forall|w: usize| wl0.contains(w) ==> worklist@.contains(w),
            delivered_to(blocks, targets@, t as int, entries_view(entries@), out),
            sound(blocks, valid, start, dom, entries_view(entries@)),
            worklist_ok(worklist@, entries_view(entries@)),
            waiting.len() == blocks.len(),
            marks_ok(waiting@, worklist@),
            worklist.len() + total_weight(ev0) <= wl0.len() + total_weight(entries_view(entries@)),
            rest_settled(blocks, valid, dom, entries_view(entries@), worklist@, ii),
        decreases targets.len() - t,
    {
        let node = targets[t];
        let ghost ev = entries_view(entries@);
        let ghost wl = worklist@;
        match cfg.block_starting_at(node.0) {
            Some(j) => {
                let ghost jj = j as int;
                proof {
                    assert(targets@.to_set().contains(node));
                    assert(dom.contains((from, node)));
                    assert(cfg.nodes().contains(node));
                    let w = choose|w: int| 0 <= w < blocks.len() && key(#[trigger] blocks[w]) == node;
                    lemma_start_determines_block(code, blocks, w, jj);
                    assert(key(blocks[jj]) == node);
                    assert(dom.contains(edge(blocks, ii, jj)));
                    assert(ev[ii] is Some && below(ev0[ii]->0, ev[ii]->0));
                }
                let (joined, changed) = match &entries[j] {
                    Some(old) => join_stacks(old, exit),
                    None => (duplicate_stack(exit), true),
                };
                if changed {
                    let ghost grown = stack_view(joined@);
                    entries.set(j, Some(joined));
                    let ghost marks = waiting@;
                    if !waiting[j] {
                        worklist.push_back(j);
                        waiting.set(j, true);
                    }
                    proof {
                        let next = entries_view(entries@);
                        assert(next =~= ev.update(jj, Some(grown)));
                        lemma_weight_after_update(ev, jj, Some(grown), ev.len());
                        assert(entry_weight(Some(grown)) > entry_weight(ev[jj]));
                        assert forall|w: usize| wl.contains(w) implies worklist@.contains(w) by {
                            let at = choose|at: int| 0 <= at < wl.len() && wl[at] == w;
                            assert(worklist@[at] == w);
                        }
                        if !marks[jj] {
                            assert(worklist@ =~= wl.push(j));
                            assert(worklist@[wl.len() as int] == j);
                        }
                        assert(worklist@.contains(j));
                        assert(marks_ok(waiting@, worklist@)) by {
                            assert forall|k: int|
                                0 <= k < waiting@.len() && #[trigger] waiting@[k] implies worklist@.contains(
                                k as usize,
                            ) by {
                                if k != jj {
                                    assert(marks[k]);
                                    assert(wl.contains(k as usize));
                                }
                            }
                        }
                        assert(next =~= ev.update(jj, Some(grown)));
                        assert(is_join(ev[jj], out, grown)) by {
                            assert forall|depth: int| #[trigger]
                                slot(grown, depth).subset_of(joint_slot(ev[jj], out, depth)) by {
                                if ev[jj] is Some {
                                    assert(slot(grown, depth) == slot(ev[jj]->0, depth).union(
                                        slot(out, depth),
                                    ));
                                }
                            }
                        }
                        lemma_join_is_sound(blocks, valid, start, dom, ev, ii, jj, s, grown);
                        assert(below(out, grown)) by {
                            assert forall|depth: int| #[trigger]
                                slot(out, depth).subset_of(slot(grown, depth)) by {
                                if ev[jj] is Some {
                                    assert(slot(grown, depth) == slot(ev[jj]->0, depth).union(
                                        slot(out, depth),
                                    ));
                                }
                            }
                        }
                        if ev[jj] is Some {
                            assert(below(ev[jj]->0, grown)) by {
                                assert forall|depth: int| #[trigger]
                                    slot(ev[jj]->0, depth).subset_of(slot(grown, depth)) by {
                                    assert(slot(grown, depth) == slot(ev[jj]->0, depth).union(
                                        slot(out, depth),
                                    ));
                                }
                            }
                            if ev0[jj] is Some {
                                lemma_below_transitive(ev0[jj]->0, ev[jj]->0, grown);
                            }
                        }
                        assert(entries_grow(ev0, next, worklist@)) by {
                            assert forall|k: int|
                                0 <= k < ev0.len() && (#[trigger] ev0[k]) is Some implies next[k] is Some
                                && below(ev0[k]->0, next[k]->0) by {
                                if k != jj {
                                    assert(ev[k] is Some);
                                }
                            }
                            assert forall|k: int|
                                0 <= k < ev0.len() && (#[trigger] next[k])
                                    != ev0[k] implies worklist@.contains(k as usize) by {
                                if k != jj {
                                    assert(ev[k] != ev0[k]);
                                    assert(wl.contains(k as usize));
                                }
                            }
                        }
                        assert(worklist_ok(worklist@, next)) by {
                            assert forall|u: int| 0 <= u < worklist@.len() implies (
                            #[trigger] worklist@[u]) < next.len() && next[worklist@[u] as int] is Some by {
                                if u < wl.len() {
                                    assert(wl[u] == worklist@[u]);
                                    assert(ev[wl[u] as int] is Some);
                                } else {
                                    assert(worklist@[u] == j);
                                }
                            }
                        }
                        assert(rest_settled(blocks, valid, dom, next, worklist@, ii)) by {
                            assert forall|other: int|
                                0 <= other < blocks.len() && other != ii && (
                                #[trigger] next[other]) is Some && !worklist@.contains(
                                    other as usize,
                                ) implies settled(blocks, valid, dom, next, other) by {
                                assert(other != jj);
                                assert(ev[other] is Some);
                                assert(!wl.contains(other as usize));
                                lemma_settled_despite_join(
                                    blocks,
                                    valid,
                                    dom,
                                    ev,
                                    other,
                                    jj,
                                    grown,
                                );
                            }
                        }
                        assert forall|k: int|
                            0 <= k < blocks.len() && #[trigger] listed(
                                targets@,
                                t + 1,
                                key(blocks[k]),
                            ) implies next[k] is Some && below(out, next[k]->0) by {
                            if k != jj {
                                let u = choose|u: int|
                                    0 <= u < t + 1 && u < targets@.len() && targets@[u] == key(
                                        blocks[k],
                                    );
                                if u == t {
                                    lemma_start_determines_block(code, blocks, k, jj);
                                }
                                assert(listed(targets@, t as int, key(blocks[k])));
                                assert(ev[k] is Some && below(out, ev[k]->0));
                            }
                        }
                    }
                } else {
                    proof {
                        assert forall|k: int|
                            0 <= k < blocks.len() && #[trigger] listed(
                                targets@,
                                t + 1,
                                key(blocks[k]),
                            ) implies ev[k] is Some && below(out, ev[k]->0) by {
                            let u = choose|u: int|
                                0 <= u < t + 1 && u < targets@.len() && targets@[u] == key(
                                    blocks[k],
                                );
                            if u == t {
                                lemma_start_determines_block(code, blocks, k, jj);
                            } else {
                                assert(listed(targets@, t as int, key(blocks[k])));
                            }
                        }
                    }
                }
            },
            None => {
                proof {
                    assert forall|k: int|
                        0 <= k < blocks.len() && #[trigger] listed(
                            targets@,
                            t + 1,
                            key(blocks[k]),
                        ) implies ev[k] is Some && below(out, ev[k]->0) by {
                        let u = choose|u: int|
                            0 <= u < t + 1 && u < targets@.len() && targets@[u] == key(blocks[k]);
                        if u == t {
                            assert(blocks[k].start_pc == node.0);
                            assert(false);
                        } else {
                            assert(listed(targets@, t as int, key(blocks[k])));
                        }
                    }
                }
            },
        }
        t = t + 1;
    }
    proof {
        let ev = entries_view(entries@);
        assert forall|j: int|
            0 <= j < blocks.len() && dom.contains(#[trigger] edge(blocks, ii, j)) implies ev[j] is Some
            && below(out, ev[j]->0) by {
            assert(targets@.to_set().contains(key(blocks[j])));
            let u = choose|u: int| 0 <= u < targets@.len() && targets@[u] == key(blocks[j]);
            assert(listed(targets@, targets@.len() as int, key(blocks[j])));
        }
    }
}

/// Resolves indirect jumps: runs every block that is reached from the
/// first on a symbolic stack, joins what each block leaves into the entry
/// stacks of the blocks behind its edges, and adds an edge for every
/// valid jump destination that the target of an indirect jump may be,
/// until nothing changes or eight times as many blocks were run as there
/// are. A block is run again only when its entry stack has gained a
/// constant, so that a run that stops at its budget has found as many
/// constants as it ran blocks.
pub fn symbolic_cycle(cfg: &mut CFGRunner, valid_jumpdests: &HashSet<u16>) -> (outcome:
    SolverOutcome)
    requires
        old(cfg).wf(),
        holds_all_blocks(*old(cfg)),
    ensures
        final(cfg).wf(),
        holds_all_blocks(*final(cfg)),
        final(cfg).same_blocks(*old(cfg)),
        final(cfg).nodes() == old(cfg).nodes(),
        extends(
            old(cfg).map_to_instructionblock@,
            valid_jumpdests@,
            old(cfg).edges(),
            final(cfg).edges(),
        ),
        minimal(
            old(cfg).map_to_instructionblock@,
            valid_jumpdests@,
            old(cfg).edges().dom(),
            final(cfg).edges().dom(),
        ),
        outcome.converged ==> exists|ev: Entries|
            closed(
                old(cfg).map_to_instructionblock@,
                valid_jumpdests@,
                final(cfg).edges().dom(),
                ev,
            ),
        outcome.iterations <= budget(old(cfg).map_to_instructionblock.len() as nat),
        !outcome.converged ==> outcome.iterations == budget(
            old(cfg).map_to_instructionblock.len() as nat,
        ),
        has_worked(
            old(cfg).map_to_instructionblock@,
            valid_jumpdests@,
            old(cfg).edges().dom(),
            final(cfg).edges().dom(),
            outcome.iterations as nat,
        ),
{
    let ghost blocks = cfg.map_to_instructionblock@;
    let ghost code = cfg.bytecode@;
    let ghost valid = valid_jumpdests@;
    let ghost first = cfg.edges();
    let ghost start = cfg.edges().dom();
    let count = cfg.map_to_instructionblock.len();
    if count == 0 {
        proof {
            let none: Entries = Seq::empty();
            assert(closed(blocks, valid, start, none));
            assert(sound(blocks, valid, start, start, none));
        }
        return SolverOutcome { converged: true, iterations: 0 };
    }
    let total: usize = if count <= 0x1000_0000 {
        8 * count
    } else {
        0x8000_0000
    };
    assert(total == budget(count as nat));
    let mut entries: Vec<Option<Vec<SymbolicElement>>> = Vec::new();
    let mut k: usize = 0;
    while k < count
        invariant
            k <= count,
            entries.len() == k,
            forall|u: int| 0 <= u < k ==> (#[trigger] entries[u]) is None,
        decreases count - k,
    {
        entries.push(None);
        k = k + 1;
    }
    let ghost unentered = entries_view(entries@);
    entries.set(0, Some(Vec::new()));
    let mut waiting: Vec<bool> = Vec::new();
    let mut k: usize = 0;
    while k < count
        invariant
            k <= count,
            waiting.len() == k,
            forall|u: int| 0 <= u < k ==> !(#[trigger] waiting[u]),
        decreases count - k,
    {
        waiting.push(false);
        k = k + 1;
    }
    waiting.set(0, true);
    let mut worklist: VecDeque<usize> = VecDeque::new();
    worklist.push_back(0);
    let mut iterations: usize = 0;
    proof {
        let ev = entries_view(entries@);
        assert(ev[0] == Some(Seq::<Set<Symbol>>::empty())) by {
            assert(stack_view(entries@[0]->0@) =~= Seq::<Set<Symbol>>::empty());
        }
        assert(worklist@[0] == 0usize);
        assert(worklist@.contains(0usize));
        assert(ev =~= unentered.update(0, ev[0]));
        lemma_weight_of_none(unentered, unentered.len());
        lemma_weight_after_update(unentered, 0, ev[0], unentered.len());
        assert(total_weight(ev) == 1);
        assert forall|x: Set<(Node, Node)>, e: Entries| #[trigger]
            closed(blocks, valid, x, e) && start.subset_of(x) implies start.subset_of(x)
            && entries_below(ev, e) by {
            assert forall|u: int| 0 <= u < ev.len() && (#[trigger] ev[u]) is Some implies e[u] is Some
                && below(ev[u]->0, e[u]->0) by {
                assert(u == 0);
            }
        }
        assert forall|other: int|
            0 <= other < blocks.len() && (#[trigger] ev[other]) is Some && !worklist@.contains(
                other as usize,
            ) implies settled(blocks, valid, start, ev, other) by {
            assert(other == 0);
        }
    }
    while iterations < total && worklist.len() > 0
        invariant
            blocks == cfg.map_to_instructionblock@,
            code == cfg.bytecode@,
            valid == valid_jumpdests@,
            first == old(cfg).edges(),
            start == first.dom(),
            count == blocks.len(),
            count > 0,
            total == budget(count as nat),
            iterations <= total,
            cfg.wf(),
            holds_all_blocks(*cfg),
            cfg.same_blocks(*old(cfg)),
            cfg.nodes() == old(cfg).nodes(),
            entries.len() == count,
            entries_view(entries@)[0] is Some,
            worklist_ok(worklist@, entries_view(entries@)),
            waiting.len() == count,
            marks_ok(waiting@, worklist@),
            iterations + worklist.len() <= total_weight(entries_view(entries@)),
            rest_settled(blocks, valid, cfg.edges().dom(), entries_view(entries@), worklist@, -1),
            sound(blocks, valid, start, cfg.edges().dom(), entries_view(entries@)),
            extends(blocks, valid, first, cfg.edges()),
        decreases total - iterations,
    {
        iterations = iterations + 1;
        let ghost wl_before = worklist@;
        let ghost ev = entries_view(entries@);
        let ghost dom_before = cfg.edges().dom();
        let ghost marks = waiting@;
        let i = match worklist.pop_front() {
            Some(i) => i,
            None => 0,
        };
        let ghost ii = i as int;
        proof {
            assert(wl_before[0] == i);
            assert(ev[ii] is Some);
            assert(worklist@ =~= wl_before.subrange(1, wl_before.len() as int));
            lemma_blocks_runnable(code, blocks, ii);
            assert forall|w: usize| wl_before.contains(w) implies worklist@.contains(w) || w == i by {
                let at = choose|at: int| 0 <= at < wl_before.len() && wl_before[at] == w;
                if at > 0 {
                    assert(worklist@[at - 1] == w);
                }
            }
            assert(worklist_ok(worklist@, ev)) by {
                assert forall|u: int| 0 <= u < worklist@.len() implies (#[trigger] worklist@[u])
                    < ev.len() && ev[worklist@[u] as int] is Some by {
                    assert(wl_before[u + 1] == worklist@[u]);
                }
            }
        }
        waiting.set(i, false);
        proof {
            assert(marks_ok(waiting@, worklist@)) by {
                assert forall|k: int|
                    0 <= k < waiting@.len() && #[trigger] waiting@[k] implies worklist@.contains(
                    k as usize,
                ) by {
                    assert(marks[k]);
                    assert(wl_before.contains(k as usize));
                }
            }
        }
        let entry = match &entries[i] {
            Some(stack) => duplicate_stack(stack),
            None => Vec::new(),
        };
        let ghost s = stack_view(entry@);
        let (operand, exit) = transfer(&cfg.map_to_instructionblock[i], &entry);
        let block = &cfg.map_to_instructionblock[i];
        let last = if block.ops.len() > 0 {
            block.ops[block.ops.len() - 1].opcode
        } else {
            0
        };
        let indirect = block.indirect_jump.is_some() && (last == JUMP || last == JUMPI);
        if indirect {
            match &operand {
                Some(operand) => {
                    resolve(cfg, valid_jumpdests, i, operand, Ghost(start), Ghost(first), Ghost(ev));
                },
                None => {},
            }
        }
        proof {
            let dom = cfg.edges().dom();
            assert(grows_from(dom_before, dom, key(blocks[ii])));
            assert(rest_settled(blocks, valid, dom, ev, worklist@, ii)) by {
                assert forall|other: int|
                    0 <= other < blocks.len() && other != ii && (#[trigger] ev[other]) is Some
                        && !worklist@.contains(other as usize) implies settled(
                    blocks,
                    valid,
                    dom,
                    ev,
                    other,
                ) by {
                    if wl_before.contains(other as usize) {
                        let at = choose|at: int|
                            0 <= at < wl_before.len() && wl_before[at] == other as usize;
                        assert(at > 0);
                        assert(worklist@[at - 1] == other as usize);
                    }
                    assert(!wl_before.contains(other as usize));
                    assert(settled(blocks, valid, dom_before, ev, other));
                    lemma_settled_despite_edges(
                        code,
                        blocks,
                        valid,
                        dom_before,
                        dom,
                        ev,
                        other,
                        ii,
                    );
                }
            }
        }
        propagate(
            cfg,
            i,
            &exit,
            &mut entries,
            &mut worklist,
            &mut waiting,
            Ghost(valid),
            Ghost(start),
            Ghost(s),
        );
        proof {
            let dom = cfg.edges().dom();
            let next = entries_view(entries@);
            assert(next[0] is Some) by {
                assert(ev[0] is Some);
            }
            assert(rest_settled(blocks, valid, dom, next, worklist@, -1)) by {
                assert forall|other: int|
                    0 <= other < blocks.len() && (#[trigger] next[other]) is Some
                        && !worklist@.contains(other as usize) implies settled(
                    blocks,
                    valid,
                    dom,
                    next,
                    other,
                ) by {
                    if other == ii {
                        assert(next[ii] == ev[ii]);
                        assert(delivered(blocks, dom, next, ii, stack_view(exit@)));
                        assert forall|j: int|
                            0 <= j < blocks.len() && dom.contains(
                                #[trigger] edge(blocks, ii, j),
                            ) implies next[j] is Some && below(
                            exit_of(blocks[ii].ops@, next[ii]->0),
                            next[j]->0,
                        ) by {}
                        assert forall|j: int|
                            0 <= j < blocks.len() && #[trigger] aims_at(
                                blocks,
                                valid,
                                ii,
                                next[ii]->0,
                                j,
                            ) implies dom.contains(edge(blocks, ii, j)) by {
                            assert(is_indirect(blocks[ii]));
                            assert(ends_with_jump(blocks[ii].ops@));
                            assert(indirect);
                        }
                    }
                }
            }
        }
    }
    let converged = worklist.len() == 0;
    proof {
        let ev = entries_view(entries@);
        let dom = cfg.edges().dom();
        if converged {
            assert(closed(blocks, valid, dom, ev)) by {
                assert forall|i: int| 0 <= i < blocks.len() && (#[trigger] ev[i]) is Some implies settled(
                    blocks,
                    valid,
                    dom,
                    ev,
                    i,
                ) by {
                    assert(!worklist@.contains(i as usize));
                }
            }
        }
        assert(minimal(blocks, valid, start, dom));
        assert(sound(blocks, valid, start, dom, ev) && iterations <= total_weight(ev));
    }
    SolverOutcome { converged, iterations }
}

/// Solving a graph on which the solver has come to rest adds nothing:
/// whatever a further run leaves is the graph as it was.
pub proof fn lemma_solver_fixed_point(
    blocks: Seq<InstructionBlock>,
    valid: Set<u16>,
    first: Map<(Node, Node), Edges>,
    second: Map<(Node, Node), Edges>,
    ev: Entries,
)
    requires
        closed(blocks, valid, first.dom(), ev),
        extends(blocks, valid, first, second),
        minimal(blocks, valid, first.dom(), second.dom()),
    ensures
        second == first,
{
    assert(second.dom().subset_of(first.dom()));
    assert(second =~= first);
}

/// The edges on which the solver comes to rest are determined by the
/// graph that it starts from: two runs that come to rest on the same
/// start hold the same pairs of nodes.
pub proof fn lemma_rest_is_unique(
    blocks: Seq<InstructionBlock>,
    valid: Set<u16>,
    start: Map<(Node, Node), Edges>,
    one: Map<(Node, Node), Edges>,
    other: Map<(Node, Node), Edges>,
    ev_one: Entries,
    ev_other: Entries,
)
    requires
        extends(blocks, valid, start, one),
        extends(blocks, valid, start, other),
        minimal(blocks, valid, start.dom(), one.dom()),
        minimal(blocks, valid, start.dom(), other.dom()),
        closed(blocks, valid, one.dom(), ev_one),
        closed(blocks, valid, other.dom(), ev_other),
    ensures
        one == other,
{
    assert(start.dom().subset_of(one.dom())) by {
        assert forall|k: (Node, Node)| start.dom().contains(k) implies one.dom().contains(k) by {
            assert(one.contains_pair(k, start[k]));
        }
    }
    assert(start.dom().subset_of(other.dom())) by {
        assert forall|k: (Node, Node)| start.dom().contains(k) implies other.dom().contains(k) by {
            assert(other.contains_pair(k, start[k]));
        }
    }
    assert(one.dom().subset_of(other.dom()));
    assert(other.dom().subset_of(one.dom()));
    assert(one.dom() =~= other.dom());
    assert forall|k: (Node, Node)| one.dom().contains(k) implies one[k] == other[k] by {
        if start.dom().contains(k) {
            assert(one.contains_pair(k, start[k]));
            assert(other.contains_pair(k, start[k]));
        }
    }
    assert(one =~= other);
}

} // verus!
