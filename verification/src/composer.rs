use crate::address::Address;
use crate::analyzer::{
    NodeEntry, TransactionEdge, TransactionEdgeView, TransactionNode, TransactionNodeView,
};
use crate::cfg_gen::cfg_graph::Edges;
use crate::cfg_gen::dag::Node;
use crate::cfg_gen::dasm::InstructionBlock;
use crate::cfg_gen::opcode::SSTORE;
use crate::cfg_gen::render::{has_sstore, ops_text};
use crate::cfg_gen::trace::CallEdge;
use crate::tx_graph::{tx_add_edge, tx_add_node, tx_edges, tx_nodes, TxGraph};
use std::collections::HashSet;
use vstd::prelude::*;

verus! {

/// Whether the trace ran an instruction of the block with the node `n`:
/// one of the executed program counters lies within the block.
pub open spec fn ran(executed: Set<u16>, n: Node) -> bool {
    exists|pc: u16| n.0 <= pc <= n.1 && executed.contains(pc)
}

/// The node of the global graph that stands for the block `b` of the
/// contract at `address`. It is marked where the block holds `SSTORE`.
pub open spec fn node_of(address: Seq<u8>, b: InstructionBlock) -> TransactionNodeView {
    TransactionNodeView {
        contract_address: address,
        pc: b.start_pc,
        instruction: ops_text(b.ops@),
        contains_sstore: has_sstore(b.ops@),
    }
}

/// The views of a run of nodes.
pub open spec fn nodes_view(nodes: Seq<TransactionNode>) -> Seq<TransactionNodeView> {
    nodes.map_values(|n: TransactionNode| n@)
}

/// The views of a run of edges.
pub open spec fn edges_view(edges: Seq<(usize, usize, TransactionEdge)>) -> Seq<
    (usize, usize, TransactionEdgeView),
> {
    edges.map_values(|e: (usize, usize, TransactionEdge)| (e.0, e.1, e.2@))
}

/// Index of the first block from `from` on that starts at `pc`.
pub open spec fn block_from(blocks: Seq<InstructionBlock>, pc: u16, from: int) -> Option<int>
    decreases blocks.len() - from,
{
    if from < 0 || from >= blocks.len() {
        None
    } else if blocks[from].start_pc == pc {
        Some(from)
    } else {
        block_from(blocks, pc, from + 1)
    }
}

/// Index of the first block that starts at `pc`.
pub open spec fn block_at(blocks: Seq<InstructionBlock>, pc: u16) -> Option<int> {
    block_from(blocks, pc, 0)
}

/// The block that a search finds starts where it was looked for.
pub proof fn lemma_block_from(blocks: Seq<InstructionBlock>, pc: u16, from: int)
    requires
        0 <= from,
    ensures
        block_from(blocks, pc, from) is Some ==> from <= block_from(blocks, pc, from)->0
            < blocks.len() && blocks[block_from(blocks, pc, from)->0].start_pc == pc,
    decreases blocks.len() - from,
{
    if from < blocks.len() && blocks[from].start_pc != pc {
        lemma_block_from(blocks, pc, from + 1);
    }
}

/// Whether the node `n` of a contract's graph gets a node in the global
/// graph: the trace ran the block, and a block starts where the node does.
pub open spec fn is_shown(blocks: Seq<InstructionBlock>, executed: Set<u16>, n: Node) -> bool {
    ran(executed, n) && block_at(blocks, n.0) is Some
}

/// The nodes of the global graph for the first `upto` of the nodes
/// `listing` of a contract's graph, in their order.
pub open spec fn shown_nodes(
    address: Seq<u8>,
    blocks: Seq<InstructionBlock>,
    executed: Set<u16>,
    listing: Seq<Node>,
    upto: nat,
) -> Seq<TransactionNodeView>
    decreases upto,
{
    if upto == 0 {
        Seq::empty()
    } else {
        let before = shown_nodes(address, blocks, executed, listing, (upto - 1) as nat);
        let n = listing[upto - 1];
        if is_shown(blocks, executed, n) {
            before.push(node_of(address, blocks[block_at(blocks, n.0)->0]))
        } else {
            before
        }
    }
}

/// The entries of the node mapping for the first `upto` of the nodes
/// `listing`, where the first new node gets the index `base`.
pub open spec fn shown_entries(
    address: Address,
    blocks: Seq<InstructionBlock>,
    executed: Set<u16>,
    listing: Seq<Node>,
    upto: nat,
    base: nat,
) -> Seq<NodeEntry>
    decreases upto,
{
    if upto == 0 {
        Seq::empty()
    } else {
        let before = shown_entries(address, blocks, executed, listing, (upto - 1) as nat, base);
        let n = listing[upto - 1];
        if is_shown(blocks, executed, n) {
            let b = blocks[block_at(blocks, n.0)->0];
            before.push(
                NodeEntry {
                    address,
                    start_pc: b.start_pc,
                    end_pc: b.end_pc,
                    index: (base + before.len()) as usize,
                },
            )
        } else {
            before
        }
    }
}

/// Index of the first entry for the block of the contract at `address`
/// that starts at `start`.
pub open spec fn entry_by_start(
    mapping: Seq<NodeEntry>,
    address: Seq<u8>,
    start: u16,
    from: int,
) -> Option<usize>
    decreases mapping.len() - from,
{
    if from < 0 || from >= mapping.len() {
        None
    } else if mapping[from].address@ == address && mapping[from].start_pc == start {
        Some(mapping[from].index)
    } else {
        entry_by_start(mapping, address, start, from + 1)
    }
}

/// Index of the first entry for the block of the contract at `address`
/// that holds the program counter `pc`.
pub open spec fn entry_by_pc(
    mapping: Seq<NodeEntry>,
    address: Seq<u8>,
    pc: u16,
    from: int,
) -> Option<usize>
    decreases mapping.len() - from,
{
    if from < 0 || from >= mapping.len() {
        None
    } else if mapping[from].address@ == address && mapping[from].start_pc <= pc
        <= mapping[from].end_pc {
        Some(mapping[from].index)
    } else {
        entry_by_pc(mapping, address, pc, from + 1)
    }
}

/// The edge of the global graph for the edge `e` of the graph of the
/// contract at `address`: both blocks ran and have their nodes.
pub open spec fn internal_edge(
    mapping: Seq<NodeEntry>,
    address: Seq<u8>,
    executed: Set<u16>,
    e: (Node, Node, Edges),
) -> Option<(usize, usize, TransactionEdgeView)> {
    let from = entry_by_start(mapping, address, e.0.0, 0);
    let to = entry_by_start(mapping, address, e.1.0, 0);
    if ran(executed, e.0) && ran(executed, e.1) && from is Some && to is Some {
        Some((from->0, to->0, TransactionEdgeView::Internal(e.2)))
    } else {
        None
    }
}

/// The edges of the global graph for the first `upto` of the edges
/// `listing` of a contract's graph, in their order.
pub open spec fn internal_edges(
    mapping: Seq<NodeEntry>,
    address: Seq<u8>,
    executed: Set<u16>,
    listing: Seq<(Node, Node, Edges)>,
    upto: nat,
) -> Seq<(usize, usize, TransactionEdgeView)>
    decreases upto,
{
    if upto == 0 {
        Seq::empty()
    } else {
        let before = internal_edges(mapping, address, executed, listing, (upto - 1) as nat);
        match internal_edge(mapping, address, executed, listing[upto - 1]) {
            Some(e) => before.push(e),
            None => before,
        }
    }
}

/// The edge of the global graph for a call that the trace shows: from
/// the node of the caller's block that holds the calling instruction to
/// the node of the callee's first block, where both are there.
pub open spec fn external_edge(mapping: Seq<NodeEntry>, call: CallEdge) -> Option<
    (usize, usize, TransactionEdgeView),
> {
    let from = entry_by_pc(mapping, call.from_addr@, call.from_pc, 0);
    let to = entry_by_start(mapping, call.to_addr@, 0, 0);
    if from is Some && to is Some {
        Some((from->0, to->0, TransactionEdgeView::External(call.call_type@)))
    } else {
        None
    }
}

/// The edges of the global graph for the first `upto` calls, in their
/// order.
pub open spec fn external_edges(mapping: Seq<NodeEntry>, calls: Seq<CallEdge>, upto: nat) -> Seq<
    (usize, usize, TransactionEdgeView),
>
    decreases upto,
{
    if upto == 0 {
        Seq::empty()
    } else {
        let before = external_edges(mapping, calls, (upto - 1) as nat);
        match external_edge(mapping, calls[upto - 1]) {
            Some(e) => before.push(e),
            None => before,
        }
    }
}

/// Number of the first `upto` calls that lack a node at one end.
pub open spec fn dropped_calls(mapping: Seq<NodeEntry>, calls: Seq<CallEdge>, upto: nat) -> nat
    decreases upto,
{
    if upto == 0 {
        0
    } else {
        dropped_calls(mapping, calls, (upto - 1) as nat) + if external_edge(
            mapping,
            calls[upto - 1],
        ) is None {
            1nat
        } else {
            0nat
        }
    }
}

/// Whether every entry of the mapping names a node of the graph.
pub open spec fn entries_in_range(mapping: Seq<NodeEntry>, count: nat) -> bool {
    forall|t: int| 0 <= t < mapping.len() ==> (#[trigger] mapping[t]).index < count
}

/// Whether the trace ran an instruction of the block with the node `n`.
pub fn block_ran(executed: &HashSet<u16>, n: (u16, u16)) -> (found: bool)
    ensures
        found == ran(executed@, n),
{
    broadcast use vstd::std_specs::hash::group_hash_axioms;

    if n.0 > n.1 {
        return false;
    }
    let mut pc: u32 = n.0 as u32;
    while pc <= n.1 as u32
        invariant
            n.0 <= pc <= n.1 + 1,
            forall|p: u16| n.0 <= p < pc ==> !executed@.contains(p),
        decreases n.1 + 1 - pc,
    {
        let at = pc as u16;
        if executed.contains(&at) {
            return true;
        }
        pc = pc + 1;
    }
    false
}

/// The first block that starts at `pc`.
pub fn find_block(blocks: &Vec<InstructionBlock>, pc: u16) -> (found: Option<usize>)
    ensures
        found is Some == block_at(blocks@, pc) is Some,
        found is Some ==> found->0 == block_at(blocks@, pc)->0 && found->0 < blocks.len(),
{
    let mut i: usize = 0;
    while i < blocks.len()
        invariant
            i <= blocks.len(),
            block_at(blocks@, pc) == block_from(blocks@, pc, i as int),
        decreases blocks.len() - i,
    {
        if blocks[i].start_pc == pc {
            return Some(i);
        }
        i = i + 1;
    }
    None
}

/// Gives a node of the global graph to every node of `listing` whose
/// block the trace ran, and notes where each stands.
pub fn add_contract_nodes(
    graph: &mut TxGraph,
    mapping: &mut Vec<NodeEntry>,
    address: &Address,
    blocks: &Vec<InstructionBlock>,
    executed: &HashSet<u16>,
    listing: &Vec<(u16, u16)>,
)
    requires
        tx_nodes(*old(graph)).len() + listing.len() < u32::MAX,
    ensures
        tx_edges(*final(graph)) == tx_edges(*old(graph)),
        nodes_view(tx_nodes(*final(graph))) == nodes_view(tx_nodes(*old(graph))) + shown_nodes(
            address@,
            blocks@,
            executed@,
            listing@,
            listing.len() as nat,
        ),
        final(mapping)@ == old(mapping)@ + shown_entries(
            *address,
            blocks@,
            executed@,
            listing@,
            listing.len() as nat,
            tx_nodes(*old(graph)).len(),
        ),
{
    let ghost nodes0 = nodes_view(tx_nodes(*graph));
    let ghost mapping0 = mapping@;
    let ghost base = tx_nodes(*graph).len();
    let mut t: usize = 0;
    proof {
        assert(nodes_view(tx_nodes(*graph)) =~= nodes0 + shown_nodes(
            address@,
            blocks@,
            executed@,
            listing@,
            0,
        ));
        assert(mapping@ =~= mapping0 + shown_entries(
            *address,
            blocks@,
            executed@,
            listing@,
            0,
            base,
        ));
    }
    while t < listing.len()
        invariant
            t <= listing.len(),
            base + listing.len() < u32::MAX,
            base == tx_nodes(*old(graph)).len(),
            nodes0 == nodes_view(tx_nodes(*old(graph))),
            mapping0 == old(mapping)@,
            tx_edges(*graph) == tx_edges(*old(graph)),
            shown_nodes(address@, blocks@, executed@, listing@, t as nat).len() <= t,
            shown_entries(*address, blocks@, executed@, listing@, t as nat, base).len()
                == shown_nodes(address@, blocks@, executed@, listing@, t as nat).len(),
            nodes_view(tx_nodes(*graph)) == nodes0 + shown_nodes(
                address@,
                blocks@,
                executed@,
                listing@,
                t as nat,
            ),
            mapping@ == mapping0 + shown_entries(
                *address,
                blocks@,
                executed@,
                listing@,
                t as nat,
                base,
            ),
        decreases listing.len() - t,
    {
        let n = listing[t];
        let ghost nodes_before = tx_nodes(*graph);
        if block_ran(executed, n) {
            match find_block(blocks, n.0) {
                Some(i) => {
                    let block = &blocks[i];
                    let node = TransactionNode {
                        contract_address: *address,
                        pc: block.start_pc,
                        instruction: block.to_string(),
                        contains_sstore: block.contains_sstore(),
                    };
                    proof {
                        assert(nodes_view(nodes_before).len() == nodes_before.len());
                        assert(node@ == node_of(address@, blocks[i as int]));
                    }
                    let index = tx_add_node(graph, node);
                    mapping.push(
                        NodeEntry {
                            address: *address,
                            start_pc: block.start_pc,
                            end_pc: block.end_pc,
                            index,
                        },
                    );
                    proof {
                        assert(nodes_view(tx_nodes(*graph)) =~= nodes_view(nodes_before).push(
                            node@,
                        ));
                        assert(nodes_view(tx_nodes(*graph)) =~= nodes0 + shown_nodes(
                            address@,
                            blocks@,
                            executed@,
                            listing@,
                            (t + 1) as nat,
                        ));
                        assert(mapping@ =~= mapping0 + shown_entries(
                            *address,
                            blocks@,
                            executed@,
                            listing@,
                            (t + 1) as nat,
                            base,
                        ));
                    }
                },
                None => {},
            }
        }
        t = t + 1;
    }
}

/// The node of the first entry for the block of the contract at
/// `address` that starts at `start`.
pub fn find_entry_by_start(mapping: &Vec<NodeEntry>, address: &Address, start: u16) -> (found:
    Option<usize>)
    ensures
        found == entry_by_start(mapping@, address@, start, 0),
{
    let mut t: usize = 0;
    while t < mapping.len()
        invariant
            t <= mapping.len(),
            entry_by_start(mapping@, address@, start, 0) == entry_by_start(
                mapping@,
                address@,
                start,
                t as int,
            ),
        decreases mapping.len() - t,
    {
        if mapping[t].start_pc == start && mapping[t].address.same(address) {
            return Some(mapping[t].index);
        }
        t = t + 1;
    }
    None
}

/// The node of the first entry for the block of the contract at
/// `address` that holds the program counter `pc`.
pub fn find_entry_by_pc(mapping: &Vec<NodeEntry>, address: &Address, pc: u16) -> (found: Option<
    usize,
>)
    ensures
        found == entry_by_pc(mapping@, address@, pc, 0),
{
    let mut t: usize = 0;
    while t < mapping.len()
        invariant
            t <= mapping.len(),
            entry_by_pc(mapping@, address@, pc, 0) == entry_by_pc(mapping@, address@, pc, t as int),
        decreases mapping.len() - t,
    {
        if mapping[t].start_pc <= pc && pc <= mapping[t].end_pc && mapping[t].address.same(address) {
            return Some(mapping[t].index);
        }
        t = t + 1;
    }
    None
}

/// An entry that a search finds names a node of the graph.
pub proof fn lemma_found_in_range(
    mapping: Seq<NodeEntry>,
    address: Seq<u8>,
    pc: u16,
    from: int,
    count: nat,
)
    requires
        entries_in_range(mapping, count),
        0 <= from,
    ensures
        entry_by_start(mapping, address, pc, from) is Some ==> entry_by_start(
            mapping,
            address,
            pc,
            from,
        )->0 < count,
        entry_by_pc(mapping, address, pc, from) is Some ==> entry_by_pc(mapping, address, pc, from)->0
            < count,
    decreases mapping.len() - from,
{
    if from < mapping.len() {
        assert(mapping[from].index < count);
        lemma_found_in_range(mapping, address, pc, from + 1, count);
    }
}

/// Gives an edge of the global graph to every edge of `listing` whose
/// two blocks the trace ran.
pub fn add_contract_edges(
    graph: &mut TxGraph,
    mapping: &Vec<NodeEntry>,
    address: &Address,
    executed: &HashSet<u16>,
    listing: &Vec<((u16, u16), (u16, u16), Edges)>,
)
    requires
        entries_in_range(mapping@, tx_nodes(*old(graph)).len()),
        tx_edges(*old(graph)).len() + listing.len() < u32::MAX,
    ensures
        tx_nodes(*final(graph)) == tx_nodes(*old(graph)),
        edges_view(tx_edges(*final(graph))) == edges_view(tx_edges(*old(graph))) + internal_edges(
            mapping@,
            address@,
            executed@,
            listing@,
            listing.len() as nat,
        ),
{
    let ghost edges0 = edges_view(tx_edges(*graph));
    let ghost base = tx_edges(*graph).len();
    let mut t: usize = 0;
    proof {
        assert(edges_view(tx_edges(*graph)) =~= edges0 + internal_edges(
            mapping@,
            address@,
            executed@,
            listing@,
            0,
        ));
    }
    while t < listing.len()
        invariant
            t <= listing.len(),
            base + listing.len() < u32::MAX,
            base == tx_edges(*old(graph)).len(),
            edges0 == edges_view(tx_edges(*old(graph))),
            tx_nodes(*graph) == tx_nodes(*old(graph)),
            entries_in_range(mapping@, tx_nodes(*graph).len()),
            internal_edges(mapping@, address@, executed@, listing@, t as nat).len() <= t,
            edges_view(tx_edges(*graph)) == edges0 + internal_edges(
                mapping@,
                address@,
                executed@,
                listing@,
                t as nat,
            ),
        decreases listing.len() - t,
    {
        let (a, b, kind) = listing[t];
        let ghost before = tx_edges(*graph);
        if block_ran(executed, a) && block_ran(executed, b) {
            let from = find_entry_by_start(mapping, address, a.0);
            let to = find_entry_by_start(mapping, address, b.0);
            match (from, to) {
                (Some(from), Some(to)) => {
                    proof {
                        lemma_found_in_range(
                            mapping@,
                            address@,
                            a.0,
                            0,
                            tx_nodes(*graph).len(),
                        );
                        lemma_found_in_range(
                            mapping@,
                            address@,
                            b.0,
                            0,
                            tx_nodes(*graph).len(),
                        );
                        assert(edges_view(before).len() == before.len());
                    }
                    tx_add_edge(graph, from, to, TransactionEdge::Internal(kind));
                    proof {
                        assert(edges_view(tx_edges(*graph)) =~= edges_view(before).push(
                            (from, to, TransactionEdgeView::Internal(kind)),
                        ));
                        assert(edges_view(tx_edges(*graph)) =~= edges0 + internal_edges(
                            mapping@,
                            address@,
                            executed@,
                            listing@,
                            (t + 1) as nat,
                        ));
                    }
                },
                _ => {},
            }
        }
        t = t + 1;
    }
}

/// Gives an edge of the global graph to every call of `calls` whose two
/// ends have their nodes, and counts the others.
pub fn add_call_edges(
    graph: &mut TxGraph,
    mapping: &Vec<NodeEntry>,
    calls: &Vec<CallEdge>,
) -> (dropped: usize)
    requires
        entries_in_range(mapping@, tx_nodes(*old(graph)).len()),
        tx_edges(*old(graph)).len() + calls.len() < u32::MAX,
    ensures
        tx_nodes(*final(graph)) == tx_nodes(*old(graph)),
        edges_view(tx_edges(*final(graph))) == edges_view(tx_edges(*old(graph))) + external_edges(
            mapping@,
            calls@,
            calls.len() as nat,
        ),
        dropped == dropped_calls(mapping@, calls@, calls.len() as nat),
{
    let ghost edges0 = edges_view(tx_edges(*graph));
    let ghost base = tx_edges(*graph).len();
    let mut dropped: usize = 0;
    let mut t: usize = 0;
    proof {
        assert(edges_view(tx_edges(*graph)) =~= edges0 + external_edges(mapping@, calls@, 0));
    }
    while t < calls.len()
        invariant
            t <= calls.len(),
            base + calls.len() < u32::MAX,
            base == tx_edges(*old(graph)).len(),
            edges0 == edges_view(tx_edges(*old(graph))),
            tx_nodes(*graph) == tx_nodes(*old(graph)),
            entries_in_range(mapping@, tx_nodes(*graph).len()),
            external_edges(mapping@, calls@, t as nat).len() <= t,
            dropped == dropped_calls(mapping@, calls@, t as nat),
            dropped <= t,
            edges_view(tx_edges(*graph)) == edges0 + external_edges(mapping@, calls@, t as nat),
        decreases calls.len() - t,
    {
        let call = &calls[t];
        let ghost before = tx_edges(*graph);
        let from = find_entry_by_pc(mapping, &call.from_addr, call.from_pc);
        let to = find_entry_by_start(mapping, &call.to_addr, 0);
        match (from, to) {
            (Some(from), Some(to)) => {
                proof {
                    lemma_found_in_range(
                        mapping@,
                        call.from_addr@,
                        call.from_pc,
                        0,
                        tx_nodes(*graph).len(),
                    );
                    lemma_found_in_range(mapping@, call.to_addr@, 0, 0, tx_nodes(*graph).len());
                    assert(edges_view(before).len() == before.len());
                }
                let kind = call.call_type.clone();
                tx_add_edge(graph, from, to, TransactionEdge::External(kind));
                proof {
                    assert(edges_view(tx_edges(*graph)) =~= edges_view(before).push(
                        (from, to, TransactionEdgeView::External(call.call_type@)),
                    ));
                    assert(edges_view(tx_edges(*graph)) =~= edges0 + external_edges(
                        mapping@,
                        calls@,
                        (t + 1) as nat,
                    ));
                }
            },
            _ => {
                dropped = dropped + 1;
            },
        }
        t = t + 1;
    }
    dropped
}

/// Whether `node` stands for a block that starts where one of the first
/// `upto` nodes of `listing` does, a node whose block the trace ran.
pub open spec fn shows_block(
    address: Seq<u8>,
    blocks: Seq<InstructionBlock>,
    executed: Set<u16>,
    listing: Seq<Node>,
    upto: nat,
    node: TransactionNodeView,
) -> bool {
    exists|u: int, i: int|
        0 <= u < upto && 0 <= i < blocks.len() && blocks[i].start_pc == listing[u].0
            && #[trigger] ran(executed, listing[u]) && node == #[trigger] node_of(
            address,
            blocks[i],
        )
}

/// Every node that is shown for a contract stands for a block of the
/// contract that the trace ran.
pub proof fn lemma_shown_node_ran(
    address: Seq<u8>,
    blocks: Seq<InstructionBlock>,
    executed: Set<u16>,
    listing: Seq<Node>,
    upto: nat,
    t: int,
)
    requires
        0 <= t < shown_nodes(address, blocks, executed, listing, upto).len(),
    ensures
        shows_block(
            address,
            blocks,
            executed,
            listing,
            upto,
            shown_nodes(address, blocks, executed, listing, upto)[t],
        ),
    decreases upto,
{
    let before = shown_nodes(address, blocks, executed, listing, (upto - 1) as nat);
    let node = shown_nodes(address, blocks, executed, listing, upto)[t];
    if t < before.len() {
        lemma_shown_node_ran(address, blocks, executed, listing, (upto - 1) as nat, t);
        let (u, i) = choose|u: int, i: int|
            0 <= u < upto - 1 && 0 <= i < blocks.len() && blocks[i].start_pc == listing[u].0
                && #[trigger] ran(executed, listing[u]) && before[t] == #[trigger] node_of(
                address,
                blocks[i],
            );
        assert(ran(executed, listing[u]) && node == node_of(address, blocks[i]));
    } else {
        let n = listing[upto - 1];
        assert(is_shown(blocks, executed, n));
        let i = block_at(blocks, n.0)->0;
        lemma_block_from(blocks, n.0, 0);
        assert(0 <= i < blocks.len() && blocks[i].start_pc == n.0);
        assert(ran(executed, listing[upto - 1]) && node == node_of(address, blocks[i]));
    }
}

/// Whether the entries stand, place for place, for the nodes: the entry
/// at a place names the node at that place, its contract and the address
/// at which its block starts.
pub open spec fn names_nodes(mapping: Seq<NodeEntry>, nodes: Seq<TransactionNodeView>) -> bool {
    &&& mapping.len() == nodes.len()
    &&& forall|t: int|
        0 <= t < mapping.len() ==> (#[trigger] mapping[t]).index == t && mapping[t].address@
            == nodes[t].contract_address && mapping[t].start_pc == nodes[t].pc
}

/// Whether two entries are for the same block of the same contract.
pub open spec fn same_block(a: NodeEntry, b: NodeEntry) -> bool {
    a.address@ == b.address@ && a.start_pc == b.start_pc
}

/// Whether no two entries are for the same block of the same contract.
pub open spec fn distinct_entries(mapping: Seq<NodeEntry>) -> bool {
    forall|s: int, t: int| 0 <= s < t < mapping.len() ==> !same_block(mapping[s], mapping[t])
}

/// Whether no two of the listed nodes start at the same address.
pub open spec fn distinct_starts(listing: Seq<Node>) -> bool {
    forall|a: int, b: int|
        0 <= a < b < listing.len() ==> (#[trigger] listing[a]).0 != (#[trigger] listing[b]).0
}

/// Whether `entry` is for the block of one of the first `upto` nodes of
/// `listing`, a block that the trace ran.
pub open spec fn entry_shows(
    blocks: Seq<InstructionBlock>,
    executed: Set<u16>,
    listing: Seq<Node>,
    upto: nat,
    entry: NodeEntry,
) -> bool {
    exists|u: int|
        0 <= u < upto && is_shown(blocks, executed, #[trigger] listing[u]) && listing[u].0
            == entry.start_pc && blocks[block_at(blocks, listing[u].0)->0].end_pc == entry.end_pc
}

/// The entries that are noted for a contract stand, place for place, for
/// the nodes that are shown for it: each names the contract, the place
/// of its node and the start of a listed block that the trace ran.
pub proof fn lemma_shown_aligned(
    address: Address,
    blocks: Seq<InstructionBlock>,
    executed: Set<u16>,
    listing: Seq<Node>,
    upto: nat,
    base: nat,
    t: int,
)
    requires
        base + upto <= usize::MAX,
        0 <= t < shown_entries(address, blocks, executed, listing, upto, base).len(),
    ensures
        shown_entries(address, blocks, executed, listing, upto, base).len() == shown_nodes(
            address@,
            blocks,
            executed,
            listing,
            upto,
        ).len(),
        shown_entries(address, blocks, executed, listing, upto, base).len() <= upto,
        shown_entries(address, blocks, executed, listing, upto, base)[t].index == base + t,
        shown_entries(address, blocks, executed, listing, upto, base)[t].address == address,
        shown_entries(address, blocks, executed, listing, upto, base)[t].start_pc == shown_nodes(
            address@,
            blocks,
            executed,
            listing,
            upto,
        )[t].pc,
        shown_nodes(address@, blocks, executed, listing, upto)[t].contract_address == address@,
        entry_shows(
            blocks,
            executed,
            listing,
            upto,
            shown_entries(address, blocks, executed, listing, upto, base)[t],
        ),
    decreases upto,
{
    let before = shown_entries(address, blocks, executed, listing, (upto - 1) as nat, base);
    let entry = shown_entries(address, blocks, executed, listing, upto, base)[t];
    lemma_shown_count(address, blocks, executed, listing, (upto - 1) as nat, base);
    lemma_shown_count(address, blocks, executed, listing, upto, base);
    if t < before.len() {
        lemma_shown_aligned(address, blocks, executed, listing, (upto - 1) as nat, base, t);
        let u = choose|u: int|
            0 <= u < upto - 1 && is_shown(blocks, executed, #[trigger] listing[u]) && listing[u].0
                == before[t].start_pc && blocks[block_at(blocks, listing[u].0)->0].end_pc
                == before[t].end_pc;
        assert(is_shown(blocks, executed, listing[u]) && listing[u].0 == entry.start_pc);
    } else {
        let n = listing[upto - 1];
        lemma_block_from(blocks, n.0, 0);
        assert(is_shown(blocks, executed, listing[upto - 1]) && listing[upto - 1].0
            == entry.start_pc);
    }
}

/// As many entries are noted as nodes are shown.
proof fn lemma_shown_count(
    address: Address,
    blocks: Seq<InstructionBlock>,
    executed: Set<u16>,
    listing: Seq<Node>,
    upto: nat,
    base: nat,
)
    ensures
        shown_entries(address, blocks, executed, listing, upto, base).len() == shown_nodes(
            address@,
            blocks,
            executed,
            listing,
            upto,
        ).len(),
        shown_entries(address, blocks, executed, listing, upto, base).len() <= upto,
    decreases upto,
{
    if upto > 0 {
        lemma_shown_count(address, blocks, executed, listing, (upto - 1) as nat, base);
    }
}

/// Where no two listed nodes start at the same address, no two of the
/// entries that are noted for a contract are for the same block.
pub proof fn lemma_shown_distinct(
    address: Address,
    blocks: Seq<InstructionBlock>,
    executed: Set<u16>,
    listing: Seq<Node>,
    upto: nat,
    base: nat,
)
    requires
        base + upto <= usize::MAX,
        upto <= listing.len(),
        distinct_starts(listing),
    ensures
        distinct_entries(shown_entries(address, blocks, executed, listing, upto, base)),
    decreases upto,
{
    let entries = shown_entries(address, blocks, executed, listing, upto, base);
    if upto > 0 {
        let before = shown_entries(address, blocks, executed, listing, (upto - 1) as nat, base);
        lemma_shown_distinct(address, blocks, executed, listing, (upto - 1) as nat, base);
        assert forall|s: int, t: int| 0 <= s < t < entries.len() implies !same_block(
            entries[s],
            entries[t],
        ) by {
            if t < before.len() {
                assert(!same_block(before[s], before[t]));
            } else {
                lemma_shown_aligned(address, blocks, executed, listing, (upto - 1) as nat, base, s);
                let u = choose|u: int|
                    0 <= u < upto - 1 && is_shown(blocks, executed, #[trigger] listing[u])
                        && listing[u].0 == before[s].start_pc && blocks[block_at(
                        blocks,
                        listing[u].0,
                    )->0].end_pc == before[s].end_pc;
                lemma_block_from(blocks, listing[upto - 1].0, 0);
                assert(listing[u].0 != listing[upto - 1].0);
            }
        }
    }
}

/// Whether the mapping holds an entry for the block of the contract at
/// `address` that starts at `start` and ends at `end`.
pub open spec fn has_entry(mapping: Seq<NodeEntry>, address: Seq<u8>, start: u16, end: u16) -> bool {
    exists|t: int|
        0 <= t < mapping.len() && (#[trigger] mapping[t]).address@ == address && mapping[t].start_pc
            == start && mapping[t].end_pc == end
}

/// A search finds a block where one starts at the address looked for.
pub proof fn lemma_block_found(blocks: Seq<InstructionBlock>, pc: u16, from: int, i: int)
    requires
        0 <= from <= i < blocks.len(),
        blocks[i].start_pc == pc,
    ensures
        block_from(blocks, pc, from) is Some,
    decreases i - from,
{
    if blocks[from].start_pc != pc {
        lemma_block_found(blocks, pc, from + 1, i);
    }
}

/// Every listed node whose block the trace ran has its entry among those
/// that are noted for the contract.
pub proof fn lemma_shown_entry_exists(
    address: Address,
    blocks: Seq<InstructionBlock>,
    executed: Set<u16>,
    listing: Seq<Node>,
    upto: nat,
    base: nat,
    u: int,
)
    requires
        0 <= u < upto,
        is_shown(blocks, executed, listing[u]),
    ensures
        has_entry(
            shown_entries(address, blocks, executed, listing, upto, base),
            address@,
            listing[u].0,
            blocks[block_at(blocks, listing[u].0)->0].end_pc,
        ),
    decreases upto,
{
    let entries = shown_entries(address, blocks, executed, listing, upto, base);
    let before = shown_entries(address, blocks, executed, listing, (upto - 1) as nat, base);
    let end = blocks[block_at(blocks, listing[u].0)->0].end_pc;
    if u == upto - 1 {
        lemma_block_from(blocks, listing[u].0, 0);
        let t = before.len() as int;
        assert(entries[t].address@ == address@ && entries[t].start_pc == listing[u].0
            && entries[t].end_pc == end);
    } else {
        lemma_shown_entry_exists(address, blocks, executed, listing, (upto - 1) as nat, base, u);
        let t = choose|t: int|
            0 <= t < before.len() && (#[trigger] before[t]).address@ == address@
                && before[t].start_pc == listing[u].0 && before[t].end_pc == end;
        assert(entries[t] == before[t]);
    }
}

/// Every listed edge between two blocks that ran and have their nodes is
/// among the edges that are shown for the contract.
pub proof fn lemma_internal_edge_kept(
    mapping: Seq<NodeEntry>,
    address: Seq<u8>,
    executed: Set<u16>,
    listing: Seq<(Node, Node, Edges)>,
    upto: nat,
    u: int,
)
    requires
        0 <= u < upto,
        internal_edge(mapping, address, executed, listing[u]) is Some,
    ensures
        internal_edges(mapping, address, executed, listing, upto).contains(
            internal_edge(mapping, address, executed, listing[u])->0,
        ),
    decreases upto,
{
    let edges = internal_edges(mapping, address, executed, listing, upto);
    let before = internal_edges(mapping, address, executed, listing, (upto - 1) as nat);
    let e = internal_edge(mapping, address, executed, listing[u])->0;
    if u == upto - 1 {
        assert(edges[before.len() as int] == e);
    } else {
        lemma_internal_edge_kept(mapping, address, executed, listing, (upto - 1) as nat, u);
        let t = choose|t: int| 0 <= t < before.len() && before[t] == e;
        assert(edges[t] == e);
    }
}

/// Every call whose two ends have their nodes is among the edges that
/// are shown for the calls.
pub proof fn lemma_external_edge_kept(
    mapping: Seq<NodeEntry>,
    calls: Seq<CallEdge>,
    upto: nat,
    q: int,
)
    requires
        0 <= q < upto,
        external_edge(mapping, calls[q]) is Some,
    ensures
        external_edges(mapping, calls, upto).contains(external_edge(mapping, calls[q])->0),
    decreases upto,
{
    let edges = external_edges(mapping, calls, upto);
    let before = external_edges(mapping, calls, (upto - 1) as nat);
    let e = external_edge(mapping, calls[q])->0;
    if q == upto - 1 {
        assert(edges[before.len() as int] == e);
    } else {
        lemma_external_edge_kept(mapping, calls, (upto - 1) as nat, q);
        let t = choose|t: int| 0 <= t < before.len() && before[t] == e;
        assert(edges[t] == e);
    }
}

/// The node of a block is marked as writing to storage if and only if
/// one of the block's instructions is `SSTORE`.
pub proof fn lemma_node_marks_sstore(address: Seq<u8>, b: InstructionBlock)
    ensures
        node_of(address, b).contains_sstore <==> exists|j: int|
            0 <= j < b.ops.len() && (#[trigger] b.ops[j]).opcode == SSTORE,
{
}

/// Every edge within a contract that the global graph gets joins two
/// blocks of which the trace ran at least one instruction each.
pub proof fn lemma_internal_edge_ran(
    mapping: Seq<NodeEntry>,
    address: Seq<u8>,
    executed: Set<u16>,
    listing: Seq<(Node, Node, Edges)>,
    upto: nat,
    t: int,
)
    requires
        0 <= t < internal_edges(mapping, address, executed, listing, upto).len(),
    ensures
        exists|u: int|
            0 <= u < upto && #[trigger] internal_edge(mapping, address, executed, listing[u])
                == Some(internal_edges(mapping, address, executed, listing, upto)[t]) && ran(
                executed,
                listing[u].0,
            ) && ran(executed, listing[u].1),
    decreases upto,
{
    let before = internal_edges(mapping, address, executed, listing, (upto - 1) as nat);
    if t < before.len() {
        lemma_internal_edge_ran(mapping, address, executed, listing, (upto - 1) as nat, t);
        let u = choose|u: int|
            0 <= u < upto - 1 && #[trigger] internal_edge(mapping, address, executed, listing[u])
                == Some(before[t]) && ran(executed, listing[u].0) && ran(executed, listing[u].1);
        assert(internal_edge(mapping, address, executed, listing[u]) == Some(
            internal_edges(mapping, address, executed, listing, upto)[t],
        ));
    } else {
        assert(internal_edge(mapping, address, executed, listing[upto - 1]) == Some(
            internal_edges(mapping, address, executed, listing, upto)[t],
        ));
    }
}

/// A block of which the trace ran no instruction gets no edge in the
/// global graph, neither to another block nor to itself.
pub proof fn lemma_no_edge_without_run(
    mapping: Seq<NodeEntry>,
    address: Seq<u8>,
    executed: Set<u16>,
    e: (Node, Node, Edges),
)
    requires
        !ran(executed, e.0) || !ran(executed, e.1),
    ensures
        internal_edge(mapping, address, executed, e) is None,
{
}

} // verus!
