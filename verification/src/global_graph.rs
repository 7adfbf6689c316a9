//! What holds of a global graph that was composed: what its nodes and
//! edges stand for, place by place.

use crate::analyzer::{
    composed_edges, composed_entries, composed_nodes, entry_of_contract, lemma_composed_edge_ran,
    lemma_composed_node_ran, shows_block_of, ContractCFG, NodeEntry, TransactionAnalyzer,
    TransactionEdgeView, TransactionNodeView,
};
use crate::blockchain::{entry_of, lemma_entry_of, BytecodeCache};
use crate::cfg_gen::cfg_graph::{is_block_key, key, lemma_start_determines_block, Edges};
use crate::cfg_gen::dag::Node;
use crate::cfg_gen::trace::{CallEdge, TraceStepView};
use crate::composer::{
    block_at, dropped_calls, edges_view, entry_by_pc, entry_by_start, entry_shows, external_edge,
    external_edges, has_entry, internal_edge, internal_edges, is_shown, lemma_block_found,
    lemma_block_from, lemma_external_edge_kept, lemma_internal_edge_kept,
    lemma_shown_entry_exists, nodes_view, ran, shown_entries,
};
use crate::tx_graph::{tx_edges, tx_nodes};
use vstd::prelude::*;

verus! {

/// Whether an entry for the block of the contract at `address` that
/// starts at `start` names the node `index`.
pub open spec fn starts_at(
    mapping: Seq<NodeEntry>,
    address: Seq<u8>,
    start: u16,
    index: usize,
) -> bool {
    exists|t: int|
        0 <= t < mapping.len() && (#[trigger] mapping[t]).address@ == address && mapping[t].start_pc
            == start && mapping[t].index == index
}

/// Whether an entry for a block of the contract at `address` that holds
/// the program counter `pc` names the node `index`.
pub open spec fn holds_at(mapping: Seq<NodeEntry>, address: Seq<u8>, pc: u16, index: usize) -> bool {
    exists|t: int|
        0 <= t < mapping.len() && (#[trigger] mapping[t]).address@ == address && mapping[t].start_pc
            <= pc <= mapping[t].end_pc && mapping[t].index == index
}

/// What a search of the mapping finds is the node of an entry for what
/// was looked for; and it finds something where there is such an entry.
pub proof fn lemma_search_finds_entry(
    mapping: Seq<NodeEntry>,
    address: Seq<u8>,
    pc: u16,
    from: int,
)
    requires
        0 <= from,
    ensures
        entry_by_start(mapping, address, pc, from) is Some ==> starts_at(
            mapping,
            address,
            pc,
            entry_by_start(mapping, address, pc, from)->0,
        ),
        entry_by_pc(mapping, address, pc, from) is Some ==> holds_at(
            mapping,
            address,
            pc,
            entry_by_pc(mapping, address, pc, from)->0,
        ),
        entry_by_start(mapping, address, pc, from) is None ==> forall|t: int|
            from <= t < mapping.len() ==> !((#[trigger] mapping[t]).address@ == address
                && mapping[t].start_pc == pc),
        entry_by_pc(mapping, address, pc, from) is None ==> forall|t: int|
            from <= t < mapping.len() ==> !((#[trigger] mapping[t]).address@ == address
                && mapping[t].start_pc <= pc <= mapping[t].end_pc),
    decreases mapping.len() - from,
{
    if from < mapping.len() {
        lemma_search_finds_entry(mapping, address, pc, from + 1);
        let here = mapping[from];
        assert(here.address@ == address && here.start_pc == pc ==> starts_at(
            mapping,
            address,
            pc,
            here.index,
        ));
        assert(here.address@ == address && here.start_pc <= pc <= here.end_pc ==> holds_at(
            mapping,
            address,
            pc,
            here.index,
        ));
    }
}

/// Whether `e` joins, by an edge of the graph of the contract `cfg`, the
/// nodes of two blocks of that contract of which the trace ran at least
/// one instruction each: the edge has the kind of an edge of the
/// contract's graph between the blocks that start where the two nodes
/// say.
pub open spec fn is_edge_within(
    cfg: ContractCFG,
    nodes: Seq<TransactionNodeView>,
    e: (usize, usize, TransactionEdgeView),
) -> bool {
    exists|a: Node, b: Node|
        #![trigger cfg.cfg_runner.edges().dom().contains((a, b))]
        cfg.cfg_runner.edges().dom().contains((a, b)) && e.2 == TransactionEdgeView::Internal(
            cfg.cfg_runner.edges()[(a, b)],
        ) && ran(cfg.executed_pcs@, a) && ran(cfg.executed_pcs@, b) && e.0 < nodes.len() && e.1
            < nodes.len() && nodes[e.0 as int].contract_address == cfg.address@
            && nodes[e.0 as int].pc == a.0 && nodes[e.1 as int].contract_address == cfg.address@
            && nodes[e.1 as int].pc == b.0
}

/// Whether `e` is the edge for the call `call`: it bears the kind of the
/// call, and leads from the node of a block of the caller that holds the
/// calling instruction to the node of the first block of the callee.
pub open spec fn is_edge_of_call(
    call: CallEdge,
    mapping: Seq<NodeEntry>,
    nodes: Seq<TransactionNodeView>,
    e: (usize, usize, TransactionEdgeView),
) -> bool {
    &&& e.2 == TransactionEdgeView::External(call.call_type@)
    &&& e.0 < nodes.len() && e.1 < nodes.len()
    &&& nodes[e.0 as int].contract_address == call.from_addr@
    &&& mapping[e.0 as int].start_pc <= call.from_pc <= mapping[e.0 as int].end_pc
    &&& nodes[e.1 as int].contract_address == call.to_addr@
    &&& nodes[e.1 as int].pc == 0
}

/// Every edge that is shown for a call is the edge of one of the calls.
pub proof fn lemma_external_edge_of_call(
    mapping: Seq<NodeEntry>,
    calls: Seq<CallEdge>,
    upto: nat,
    t: int,
)
    requires
        0 <= t < external_edges(mapping, calls, upto).len(),
    ensures
        exists|q: int|
            0 <= q < upto && #[trigger] external_edge(mapping, calls[q]) == Some(
                external_edges(mapping, calls, upto)[t],
            ),
    decreases upto,
{
    let before = external_edges(mapping, calls, (upto - 1) as nat);
    if t < before.len() {
        lemma_external_edge_of_call(mapping, calls, (upto - 1) as nat, t);
        let q = choose|q: int|
            0 <= q < upto - 1 && #[trigger] external_edge(mapping, calls[q]) == Some(before[t]);
        assert(external_edge(mapping, calls[q]) == Some(external_edges(mapping, calls, upto)[t]));
    } else {
        assert(external_edge(mapping, calls[upto - 1]) == Some(
            external_edges(mapping, calls, upto)[t],
        ));
    }
}

/// Every call gets one edge or is counted as dropped.
pub proof fn lemma_calls_shown_or_dropped(mapping: Seq<NodeEntry>, calls: Seq<CallEdge>, upto: nat)
    ensures
        external_edges(mapping, calls, upto).len() + dropped_calls(mapping, calls, upto) == upto,
    decreases upto,
{
    if upto > 0 {
        lemma_calls_shown_or_dropped(mapping, calls, (upto - 1) as nat);
    }
}

/// Every node of a composed graph stands for a block of one of the
/// contracts, a block of which the trace ran at least one instruction.
pub proof fn lemma_graph_node_ran(
    before: TransactionAnalyzer,
    after: TransactionAnalyzer,
    node_listings: Seq<Seq<Node>>,
    edge_listings: Seq<Seq<(Node, Node, Edges)>>,
    dropped: usize,
    t: int,
)
    requires
        before.composes(after, node_listings, edge_listings, dropped),
        0 <= t < tx_nodes(after.global_graph).len(),
    ensures
        shows_block_of(
            before.contract_cfgs@,
            node_listings,
            before.contract_cfgs.len() as nat,
            nodes_view(tx_nodes(after.global_graph))[t],
        ),
{
    lemma_composed_node_ran(
        before.contract_cfgs@,
        node_listings,
        before.contract_cfgs.len() as nat,
        t,
    );
}

/// Every edge of a composed graph that is within a contract joins the
/// nodes of two blocks of one contract, of each of which the trace ran
/// at least one instruction, and has the kind of an edge of that
/// contract's graph between the two blocks. So a block that did not run
/// has no edge, not even to itself.
pub proof fn lemma_graph_internal_edge(
    before: TransactionAnalyzer,
    after: TransactionAnalyzer,
    node_listings: Seq<Seq<Node>>,
    edge_listings: Seq<Seq<(Node, Node, Edges)>>,
    dropped: usize,
    t: int,
)
    requires
        before.composes(after, node_listings, edge_listings, dropped),
        0 <= t < tx_edges(after.global_graph).len(),
        edges_view(tx_edges(after.global_graph))[t].2 is Internal,
    ensures
        exists|k: int|
            0 <= k < before.contract_cfgs.len() && is_edge_within(
                #[trigger] before.contract_cfgs[k],
                nodes_view(tx_nodes(after.global_graph)),
                edges_view(tx_edges(after.global_graph))[t],
            ),
{
    let cfgs = before.contract_cfgs@;
    let count = cfgs.len();
    let mapping = after.node_mapping@;
    let nodes = nodes_view(tx_nodes(after.global_graph));
    let within = composed_edges(mapping, cfgs, edge_listings, count);
    let e = edges_view(tx_edges(after.global_graph))[t];
    let calls = before.call_edges@;
    assert(edges_view(tx_edges(after.global_graph)).len() == tx_edges(after.global_graph).len());
    if t >= within.len() {
        lemma_external_edge_of_call(mapping, calls, calls.len(), t - within.len());
        let q = choose|q: int|
            0 <= q < calls.len() && #[trigger] external_edge(mapping, calls[q]) == Some(e);
        assert(e.2 is External);
    } else {
        lemma_composed_edge_ran(mapping, cfgs, edge_listings, count, t);
        let (k, u) = choose|k: int, u: int|
            0 <= k < count && 0 <= u < edge_listings[k].len() && #[trigger] internal_edge(
                mapping,
                cfgs[k].address@,
                cfgs[k].executed_pcs@,
                edge_listings[k][u],
            ) == Some(e) && ran(cfgs[k].executed_pcs@, edge_listings[k][u].0) && ran(
                cfgs[k].executed_pcs@,
                edge_listings[k][u].1,
            );
        let listed = edge_listings[k][u];
        let a = listed.0;
        let b = listed.1;
        assert(cfgs[k].cfg_runner.edges().contains_pair((a, b), listed.2));
        lemma_search_finds_entry(mapping, cfgs[k].address@, a.0, 0);
        lemma_search_finds_entry(mapping, cfgs[k].address@, b.0, 0);
        assert(cfgs[k].cfg_runner.edges().dom().contains((a, b)));
        assert(is_edge_within(before.contract_cfgs[k], nodes, e));
    }
}

/// The edges of a composed graph are first those within the contracts,
/// then those of the calls, one for every call that was not dropped.
pub proof fn lemma_graph_edge_kinds(
    before: TransactionAnalyzer,
    after: TransactionAnalyzer,
    node_listings: Seq<Seq<Node>>,
    edge_listings: Seq<Seq<(Node, Node, Edges)>>,
    dropped: usize,
    t: int,
)
    requires
        before.composes(after, node_listings, edge_listings, dropped),
        0 <= t < tx_edges(after.global_graph).len(),
    ensures
        edges_view(tx_edges(after.global_graph))[t].2 is Internal <==> t < composed_edges(
            after.node_mapping@,
            before.contract_cfgs@,
            edge_listings,
            before.contract_cfgs.len() as nat,
        ).len(),
        edges_view(tx_edges(after.global_graph))[t].2 is External <==> t >= composed_edges(
            after.node_mapping@,
            before.contract_cfgs@,
            edge_listings,
            before.contract_cfgs.len() as nat,
        ).len(),
        tx_edges(after.global_graph).len() + dropped == composed_edges(
            after.node_mapping@,
            before.contract_cfgs@,
            edge_listings,
            before.contract_cfgs.len() as nat,
        ).len() + before.call_edges.len(),
{
    let cfgs = before.contract_cfgs@;
    let mapping = after.node_mapping@;
    let calls = before.call_edges@;
    let within = composed_edges(mapping, cfgs, edge_listings, cfgs.len());
    let e = edges_view(tx_edges(after.global_graph))[t];
    lemma_calls_shown_or_dropped(mapping, calls, calls.len());
    assert(edges_view(tx_edges(after.global_graph)).len() == tx_edges(after.global_graph).len());
    if t < within.len() {
        lemma_composed_edge_ran(mapping, cfgs, edge_listings, cfgs.len(), t);
    } else {
        lemma_external_edge_of_call(mapping, calls, calls.len(), t - within.len());
        let q = choose|q: int|
            0 <= q < calls.len() && #[trigger] external_edge(mapping, calls[q]) == Some(e);
        assert(e.2 is External);
    }
}

/// Every edge of a composed graph that stands for a call is the edge of
/// a call of the trace: from the node of a block of the caller that
/// holds the calling instruction to the node of the callee's first
/// block.
pub proof fn lemma_graph_external_edge(
    before: TransactionAnalyzer,
    after: TransactionAnalyzer,
    node_listings: Seq<Seq<Node>>,
    edge_listings: Seq<Seq<(Node, Node, Edges)>>,
    dropped: usize,
    t: int,
)
    requires
        before.composes(after, node_listings, edge_listings, dropped),
        0 <= t < tx_edges(after.global_graph).len(),
        edges_view(tx_edges(after.global_graph))[t].2 is External,
    ensures
        exists|q: int|
            0 <= q < before.call_edges.len() && is_edge_of_call(
                #[trigger] before.call_edges[q],
                after.node_mapping@,
                nodes_view(tx_nodes(after.global_graph)),
                edges_view(tx_edges(after.global_graph))[t],
            ),
        tx_edges(after.global_graph).len() + dropped == composed_edges(
            after.node_mapping@,
            before.contract_cfgs@,
            edge_listings,
            before.contract_cfgs.len() as nat,
        ).len() + before.call_edges.len(),
{
    let cfgs = before.contract_cfgs@;
    let count = cfgs.len();
    let mapping = after.node_mapping@;
    let calls = before.call_edges@;
    let within = composed_edges(mapping, cfgs, edge_listings, count);
    let e = edges_view(tx_edges(after.global_graph))[t];
    lemma_calls_shown_or_dropped(mapping, calls, calls.len());
    assert(edges_view(tx_edges(after.global_graph)).len() == tx_edges(after.global_graph).len());
    if t < within.len() {
        lemma_composed_edge_ran(mapping, cfgs, edge_listings, count, t);
    } else {
        lemma_external_edge_of_call(mapping, calls, calls.len(), t - within.len());
        let q = choose|q: int|
            0 <= q < calls.len() && #[trigger] external_edge(mapping, calls[q]) == Some(e);
        lemma_search_finds_entry(mapping, calls[q].from_addr@, calls[q].from_pc, 0);
        lemma_search_finds_entry(mapping, calls[q].to_addr@, 0, 0);
        assert(is_edge_of_call(
            before.call_edges[q],
            mapping,
            nodes_view(tx_nodes(after.global_graph)),
            e,
        ));
    }
}

/// An address at which no contract with a block is known has no node in
/// a composed graph and no entry in its mapping, and every call from it
/// or to it is dropped. So a contract without code brings nothing.
pub proof fn lemma_nothing_without_blocks(
    before: TransactionAnalyzer,
    after: TransactionAnalyzer,
    node_listings: Seq<Seq<Node>>,
    edge_listings: Seq<Seq<(Node, Node, Edges)>>,
    dropped: usize,
    address: Seq<u8>,
)
    requires
        before.composes(after, node_listings, edge_listings, dropped),
        forall|k: int|
            0 <= k < before.contract_cfgs.len() && (#[trigger] before.contract_cfgs[k]).address@
                == address ==> before.contract_cfgs[k].cfg_runner.map_to_instructionblock.len()
                == 0,
    ensures
        forall|t: int|
            0 <= t < after.node_mapping.len() ==> (#[trigger] after.node_mapping[t]).address@
                != address,
        forall|t: int|
            0 <= t < tx_nodes(after.global_graph).len() ==> (#[trigger] nodes_view(
                tx_nodes(after.global_graph),
            )[t]).contract_address != address,
        forall|q: int|
            0 <= q < before.call_edges.len() && ((#[trigger] before.call_edges[q]).from_addr@
                == address || before.call_edges[q].to_addr@ == address) ==> external_edge(
                after.node_mapping@,
                before.call_edges[q],
            ) is None,
{
    let cfgs = before.contract_cfgs@;
    let count = cfgs.len();
    let mapping = after.node_mapping@;
    let nodes = nodes_view(tx_nodes(after.global_graph));
    assert forall|t: int| 0 <= t < mapping.len() implies (#[trigger] mapping[t]).address@
        != address by {
        assert(entry_of_contract(cfgs, node_listings, count, mapping[t]));
        let k = choose|k: int|
            0 <= k < count && mapping[t].address@ == (#[trigger] cfgs[k]).address@ && entry_shows(
                cfgs[k].cfg_runner.map_to_instructionblock@,
                cfgs[k].executed_pcs@,
                node_listings[k],
                node_listings[k].len(),
                mapping[t],
            );
        let blocks = cfgs[k].cfg_runner.map_to_instructionblock@;
        let u = choose|u: int|
            0 <= u < node_listings[k].len() && is_shown(
                blocks,
                cfgs[k].executed_pcs@,
                #[trigger] node_listings[k][u],
            ) && node_listings[k][u].0 == mapping[t].start_pc && blocks[block_at(
                blocks,
                node_listings[k][u].0,
            )->0].end_pc == mapping[t].end_pc;
        lemma_block_from(blocks, node_listings[k][u].0, 0);
    }
    assert forall|t: int| 0 <= t < nodes.len() implies (#[trigger] nodes[t]).contract_address
        != address by {
        assert(mapping[t].address@ == nodes[t].contract_address);
    }
    assert forall|q: int|
        0 <= q < before.call_edges.len() && ((#[trigger] before.call_edges[q]).from_addr@
            == address || before.call_edges[q].to_addr@ == address) implies external_edge(
        mapping,
        before.call_edges[q],
    ) is None by {
        let call = before.call_edges[q];
        lemma_search_finds_entry(mapping, call.from_addr@, call.from_pc, 0);
        lemma_search_finds_entry(mapping, call.to_addr@, 0, 0);
    }
}

/// A contract without code brings nothing: where the graphs of the
/// contracts are the analyses of what a cache holds, an address for
/// which the cache holds no code, or empty code, has no node in a
/// composed graph and no entry in its mapping, and every call from it or
/// to it is dropped.
pub proof fn lemma_no_code_brings_nothing(
    cache: BytecodeCache,
    steps: Seq<TraceStepView>,
    before: TransactionAnalyzer,
    after: TransactionAnalyzer,
    node_listings: Seq<Seq<Node>>,
    edge_listings: Seq<Seq<(Node, Node, Edges)>>,
    dropped: usize,
    address: Seq<u8>,
)
    requires
        cache.wf(),
        cache.code_of(address) is None || cache.code_of(address)->0.len() == 0,
        before.contract_cfgs.len() == cache.cache.len(),
        forall|k: int|
            0 <= k < before.contract_cfgs.len() ==> (
            #[trigger] before.contract_cfgs[k]).is_analysis_of(
                cache.cache[k].0@,
                cache.cache[k].1@,
                steps,
            ),
        before.composes(after, node_listings, edge_listings, dropped),
    ensures
        forall|t: int|
            0 <= t < after.node_mapping.len() ==> (#[trigger] after.node_mapping[t]).address@
                != address,
        forall|t: int|
            0 <= t < tx_nodes(after.global_graph).len() ==> (#[trigger] nodes_view(
                tx_nodes(after.global_graph),
            )[t]).contract_address != address,
        forall|q: int|
            0 <= q < before.call_edges.len() && ((#[trigger] before.call_edges[q]).from_addr@
                == address || before.call_edges[q].to_addr@ == address) ==> external_edge(
                after.node_mapping@,
                before.call_edges[q],
            ) is None,
{
    lemma_entry_of(cache.cache@, address, 0);
    assert forall|k: int|
        0 <= k < before.contract_cfgs.len() && (#[trigger] before.contract_cfgs[k]).address@
            == address implies before.contract_cfgs[k].cfg_runner.map_to_instructionblock.len()
        == 0 by {
        assert(before.contract_cfgs[k].is_analysis_of(cache.cache[k].0@, cache.cache[k].1@, steps));
        assert(cache.cache[k].0@ == address);
        let found = entry_of(cache.cache@, address, 0);
        assert(found is Some);
        if found->0 < k {
            assert(cache.cache[found->0].0@ != cache.cache[k].0@);
        }
        assert(found->0 == k);
        assert(cache.cache[k].1@.len() == 0);
    }
    lemma_nothing_without_blocks(before, after, node_listings, edge_listings, dropped, address);
}

/// Every listed node of one of the first `c` contracts whose block the
/// trace ran has its entry among those that are composed.
pub proof fn lemma_composed_entry_exists(
    cfgs: Seq<ContractCFG>,
    listings: Seq<Seq<Node>>,
    c: nat,
    base: nat,
    k: int,
    u: int,
)
    requires
        0 <= k < c,
        0 <= u < listings[k].len(),
        is_shown(
            cfgs[k].cfg_runner.map_to_instructionblock@,
            cfgs[k].executed_pcs@,
            listings[k][u],
        ),
    ensures
        has_entry(
            composed_entries(cfgs, listings, c, base),
            cfgs[k].address@,
            listings[k][u].0,
            cfgs[k].cfg_runner.map_to_instructionblock@[block_at(
                cfgs[k].cfg_runner.map_to_instructionblock@,
                listings[k][u].0,
            )->0].end_pc,
        ),
    decreases c,
{
    let all = composed_entries(cfgs, listings, c, base);
    let before = composed_entries(cfgs, listings, (c - 1) as nat, base);
    let blocks = cfgs[k].cfg_runner.map_to_instructionblock@;
    let end = blocks[block_at(blocks, listings[k][u].0)->0].end_pc;
    if k == c - 1 {
        let cfg = cfgs[c - 1];
        let start = base + composed_nodes(cfgs, listings, (c - 1) as nat).len();
        let own = shown_entries(
            cfg.address,
            blocks,
            cfg.executed_pcs@,
            listings[k],
            listings[k].len(),
            start,
        );
        lemma_shown_entry_exists(
            cfg.address,
            blocks,
            cfg.executed_pcs@,
            listings[k],
            listings[k].len(),
            start,
            u,
        );
        let t = choose|t: int|
            0 <= t < own.len() && (#[trigger] own[t]).address@ == cfg.address@ && own[t].start_pc
                == listings[k][u].0 && own[t].end_pc == end;
        assert(all[before.len() + t] == own[t]);
    } else {
        lemma_composed_entry_exists(cfgs, listings, (c - 1) as nat, base, k, u);
        let t = choose|t: int|
            0 <= t < before.len() && (#[trigger] before[t]).address@ == cfgs[k].address@
                && before[t].start_pc == listings[k][u].0 && before[t].end_pc == end;
        assert(all[t] == before[t]);
    }
}

/// Every listed edge of one of the first `c` contracts between two
/// blocks that ran and have their nodes is among the edges that are
/// composed.
pub proof fn lemma_composed_edge_kept(
    mapping: Seq<NodeEntry>,
    cfgs: Seq<ContractCFG>,
    listings: Seq<Seq<(Node, Node, Edges)>>,
    c: nat,
    k: int,
    u: int,
)
    requires
        0 <= k < c,
        0 <= u < listings[k].len(),
        internal_edge(mapping, cfgs[k].address@, cfgs[k].executed_pcs@, listings[k][u]) is Some,
    ensures
        composed_edges(mapping, cfgs, listings, c).contains(
            internal_edge(mapping, cfgs[k].address@, cfgs[k].executed_pcs@, listings[k][u])->0,
        ),
    decreases c,
{
    let all = composed_edges(mapping, cfgs, listings, c);
    let before = composed_edges(mapping, cfgs, listings, (c - 1) as nat);
    let e = internal_edge(mapping, cfgs[k].address@, cfgs[k].executed_pcs@, listings[k][u])->0;
    if k == c - 1 {
        let own = internal_edges(
            mapping,
            cfgs[k].address@,
            cfgs[k].executed_pcs@,
            listings[k],
            listings[k].len(),
        );
        lemma_internal_edge_kept(
            mapping,
            cfgs[k].address@,
            cfgs[k].executed_pcs@,
            listings[k],
            listings[k].len(),
            u,
        );
        let t = choose|t: int| 0 <= t < own.len() && own[t] == e;
        assert(all[before.len() + t] == e);
    } else {
        lemma_composed_edge_kept(mapping, cfgs, listings, (c - 1) as nat, k, u);
        let t = choose|t: int| 0 <= t < before.len() && before[t] == e;
        assert(all[t] == e);
    }
}

/// Every block of a contract that the trace ran, and that the contract's
/// graph holds, has its entry in the mapping of a composed graph: a
/// search for the block, by its start or by a program counter within it,
/// finds a node.
pub proof fn lemma_ran_block_has_entry(
    before: TransactionAnalyzer,
    after: TransactionAnalyzer,
    node_listings: Seq<Seq<Node>>,
    edge_listings: Seq<Seq<(Node, Node, Edges)>>,
    dropped: usize,
    k: int,
    n: Node,
    pc: u16,
)
    requires
        before.composes(after, node_listings, edge_listings, dropped),
        0 <= k < before.contract_cfgs.len(),
        before.contract_cfgs[k].cfg_runner.wf(),
        before.contract_cfgs[k].cfg_runner.nodes().contains(n),
        ran(before.contract_cfgs[k].executed_pcs@, n),
        n.0 <= pc <= n.1,
    ensures
        has_entry(after.node_mapping@, before.contract_cfgs[k].address@, n.0, n.1),
        entry_by_start(after.node_mapping@, before.contract_cfgs[k].address@, n.0, 0) is Some,
        entry_by_pc(after.node_mapping@, before.contract_cfgs[k].address@, pc, 0) is Some,
{
    let cfgs = before.contract_cfgs@;
    let cfg = cfgs[k];
    let blocks = cfg.cfg_runner.map_to_instructionblock@;
    let listing = node_listings[k];
    let mapping = after.node_mapping@;
    assert(listing.to_set().contains(n));
    let u = choose|u: int| 0 <= u < listing.len() && listing[u] == n;
    assert(is_block_key(blocks, n));
    let i = choose|i: int| 0 <= i < blocks.len() && key(#[trigger] blocks[i]) == n;
    lemma_block_found(blocks, n.0, 0, i);
    lemma_block_from(blocks, n.0, 0);
    lemma_start_determines_block(cfg.cfg_runner.bytecode@, blocks, i, block_at(blocks, n.0)->0);
    lemma_composed_entry_exists(cfgs, node_listings, cfgs.len(), 0, k, u);
    lemma_search_finds_entry(mapping, cfg.address@, n.0, 0);
    lemma_search_finds_entry(mapping, cfg.address@, pc, 0);
}

/// No edge between two blocks that ran is lost: for every edge of a
/// contract's graph between two blocks of which the trace ran at least
/// one instruction each, a composed graph holds an edge of that kind
/// between their nodes.
pub proof fn lemma_graph_keeps_edge(
    before: TransactionAnalyzer,
    after: TransactionAnalyzer,
    node_listings: Seq<Seq<Node>>,
    edge_listings: Seq<Seq<(Node, Node, Edges)>>,
    dropped: usize,
    k: int,
    a: Node,
    b: Node,
)
    requires
        before.composes(after, node_listings, edge_listings, dropped),
        0 <= k < before.contract_cfgs.len(),
        before.contract_cfgs[k].cfg_runner.wf(),
        before.contract_cfgs[k].cfg_runner.edges().dom().contains((a, b)),
        ran(before.contract_cfgs[k].executed_pcs@, a),
        ran(before.contract_cfgs[k].executed_pcs@, b),
    ensures
        internal_edge(
            after.node_mapping@,
            before.contract_cfgs[k].address@,
            before.contract_cfgs[k].executed_pcs@,
            (a, b, before.contract_cfgs[k].cfg_runner.edges()[(a, b)]),
        ) is Some,
        edges_view(tx_edges(after.global_graph)).contains(
            internal_edge(
                after.node_mapping@,
                before.contract_cfgs[k].address@,
                before.contract_cfgs[k].executed_pcs@,
                (a, b, before.contract_cfgs[k].cfg_runner.edges()[(a, b)]),
            )->0,
        ),
{
    let cfgs = before.contract_cfgs@;
    let cfg = cfgs[k];
    let mapping = after.node_mapping@;
    let listing = edge_listings[k];
    let u = choose|u: int|
        0 <= u < listing.len() && (#[trigger] listing[u]).0 == a && listing[u].1 == b;
    assert(cfg.cfg_runner.edges().contains_pair((listing[u].0, listing[u].1), listing[u].2));
    assert(listing[u] == (a, b, cfg.cfg_runner.edges()[(a, b)]));
    lemma_ran_block_has_entry(before, after, node_listings, edge_listings, dropped, k, a, a.0);
    lemma_ran_block_has_entry(before, after, node_listings, edge_listings, dropped, k, b, b.0);
    lemma_composed_edge_kept(mapping, cfgs, edge_listings, cfgs.len(), k, u);
    let within = composed_edges(mapping, cfgs, edge_listings, cfgs.len());
    let e = internal_edge(mapping, cfg.address@, cfg.executed_pcs@, listing[u])->0;
    let t = choose|t: int| 0 <= t < within.len() && within[t] == e;
    assert(edges_view(tx_edges(after.global_graph))[t] == e);
}

/// No call between two blocks that ran is lost: where the trace ran the
/// block of the caller that holds the calling instruction and the first
/// block of the callee, a composed graph holds the edge of the call.
pub proof fn lemma_graph_keeps_call(
    before: TransactionAnalyzer,
    after: TransactionAnalyzer,
    node_listings: Seq<Seq<Node>>,
    edge_listings: Seq<Seq<(Node, Node, Edges)>>,
    dropped: usize,
    q: int,
    caller: int,
    from: Node,
    callee: int,
    to: Node,
)
    requires
        before.composes(after, node_listings, edge_listings, dropped),
        0 <= q < before.call_edges.len(),
        0 <= caller < before.contract_cfgs.len(),
        0 <= callee < before.contract_cfgs.len(),
        before.contract_cfgs[caller].cfg_runner.wf(),
        before.contract_cfgs[callee].cfg_runner.wf(),
        before.contract_cfgs[caller].address@ == before.call_edges[q].from_addr@,
        before.contract_cfgs[callee].address@ == before.call_edges[q].to_addr@,
        before.contract_cfgs[caller].cfg_runner.nodes().contains(from),
        before.contract_cfgs[callee].cfg_runner.nodes().contains(to),
        from.0 <= before.call_edges[q].from_pc <= from.1,
        to.0 == 0,
        ran(before.contract_cfgs[caller].executed_pcs@, from),
        ran(before.contract_cfgs[callee].executed_pcs@, to),
    ensures
        external_edge(after.node_mapping@, before.call_edges[q]) is Some,
        edges_view(tx_edges(after.global_graph)).contains(
            external_edge(after.node_mapping@, before.call_edges[q])->0,
        ),
{
    let cfgs = before.contract_cfgs@;
    let calls = before.call_edges@;
    let mapping = after.node_mapping@;
    lemma_ran_block_has_entry(
        before,
        after,
        node_listings,
        edge_listings,
        dropped,
        caller,
        from,
        calls[q].from_pc,
    );
    lemma_ran_block_has_entry(before, after, node_listings, edge_listings, dropped, callee, to, 0);
    lemma_external_edge_kept(mapping, calls, calls.len(), q);
    let within = composed_edges(mapping, cfgs, edge_listings, cfgs.len());
    let shown = external_edges(mapping, calls, calls.len());
    let e = external_edge(mapping, calls[q])->0;
    let t = choose|t: int| 0 <= t < shown.len() && shown[t] == e;
    assert(edges_view(tx_edges(after.global_graph))[within.len() + t] == e);
}

} // verus!
