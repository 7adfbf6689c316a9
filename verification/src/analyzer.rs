use crate::address::Address;
use crate::blockchain::BytecodeCache;
use crate::cfg_gen::cfg_graph::{
    anchored, connects, is_basic_edge, is_block_key, key, lemma_start_determines_block,
    pruned_edges, pruned_nodes, CFGRunner, Edges,
};
use crate::cfg_gen::dag::{
    dag_edge_count, dag_edge_list, dag_node_count, dag_node_list, lemma_listing_len, lists_edges,
    no_edges, Node,
};
use crate::composer::{
    add_call_edges, add_contract_edges, add_contract_nodes, distinct_entries, distinct_starts,
    dropped_calls, edges_view, entries_in_range, entry_shows, external_edges, internal_edge,
    internal_edges, lemma_internal_edge_ran, lemma_shown_aligned, lemma_shown_distinct,
    lemma_shown_node_ran, names_nodes, nodes_view, ran, same_block, shown_entries, shown_nodes,
    shows_block,
};
use crate::cfg_gen::dasm::{
    block_matches, copy_range, disassemble, is_disassembly, is_valid_jumpdest, InstructionBlock,
};
use crate::cfg_gen::jump_table::{has_format_prefix, valid_jumpdests};
use crate::cfg_gen::stack_info::{indirect_jump_of, stack_info_of};
use crate::cfg_gen::stack_solve::{
    budget, closed, extends, has_worked, lemma_blocks_runnable, lemma_rest_is_unique, minimal,
    symbolic_cycle, Entries,
};
use crate::cfg_gen::trace::{
    call_edges, call_edges_view, executed_pcs, extract_call_edges, extract_contract_addresses,
    addresses_view, filter_steps_by_address, get_executed_pcs, reported_addresses, steps_of,
    steps_view, CallEdge, TraceStep, TraceStepView,
};
use crate::error::AnalysisError;
use crate::text::{decimal, escaped, hex_lower, push_decimal, push_escaped};
use crate::tx_graph::{
    no_tx_edges, no_tx_nodes, tx_edge, tx_edge_count, tx_edges, tx_new, tx_node, tx_node_count,
    tx_nodes, TxGraph,
};
use std::collections::HashSet;
use vstd::prelude::*;

verus! {

/// The control-flow graph of one contract and what a trace ran of it.
pub struct ContractCFG {
    pub address: Address,
    pub cfg_runner: CFGRunner,
    pub executed_pcs: HashSet<u16>,
    /// Whether the stack solver came to rest; where it did not, edges of
    /// indirect jumps may be missing.
    pub solver_converged: bool,
}

/// A node of the global graph: a basic block of a contract that ran.
#[derive(Clone, Debug)]
pub struct TransactionNode {
    pub contract_address: Address,
    pub pc: u16,
    pub instruction: String,
    pub contains_sstore: bool,
}

impl Default for TransactionNode {
    /// The node of the zero address at program counter zero, without
    /// text.
    fn default() -> (node: Self)
        ensures
            node.contract_address@ == Seq::new(20, |i: int| 0u8),
            node.pc == 0,
            node.instruction@ == Seq::<char>::empty(),
            !node.contains_sstore,
    {
        TransactionNode {
            contract_address: Address::zero(),
            pc: 0,
            instruction: String::new(),
            contains_sstore: false,
        }
    }
}

/// An edge of the global graph.
#[derive(Clone, Debug)]
pub enum TransactionEdge {
    /// Control flow within a contract, with the kind of the edge.
    Internal(Edges),
    /// A call from one contract into another, with the name of the
    /// calling instruction.
    External(String),
}

/// Where the node of an executed block stands in the global graph.
#[derive(Clone, Copy, Debug)]
pub struct NodeEntry {
    pub address: Address,
    pub start_pc: u16,
    pub end_pc: u16,
    pub index: usize,
}

/// The analysis of one transaction: its trace, the code and the graph of
/// every contract that it ran, and the global graph.
pub struct TransactionAnalyzer {
    pub trace_steps: Vec<TraceStep>,
    /// The addresses that the trace reports, each once, in the order in
    /// which they first occur.
    pub contract_addresses: Vec<Address>,
    pub bytecode_cache: BytecodeCache,
    /// The graphs of the contracts, one for each address, in the order
    /// of the cache.
    pub contract_cfgs: Vec<ContractCFG>,
    pub call_edges: Vec<CallEdge>,
    pub global_graph: TxGraph,
    /// For each node of the global graph, at the node's place, the
    /// contract and the block that it stands for; no block twice.
    pub node_mapping: Vec<NodeEntry>,
}

/// The valid jump destinations of the code.
pub open spec fn jumpdests_of(code: Seq<u8>) -> Set<u16> {
    Set::new(|pc: u16| is_valid_jumpdest(code, pc as int))
}

/// The nodes of all blocks.
pub open spec fn all_keys(blocks: Seq<InstructionBlock>) -> Set<Node> {
    Set::new(|n: Node| is_block_key(blocks, n))
}

/// Whether the stack information of every block is that of its
/// instructions.
pub open spec fn blocks_analysed(blocks: Seq<InstructionBlock>) -> bool {
    forall|i: int|
        0 <= i < blocks.len() ==> (#[trigger] blocks[i]).stack_info == stack_info_of(blocks[i].ops@)
            && blocks[i].indirect_jump == indirect_jump_of(blocks[i].ops@)
}

/// Whether the graph `(nodes, edges)` comes from the blocks by the three
/// steps: `basic` holds the edges that the structure of the blocks asks
/// for, `solved` adds what the stack solver found, and pruning gives the
/// graph.
pub open spec fn is_graph_of(
    blocks: Seq<InstructionBlock>,
    valid: Set<u16>,
    basic: Map<(Node, Node), Edges>,
    solved: Map<(Node, Node), Edges>,
    nodes: Set<Node>,
    edges: Map<(Node, Node), Edges>,
) -> bool {
    &&& connects(no_edges(), blocks, blocks.len() as int, basic)
    &&& extends(blocks, valid, basic, solved)
    &&& minimal(blocks, valid, basic.dom(), solved.dom())
    &&& nodes == pruned_nodes(all_keys(blocks), solved, anchored(blocks))
    &&& edges == pruned_edges(all_keys(blocks), solved, anchored(blocks))
}

/// Whether the solver came to rest on `solved`.
pub open spec fn is_complete(
    blocks: Seq<InstructionBlock>,
    valid: Set<u16>,
    solved: Map<(Node, Node), Edges>,
) -> bool {
    exists|ev: Entries| closed(blocks, valid, solved.dom(), ev)
}

/// Whether the solver stopped at its budget on `solved`, having worked
/// for every block that it took up.
pub open spec fn is_cut_short(
    blocks: Seq<InstructionBlock>,
    valid: Set<u16>,
    basic: Map<(Node, Node), Edges>,
    solved: Map<(Node, Node), Edges>,
) -> bool {
    has_worked(blocks, valid, basic.dom(), solved.dom(), budget(blocks.len()))
}

/// The graph of a contract is determined by its blocks wherever the
/// solver comes to rest: two analyses of the same blocks on which it did
/// have the same nodes and the same edges, so that analysing the same
/// code once more changes nothing.
pub proof fn lemma_graph_is_determined(
    blocks: Seq<InstructionBlock>,
    valid: Set<u16>,
    basic: Map<(Node, Node), Edges>,
    solved: Map<(Node, Node), Edges>,
    nodes: Set<Node>,
    edges: Map<(Node, Node), Edges>,
    basic_again: Map<(Node, Node), Edges>,
    solved_again: Map<(Node, Node), Edges>,
    nodes_again: Set<Node>,
    edges_again: Map<(Node, Node), Edges>,
)
    requires
        is_graph_of(blocks, valid, basic, solved, nodes, edges),
        is_graph_of(blocks, valid, basic_again, solved_again, nodes_again, edges_again),
        is_complete(blocks, valid, solved),
        is_complete(blocks, valid, solved_again),
    ensures
        basic_again == basic,
        solved_again == solved,
        nodes_again == nodes,
        edges_again == edges,
{
    let n = blocks.len() as int;
    assert forall|k: (Node, Node)| basic.dom().contains(k) implies basic_again.contains_pair(
        k,
        basic[k],
    ) by {
        assert(is_basic_edge(blocks, n, k, basic[k]));
    }
    assert forall|k: (Node, Node)| basic_again.dom().contains(k) implies basic.contains_pair(
        k,
        basic_again[k],
    ) by {
        assert(is_basic_edge(blocks, n, k, basic_again[k]));
    }
    assert(basic_again =~= basic);
    let ev = choose|ev: Entries| closed(blocks, valid, solved.dom(), ev);
    let ev_again = choose|ev: Entries| closed(blocks, valid, solved_again.dom(), ev);
    lemma_rest_is_unique(blocks, valid, basic, solved, solved_again, ev, ev_again);
}

impl ContractCFG {
    /// Whether this is the analysis of the contract at `address` with the
    /// code `code` in a transaction with the trace `steps`: the blocks
    /// are the disassembly of the code with their stack information, the
    /// graph comes from them by the basic edges, the stack solver and
    /// pruning, and the executed program counters are those of the steps
    /// that the contract ran. The solver has either come to rest or used
    /// up its budget.
    pub open spec fn is_analysis_of(
        &self,
        address: Seq<u8>,
        code: Seq<u8>,
        steps: Seq<TraceStepView>,
    ) -> bool {
        let runner = self.cfg_runner;
        let blocks = runner.map_to_instructionblock@;
        &&& self.address@ == address
        &&& runner.wf()
        &&& runner.bytecode@ == code
        &&& blocks_analysed(blocks)
        &&& self.executed_pcs@ == executed_pcs(steps_of(steps, address))
        &&& runner.executed_pcs is Some
        &&& runner.executed_pcs->0@ == self.executed_pcs@
        &&& exists|basic: Map<(Node, Node), Edges>, solved: Map<(Node, Node), Edges>|
            #![trigger is_graph_of(blocks, jumpdests_of(code), basic, solved, runner.nodes(), runner.edges())]
            is_graph_of(blocks, jumpdests_of(code), basic, solved, runner.nodes(), runner.edges())
                && (self.solver_converged ==> is_complete(blocks, jumpdests_of(code), solved))
                && (!self.solver_converged ==> is_cut_short(
                blocks,
                jumpdests_of(code),
                basic,
                solved,
            ))
    }
}

/// Two analyses of the same blocks on which the solver came to rest hold
/// the same graph, whatever the traces were.
pub proof fn lemma_analyses_agree(
    one: ContractCFG,
    other: ContractCFG,
    address: Seq<u8>,
    code: Seq<u8>,
    steps: Seq<TraceStepView>,
    other_steps: Seq<TraceStepView>,
)
    requires
        one.is_analysis_of(address, code, steps),
        other.is_analysis_of(address, code, other_steps),
        one.cfg_runner.map_to_instructionblock@ == other.cfg_runner.map_to_instructionblock@,
        one.solver_converged,
        other.solver_converged,
    ensures
        one.cfg_runner.nodes() == other.cfg_runner.nodes(),
        one.cfg_runner.edges() == other.cfg_runner.edges(),
{
    let blocks = one.cfg_runner.map_to_instructionblock@;
    let valid = jumpdests_of(code);
    let (basic, solved) = choose|basic: Map<(Node, Node), Edges>, solved: Map<(Node, Node), Edges>|
        #![trigger is_graph_of(blocks, valid, basic, solved, one.cfg_runner.nodes(), one.cfg_runner.edges())]
        is_graph_of(blocks, valid, basic, solved, one.cfg_runner.nodes(), one.cfg_runner.edges())
            && (one.solver_converged ==> is_complete(blocks, valid, solved)) && (
        !one.solver_converged ==> is_cut_short(blocks, valid, basic, solved));
    let (basic_again, solved_again) = choose|
        basic: Map<(Node, Node), Edges>,
        solved: Map<(Node, Node), Edges>,
    |
        #![trigger is_graph_of(blocks, valid, basic, solved, other.cfg_runner.nodes(), other.cfg_runner.edges())]
        is_graph_of(
            blocks,
            valid,
            basic,
            solved,
            other.cfg_runner.nodes(),
            other.cfg_runner.edges(),
        ) && (other.solver_converged ==> is_complete(blocks, valid, solved)) && (
        !other.solver_converged ==> is_cut_short(blocks, valid, basic, solved));
    lemma_graph_is_determined(
        blocks,
        valid,
        basic,
        solved,
        one.cfg_runner.nodes(),
        one.cfg_runner.edges(),
        basic_again,
        solved_again,
        other.cfg_runner.nodes(),
        other.cfg_runner.edges(),
    );
}

/// Builds the graph of the contract at `address` with the code
/// `bytecode`, for a transaction with the trace `steps`. Fails for code
/// whose jump destinations cannot be determined.
pub fn analyze_contract(steps: &[TraceStep], address: &Address, bytecode: &Vec<u8>) -> (analysis:
    Result<ContractCFG, AnalysisError>)
    ensures
        analysis is Ok <==> bytecode.len() <= crate::cfg_gen::dasm::MAX_CODE_LEN && !has_format_prefix(
            bytecode@,
        ),
        analysis is Ok ==> analysis->Ok_0.is_analysis_of(address@, bytecode@, steps_view(steps@)),
        analysis is Err ==> analysis->Err_0 == AnalysisError::BytecodeAnalysis,
{
    let valid = match valid_jumpdests(bytecode) {
        Ok(valid) => valid,
        Err(e) => {
            return Err(e);
        },
    };
    proof {
        assert(valid@ =~= jumpdests_of(bytecode@));
    }
    let mut blocks = disassemble(bytecode);
    let ghost plain = blocks@;
    let mut i: usize = 0;
    while i < blocks.len()
        invariant
            i <= blocks.len(),
            blocks.len() == plain.len(),
            is_disassembly(bytecode@, plain),
            is_disassembly(bytecode@, blocks@),
            forall|k: int| 0 <= k < blocks.len() ==> (#[trigger] blocks[k]).ops == plain[k].ops,
            forall|k: int|
                0 <= k < i ==> (#[trigger] blocks[k]).stack_info == stack_info_of(blocks[k].ops@)
                    && blocks[k].indirect_jump == indirect_jump_of(blocks[k].ops@),
        decreases blocks.len() - i,
    {
        let ghost before = blocks@;
        proof {
            lemma_blocks_runnable(bytecode@, before, i as int);
        }
        blocks[i].analyze_stack_info();
        proof {
            let after = blocks@;
            assert(after.len() == before.len());
            assert forall|k: int| 0 <= k < after.len() implies block_matches(
                bytecode@,
                #[trigger] after[k],
            ) by {
                assert(block_matches(bytecode@, before[k]));
                if k != i {
                    assert(after[k] == before[k]);
                }
            }
            assert forall|k: int| 0 < k < after.len() implies #[trigger] crate::cfg_gen::dasm::block_follows(
                after,
                k,
            ) by {
                assert(crate::cfg_gen::dasm::block_follows(before, k));
                assert(after[k].start_pc == before[k].start_pc);
                assert(after[k - 1].end_pc == before[k - 1].end_pc);
            }
            assert forall|k: int| 0 <= k < i + 1 implies (#[trigger] after[k]).stack_info
                == stack_info_of(after[k].ops@) && after[k].indirect_jump == indirect_jump_of(
                after[k].ops@,
            ) by {
                if k != i {
                    assert(after[k] == before[k]);
                }
            }
            assert forall|k: int| 0 <= k < after.len() implies (#[trigger] after[k]).ops
                == plain[k].ops by {
                if k != i {
                    assert(after[k] == before[k]);
                }
            }
        }
        i = i + 1;
    }
    let ghost analysed = blocks@;
    let code = copy_range(bytecode, 0, bytecode.len());
    proof {
        assert(code@ =~= bytecode@);
    }
    let mut runner = CFGRunner::new(code, blocks);
    let own = filter_steps_by_address(steps, address);
    let executed = get_executed_pcs(own.as_slice());
    let marks = get_executed_pcs(own.as_slice());
    runner.set_executed_pcs(marks);
    proof {
        assert(runner.nodes() =~= all_keys(analysed));
        assert(runner.wf());
    }
    runner.form_basic_connections();
    let ghost basic = runner.edges();
    let outcome = symbolic_cycle(&mut runner, &valid);
    let ghost solved = runner.edges();
    runner.remove_unreachable_instruction_blocks();
    proof {
        assert(is_graph_of(
            analysed,
            jumpdests_of(bytecode@),
            basic,
            solved,
            runner.nodes(),
            runner.edges(),
        ));
    }
    Ok(
        ContractCFG {
            address: *address,
            cfg_runner: runner,
            executed_pcs: executed,
            solver_converged: outcome.converged,
        },
    )
}

/// A node of the global graph as plain values.
pub struct TransactionNodeView {
    pub contract_address: Seq<u8>,
    pub pc: u16,
    pub instruction: Seq<char>,
    pub contains_sstore: bool,
}

impl View for TransactionNode {
    type V = TransactionNodeView;

    open spec fn view(&self) -> TransactionNodeView {
        TransactionNodeView {
            contract_address: self.contract_address@,
            pc: self.pc,
            instruction: self.instruction@,
            contains_sstore: self.contains_sstore,
        }
    }
}

/// An edge of the global graph as plain values.
pub enum TransactionEdgeView {
    Internal(Edges),
    External(Seq<char>),
}

impl View for TransactionEdge {
    type V = TransactionEdgeView;

    open spec fn view(&self) -> TransactionEdgeView {
        match *self {
            TransactionEdge::Internal(kind) => TransactionEdgeView::Internal(kind),
            TransactionEdge::External(kind) => TransactionEdgeView::External(kind@),
        }
    }
}

/// The nodes that the first `c` contracts have in their graphs together.
pub open spec fn node_total(cfgs: Seq<ContractCFG>, c: nat) -> nat
    decreases c,
{
    if c == 0 {
        0
    } else {
        node_total(cfgs, (c - 1) as nat) + cfgs[c - 1].cfg_runner.nodes().len()
    }
}

/// The edges that the first `c` contracts have in their graphs together.
pub open spec fn edge_total(cfgs: Seq<ContractCFG>, c: nat) -> nat
    decreases c,
{
    if c == 0 {
        0
    } else {
        edge_total(cfgs, (c - 1) as nat) + cfgs[c - 1].cfg_runner.edges().dom().len()
    }
}

/// Whether `listings` holds, for each of the first `c` contracts, every
/// node of its graph once.
pub open spec fn lists_all_nodes(cfgs: Seq<ContractCFG>, listings: Seq<Seq<Node>>, c: nat) -> bool {
    &&& listings.len() >= c
    &&& forall|k: int|
        0 <= k < c ==> (#[trigger] listings[k]).no_duplicates() && listings[k].to_set()
            == cfgs[k].cfg_runner.nodes()
}

/// Whether `listings` holds, for each of the first `c` contracts, every
/// edge of its graph once.
pub open spec fn lists_all_edges(
    cfgs: Seq<ContractCFG>,
    listings: Seq<Seq<(Node, Node, Edges)>>,
    c: nat,
) -> bool {
    &&& listings.len() >= c
    &&& forall|k: int|
        0 <= k < c ==> lists_edges(#[trigger] listings[k], cfgs[k].cfg_runner.edges())
}

/// The nodes of the global graph for the first `c` contracts, contract
/// after contract, each with its nodes in the order of its listing.
pub open spec fn composed_nodes(cfgs: Seq<ContractCFG>, listings: Seq<Seq<Node>>, c: nat) -> Seq<
    TransactionNodeView,
>
    decreases c,
{
    if c == 0 {
        Seq::empty()
    } else {
        let cfg = cfgs[c - 1];
        composed_nodes(cfgs, listings, (c - 1) as nat) + shown_nodes(
            cfg.address@,
            cfg.cfg_runner.map_to_instructionblock@,
            cfg.executed_pcs@,
            listings[c - 1],
            listings[c - 1].len(),
        )
    }
}

/// The entries of the node mapping for the first `c` contracts, where
/// the first new node gets the index `base`.
pub open spec fn composed_entries(
    cfgs: Seq<ContractCFG>,
    listings: Seq<Seq<Node>>,
    c: nat,
    base: nat,
) -> Seq<NodeEntry>
    decreases c,
{
    if c == 0 {
        Seq::empty()
    } else {
        let cfg = cfgs[c - 1];
        let before = composed_entries(cfgs, listings, (c - 1) as nat, base);
        before + shown_entries(
            cfg.address,
            cfg.cfg_runner.map_to_instructionblock@,
            cfg.executed_pcs@,
            listings[c - 1],
            listings[c - 1].len(),
            base + composed_nodes(cfgs, listings, (c - 1) as nat).len(),
        )
    }
}

/// The edges of the global graph within the first `c` contracts.
pub open spec fn composed_edges(
    mapping: Seq<NodeEntry>,
    cfgs: Seq<ContractCFG>,
    listings: Seq<Seq<(Node, Node, Edges)>>,
    c: nat,
) -> Seq<(usize, usize, TransactionEdgeView)>
    decreases c,
{
    if c == 0 {
        Seq::empty()
    } else {
        let cfg = cfgs[c - 1];
        composed_edges(mapping, cfgs, listings, (c - 1) as nat) + internal_edges(
            mapping,
            cfg.address@,
            cfg.executed_pcs@,
            listings[c - 1],
            listings[c - 1].len(),
        )
    }
}

proof fn lemma_totals_grow(cfgs: Seq<ContractCFG>, a: nat, b: nat)
    requires
        a <= b,
    ensures
        node_total(cfgs, a) <= node_total(cfgs, b),
        edge_total(cfgs, a) <= edge_total(cfgs, b),
    decreases b,
{
    if a < b {
        lemma_totals_grow(cfgs, a, (b - 1) as nat);
    }
}

/// No more nodes are shown than are listed, and each has its entry.
pub proof fn lemma_shown_len(
    address: Address,
    blocks: Seq<InstructionBlock>,
    executed: Set<u16>,
    listing: Seq<Node>,
    upto: nat,
    base: nat,
)
    requires
        base + upto <= usize::MAX,
    ensures
        shown_nodes(address@, blocks, executed, listing, upto).len() <= upto,
        shown_entries(address, blocks, executed, listing, upto, base).len() == shown_nodes(
            address@,
            blocks,
            executed,
            listing,
            upto,
        ).len(),
        forall|t: int|
            0 <= t < shown_entries(address, blocks, executed, listing, upto, base).len() ==> (
            #[trigger] shown_entries(address, blocks, executed, listing, upto, base)[t]).index
                == base + t,
    decreases upto,
{
    if upto > 0 {
        lemma_shown_len(address, blocks, executed, listing, (upto - 1) as nat, base);
    }
}

/// No more edges are shown than are listed.
pub proof fn lemma_internal_len(
    mapping: Seq<NodeEntry>,
    address: Seq<u8>,
    executed: Set<u16>,
    listing: Seq<(Node, Node, Edges)>,
    upto: nat,
)
    ensures
        internal_edges(mapping, address, executed, listing, upto).len() <= upto,
    decreases upto,
{
    if upto > 0 {
        lemma_internal_len(mapping, address, executed, listing, (upto - 1) as nat);
    }
}

/// No more calls are shown than the trace has.
pub proof fn lemma_external_len(mapping: Seq<NodeEntry>, calls: Seq<CallEdge>, upto: nat)
    ensures
        external_edges(mapping, calls, upto).len() <= upto,
    decreases upto,
{
    if upto > 0 {
        lemma_external_len(mapping, calls, (upto - 1) as nat);
    }
}

/// What is composed for the first `c` contracts depends on their
/// listings only.
pub proof fn lemma_composed_nodes_prefix(
    cfgs: Seq<ContractCFG>,
    a: Seq<Seq<Node>>,
    b: Seq<Seq<Node>>,
    c: nat,
    base: nat,
)
    requires
        forall|k: int| 0 <= k < c ==> a[k] == b[k],
    ensures
        composed_nodes(cfgs, a, c) == composed_nodes(cfgs, b, c),
        composed_entries(cfgs, a, c, base) == composed_entries(cfgs, b, c, base),
    decreases c,
{
    if c > 0 {
        lemma_composed_nodes_prefix(cfgs, a, b, (c - 1) as nat, base);
    }
}

/// What is composed for the first `c` contracts depends on their
/// listings only.
pub proof fn lemma_composed_edges_prefix(
    mapping: Seq<NodeEntry>,
    cfgs: Seq<ContractCFG>,
    a: Seq<Seq<(Node, Node, Edges)>>,
    b: Seq<Seq<(Node, Node, Edges)>>,
    c: nat,
)
    requires
        forall|k: int| 0 <= k < c ==> a[k] == b[k],
    ensures
        composed_edges(mapping, cfgs, a, c) == composed_edges(mapping, cfgs, b, c),
    decreases c,
{
    if c > 0 {
        lemma_composed_edges_prefix(mapping, cfgs, a, b, (c - 1) as nat);
    }
}

/// Whether `node` stands for a block of one of the first `c` contracts
/// that the trace ran.
pub open spec fn shows_block_of(
    cfgs: Seq<ContractCFG>,
    listings: Seq<Seq<Node>>,
    c: nat,
    node: TransactionNodeView,
) -> bool {
    exists|k: int|
        0 <= k < c && #[trigger] shows_block(
            cfgs[k].address@,
            cfgs[k].cfg_runner.map_to_instructionblock@,
            cfgs[k].executed_pcs@,
            listings[k],
            listings[k].len(),
            node,
        )
}

/// Every node that composing adds to the global graph stands for a block
/// of a contract of which the trace ran at least one instruction.
pub proof fn lemma_composed_node_ran(
    cfgs: Seq<ContractCFG>,
    listings: Seq<Seq<Node>>,
    c: nat,
    t: int,
)
    requires
        0 <= t < composed_nodes(cfgs, listings, c).len(),
    ensures
        shows_block_of(cfgs, listings, c, composed_nodes(cfgs, listings, c)[t]),
    decreases c,
{
    let before = composed_nodes(cfgs, listings, (c - 1) as nat);
    let cfg = cfgs[c - 1];
    if t < before.len() {
        lemma_composed_node_ran(cfgs, listings, (c - 1) as nat, t);
        let k = choose|k: int|
            0 <= k < c - 1 && #[trigger] shows_block(
                cfgs[k].address@,
                cfgs[k].cfg_runner.map_to_instructionblock@,
                cfgs[k].executed_pcs@,
                listings[k],
                listings[k].len(),
                before[t],
            );
        assert(shows_block(
            cfgs[k].address@,
            cfgs[k].cfg_runner.map_to_instructionblock@,
            cfgs[k].executed_pcs@,
            listings[k],
            listings[k].len(),
            composed_nodes(cfgs, listings, c)[t],
        ));
    } else {
        lemma_shown_node_ran(
            cfg.address@,
            cfg.cfg_runner.map_to_instructionblock@,
            cfg.executed_pcs@,
            listings[c - 1],
            listings[c - 1].len(),
            t - before.len(),
        );
        assert(shows_block(
            cfgs[c - 1].address@,
            cfgs[c - 1].cfg_runner.map_to_instructionblock@,
            cfgs[c - 1].executed_pcs@,
            listings[c - 1],
            listings[c - 1].len(),
            composed_nodes(cfgs, listings, c)[t],
        ));
    }
}

/// Whether `e` is the edge of the global graph for an edge, listed for
/// one of the first `c` contracts, between two blocks that the trace ran.
pub open spec fn joins_ran_blocks(
    mapping: Seq<NodeEntry>,
    cfgs: Seq<ContractCFG>,
    listings: Seq<Seq<(Node, Node, Edges)>>,
    c: nat,
    e: (usize, usize, TransactionEdgeView),
) -> bool {
    exists|k: int, u: int|
        0 <= k < c && 0 <= u < listings[k].len() && #[trigger] internal_edge(
            mapping,
            cfgs[k].address@,
            cfgs[k].executed_pcs@,
            listings[k][u],
        ) == Some(e) && ran(cfgs[k].executed_pcs@, listings[k][u].0) && ran(
            cfgs[k].executed_pcs@,
            listings[k][u].1,
        )
}

/// Every edge within a contract that composing adds to the global graph
/// joins two blocks of which the trace ran at least one instruction
/// each; so no block that did not run has an edge, not even to itself.
pub proof fn lemma_composed_edge_ran(
    mapping: Seq<NodeEntry>,
    cfgs: Seq<ContractCFG>,
    listings: Seq<Seq<(Node, Node, Edges)>>,
    c: nat,
    t: int,
)
    requires
        0 <= t < composed_edges(mapping, cfgs, listings, c).len(),
    ensures
        joins_ran_blocks(mapping, cfgs, listings, c, composed_edges(mapping, cfgs, listings, c)[t]),
    decreases c,
{
    let before = composed_edges(mapping, cfgs, listings, (c - 1) as nat);
    let cfg = cfgs[c - 1];
    let e = composed_edges(mapping, cfgs, listings, c)[t];
    if t < before.len() {
        lemma_composed_edge_ran(mapping, cfgs, listings, (c - 1) as nat, t);
        let (k, u) = choose|k: int, u: int|
            0 <= k < c - 1 && 0 <= u < listings[k].len() && #[trigger] internal_edge(
                mapping,
                cfgs[k].address@,
                cfgs[k].executed_pcs@,
                listings[k][u],
            ) == Some(before[t]) && ran(cfgs[k].executed_pcs@, listings[k][u].0) && ran(
                cfgs[k].executed_pcs@,
                listings[k][u].1,
            );
        assert(internal_edge(mapping, cfgs[k].address@, cfgs[k].executed_pcs@, listings[k][u])
            == Some(e));
    } else {
        let listing = listings[c - 1];
        lemma_internal_edge_ran(
            mapping,
            cfg.address@,
            cfg.executed_pcs@,
            listing,
            listing.len(),
            t - before.len(),
        );
        let u = choose|u: int|
            0 <= u < listing.len() && #[trigger] internal_edge(
                mapping,
                cfg.address@,
                cfg.executed_pcs@,
                listing[u],
            ) == Some(
                internal_edges(mapping, cfg.address@, cfg.executed_pcs@, listing, listing.len())[t
                    - before.len()],
            ) && ran(cfg.executed_pcs@, listing[u].0) && ran(cfg.executed_pcs@, listing[u].1);
        assert(internal_edge(
            mapping,
            cfgs[c - 1].address@,
            cfgs[c - 1].executed_pcs@,
            listings[c - 1][u],
        ) == Some(e));
    }
}

/// Whether no two of the contracts have the same address.
pub open spec fn distinct_contracts(cfgs: Seq<ContractCFG>) -> bool {
    forall|j: int, k: int|
        0 <= j < k < cfgs.len() ==> (#[trigger] cfgs[j]).address@ != (#[trigger] cfgs[k]).address@
}

/// Whether `entry` is for a block of one of the first `c` contracts, one
/// of the listed blocks that the trace ran.
pub open spec fn entry_of_contract(
    cfgs: Seq<ContractCFG>,
    listings: Seq<Seq<Node>>,
    c: nat,
    entry: NodeEntry,
) -> bool {
    exists|k: int|
        0 <= k < c && entry.address@ == (#[trigger] cfgs[k]).address@ && entry_shows(
            cfgs[k].cfg_runner.map_to_instructionblock@,
            cfgs[k].executed_pcs@,
            listings[k],
            listings[k].len(),
            entry,
        )
}

/// Whether every entry is for a block of one of the first `c` contracts.
pub open spec fn entries_of_contracts(
    cfgs: Seq<ContractCFG>,
    listings: Seq<Seq<Node>>,
    c: nat,
    mapping: Seq<NodeEntry>,
) -> bool {
    forall|t: int|
        0 <= t < mapping.len() ==> entry_of_contract(cfgs, listings, c, #[trigger] mapping[t])
}

impl TransactionAnalyzer {
    /// The cache holds no address twice, no two contracts have the same
    /// address, the graph of each is in order, and the node mapping
    /// stands, place for place, for the nodes of the global graph, with
    /// no block twice.
    pub open spec fn wf(&self) -> bool {
        &&& self.bytecode_cache.wf()
        &&& distinct_contracts(self.contract_cfgs@)
        &&& forall|k: int|
            0 <= k < self.contract_cfgs.len() ==> (#[trigger] self.contract_cfgs[k]).cfg_runner.wf()
        &&& names_nodes(self.node_mapping@, nodes_view(tx_nodes(self.global_graph)))
        &&& distinct_entries(self.node_mapping@)
    }

    /// Whether a graph can number the nodes and edges that the graphs of
    /// the contracts and the calls of the trace may bring.
    pub open spec fn fits(&self) -> bool {
        &&& node_total(self.contract_cfgs@, self.contract_cfgs.len() as nat) < u32::MAX
        &&& edge_total(self.contract_cfgs@, self.contract_cfgs.len() as nat)
            + self.call_edges.len() < u32::MAX
    }

    /// Whether `after` is `self` with the global graph composed anew:
    /// for listings of the nodes and edges of each contract's graph, it
    /// holds the nodes of the blocks that ran, contract after contract,
    /// then the edges between them, then the calls of the trace.
    pub open spec fn composes(
        &self,
        after: Self,
        node_listings: Seq<Seq<Node>>,
        edge_listings: Seq<Seq<(Node, Node, Edges)>>,
        dropped: usize,
    ) -> bool {
        let cfgs = self.contract_cfgs@;
        let count = cfgs.len();
        &&& lists_all_nodes(cfgs, node_listings, count)
        &&& lists_all_edges(cfgs, edge_listings, count)
        &&& nodes_view(tx_nodes(after.global_graph)) == composed_nodes(cfgs, node_listings, count)
        &&& after.node_mapping@ == composed_entries(cfgs, node_listings, count, 0)
        &&& entries_of_contracts(cfgs, node_listings, count, after.node_mapping@)
        &&& names_nodes(after.node_mapping@, nodes_view(tx_nodes(after.global_graph)))
        &&& edges_view(tx_edges(after.global_graph)) == composed_edges(
            after.node_mapping@,
            cfgs,
            edge_listings,
            count,
        ) + external_edges(after.node_mapping@, self.call_edges@, self.call_edges.len() as nat)
        &&& dropped == dropped_calls(
            after.node_mapping@,
            self.call_edges@,
            self.call_edges.len() as nat,
        )
    }

    /// The analysis of a trace: the addresses that it reports and the
    /// calls that it shows, with empty graphs.
    pub fn new(trace_steps: Vec<TraceStep>) -> (analyzer: Self)
        ensures
            analyzer.wf(),
            analyzer.trace_steps == trace_steps,
            analyzer.contract_cfgs.len() == 0,
            analyzer.bytecode_cache.cache.len() == 0,
            analyzer.node_mapping.len() == 0,
            tx_nodes(analyzer.global_graph) == no_tx_nodes(),
            tx_edges(analyzer.global_graph) == no_tx_edges(),
            addresses_view(analyzer.contract_addresses@) == reported_addresses(
                steps_view(trace_steps@),
                trace_steps.len() as nat,
            ),
            trace_steps.len() > 0 ==> call_edges_view(analyzer.call_edges@) == call_edges(
                steps_view(trace_steps@),
                (trace_steps.len() - 1) as nat,
            ),
            trace_steps.len() == 0 ==> analyzer.call_edges.len() == 0,
    {
        let contract_addresses = extract_contract_addresses(trace_steps.as_slice());
        let call_edges = extract_call_edges(trace_steps.as_slice());
        TransactionAnalyzer {
            trace_steps,
            contract_addresses,
            bytecode_cache: BytecodeCache::new(),
            contract_cfgs: Vec::new(),
            call_edges,
            global_graph: tx_new(),
            node_mapping: Vec::new(),
        }
    }

    /// Builds the graph of the contract at `address` with the code
    /// `bytecode`, for the trace of this analysis.
    pub fn generate_single_contract_cfg(&self, address: &Address, bytecode: &Vec<u8>) -> (analysis:
        Result<ContractCFG, AnalysisError>)
        ensures
            analysis is Ok <==> bytecode.len() <= crate::cfg_gen::dasm::MAX_CODE_LEN
                && !has_format_prefix(bytecode@),
            analysis is Ok ==> analysis->Ok_0.is_analysis_of(
                address@,
                bytecode@,
                steps_view(self.trace_steps@),
            ),
            analysis is Err ==> analysis->Err_0 == AnalysisError::BytecodeAnalysis,
    {
        analyze_contract(self.trace_steps.as_slice(), address, bytecode)
    }

    /// Builds the graph of every contract whose code the cache holds, in
    /// the order of the cache. Where the code of one cannot be analysed,
    /// the graphs stay as they were.
    pub fn generate_contract_cfgs(&mut self) -> (done: Result<(), AnalysisError>)
        ensures
            done is Ok <==> forall|k: int|
                0 <= k < old(self).bytecode_cache.cache.len() ==> (
                #[trigger] old(self).bytecode_cache.cache[k]).1.len()
                    <= crate::cfg_gen::dasm::MAX_CODE_LEN && !has_format_prefix(
                    old(self).bytecode_cache.cache[k].1@,
                ),
            done is Err ==> done->Err_0 == AnalysisError::BytecodeAnalysis && *final(self) == *old(
                self,
            ),
            done is Ok ==> final(self).contract_cfgs.len() == old(self).bytecode_cache.cache.len()
                && forall|k: int|
                0 <= k < final(self).contract_cfgs.len() ==> (
                #[trigger] final(self).contract_cfgs[k]).is_analysis_of(
                    old(self).bytecode_cache.cache[k].0@,
                    old(self).bytecode_cache.cache[k].1@,
                    steps_view(old(self).trace_steps@),
                ),
            final(self).trace_steps == old(self).trace_steps,
            final(self).contract_addresses == old(self).contract_addresses,
            final(self).bytecode_cache == old(self).bytecode_cache,
            final(self).call_edges == old(self).call_edges,
            final(self).global_graph == old(self).global_graph,
            final(self).node_mapping == old(self).node_mapping,
            old(self).wf() ==> final(self).wf(),
    {
        let mut cfgs: Vec<ContractCFG> = Vec::new();
        let mut k: usize = 0;
        while k < self.bytecode_cache.cache.len()
            invariant
                k <= self.bytecode_cache.cache.len(),
                *self == *old(self),
                cfgs.len() == k,
                forall|j: int|
                    0 <= j < k ==> (#[trigger] self.bytecode_cache.cache[j]).1.len()
                        <= crate::cfg_gen::dasm::MAX_CODE_LEN && !has_format_prefix(
                        self.bytecode_cache.cache[j].1@,
                    ),
                forall|j: int|
                    0 <= j < k ==> (#[trigger] cfgs[j]).is_analysis_of(
                        self.bytecode_cache.cache[j].0@,
                        self.bytecode_cache.cache[j].1@,
                        steps_view(self.trace_steps@),
                    ),
            decreases self.bytecode_cache.cache.len() - k,
        {
            let entry = &self.bytecode_cache.cache[k];
            match analyze_contract(self.trace_steps.as_slice(), &entry.0, &entry.1) {
                Ok(cfg) => {
                    cfgs.push(cfg);
                },
                Err(e) => {
                    return Err(e);
                },
            }
            k = k + 1;
        }
        proof {
            if self.wf() {
                assert forall|i: int, j: int| 0 <= i < j < cfgs.len() implies (
                #[trigger] cfgs[i]).address@ != (#[trigger] cfgs[j]).address@ by {
                    assert(cfgs[i].address@ == self.bytecode_cache.cache[i].0@);
                    assert(cfgs[j].address@ == self.bytecode_cache.cache[j].0@);
                }
            }
        }
        self.contract_cfgs = cfgs;
        Ok(())
    }

    /// Whether the global graph can number what composing may bring.
    pub fn has_capacity(&self) -> (enough: bool)
        ensures
            enough == self.fits(),
    {
        let limit: usize = 0xffff_ffff;
        let cfgs = &self.contract_cfgs;
        let mut nodes: usize = 0;
        let mut edges: usize = 0;
        if self.call_edges.len() >= limit {
            proof {
                lemma_totals_grow(cfgs@, 0, cfgs.len() as nat);
            }
            return false;
        }
        edges = edges + self.call_edges.len();
        let mut c: usize = 0;
        while c < cfgs.len()
            invariant
                c <= cfgs.len(),
                cfgs == &self.contract_cfgs,
                limit == u32::MAX,
                nodes == node_total(cfgs@, c as nat),
                edges == edge_total(cfgs@, c as nat) + self.call_edges.len(),
                nodes < limit,
                edges < limit,
            decreases cfgs.len() - c,
        {
            let more_nodes = dag_node_count(&cfgs[c].cfg_runner.cfg_dag);
            let more_edges = dag_edge_count(&cfgs[c].cfg_runner.cfg_dag);
            if more_nodes >= limit - nodes || more_edges >= limit - edges {
                proof {
                    lemma_totals_grow(cfgs@, (c + 1) as nat, cfgs.len() as nat);
                }
                return false;
            }
            nodes = nodes + more_nodes;
            edges = edges + more_edges;
            c = c + 1;
        }
        true
    }

    /// Composes the global graph anew: a node for every block of every
    /// contract that the trace ran, an edge for every edge of a
    /// contract's graph between two such blocks, and an edge for every
    /// call of the trace whose two ends have their nodes. Hands back the
    /// number of calls that were dropped for want of a node. Fails, and
    /// changes nothing, where a graph cannot number what may come.
    pub fn build_global_transaction_graph(&mut self) -> (result: Result<usize, AnalysisError>)
        ensures
            old(self).wf() ==> final(self).wf(),
            result is Ok <==> old(self).fits(),
            result is Err ==> result->Err_0 == AnalysisError::GraphCapacity && *final(self) == *old(
                self,
            ),
            result is Ok ==> exists|
                node_listings: Seq<Seq<Node>>,
                edge_listings: Seq<Seq<(Node, Node, Edges)>>,
            | #[trigger]
                old(self).composes(*final(self), node_listings, edge_listings, result->Ok_0),
            final(self).trace_steps == old(self).trace_steps,
            final(self).contract_addresses == old(self).contract_addresses,
            final(self).bytecode_cache == old(self).bytecode_cache,
            final(self).contract_cfgs == old(self).contract_cfgs,
            final(self).call_edges == old(self).call_edges,
    {
        if !self.has_capacity() {
            return Err(AnalysisError::GraphCapacity);
        }
        self.global_graph = tx_new();
        self.node_mapping = Vec::new();
        let ghost cfgs = self.contract_cfgs@;
        let ghost edges_start = tx_edges(self.global_graph);
        let ghost nodes0 = nodes_view(tx_nodes(self.global_graph));
        let ghost edges0 = edges_view(tx_edges(self.global_graph));
        let ghost mapping0 = self.node_mapping@;
        let ghost base = tx_nodes(self.global_graph).len();
        let ghost edge_base = tx_edges(self.global_graph).len();
        let ghost mut node_listings: Seq<Seq<Node>> = Seq::empty();
        let count = self.contract_cfgs.len();
        let mut c: usize = 0;
        proof {
            assert(nodes_view(tx_nodes(self.global_graph)) =~= nodes0 + composed_nodes(
                cfgs,
                node_listings,
                0,
            ));
            assert(self.node_mapping@ =~= mapping0 + composed_entries(
                cfgs,
                node_listings,
                0,
                base,
            ));
            assert(nodes0.len() == base);
        }
        while c < count
            invariant
                c <= count,
                count == cfgs.len(),
                cfgs == self.contract_cfgs@,
                self.trace_steps == old(self).trace_steps,
                self.contract_addresses == old(self).contract_addresses,
                self.bytecode_cache == old(self).bytecode_cache,
                self.contract_cfgs == old(self).contract_cfgs,
                self.call_edges == old(self).call_edges,
                nodes0.len() == base,
                base == 0,
                mapping0.len() == 0,
                base + node_total(cfgs, count as nat) < u32::MAX,
                tx_edges(self.global_graph) == edges_start,
                names_nodes(self.node_mapping@, nodes_view(tx_nodes(self.global_graph))),
                old(self).wf() ==> distinct_entries(self.node_mapping@),
                entries_of_contracts(cfgs, node_listings, c as nat, self.node_mapping@),
                node_listings.len() == c,
                lists_all_nodes(cfgs, node_listings, c as nat),
                composed_nodes(cfgs, node_listings, c as nat).len() <= node_total(cfgs, c as nat),
                tx_nodes(self.global_graph).len() == base + composed_nodes(
                    cfgs,
                    node_listings,
                    c as nat,
                ).len(),
                nodes_view(tx_nodes(self.global_graph)) == nodes0 + composed_nodes(
                    cfgs,
                    node_listings,
                    c as nat,
                ),
                self.node_mapping@ == mapping0 + composed_entries(
                    cfgs,
                    node_listings,
                    c as nat,
                    base,
                ),
                entries_in_range(self.node_mapping@, tx_nodes(self.global_graph).len()),
            decreases count - c,
        {
            let cfg = &self.contract_cfgs[c];
            let listing = dag_node_list(&cfg.cfg_runner.cfg_dag);
            let ghost before_len = tx_nodes(self.global_graph).len();
            let ghost mapping_before = self.node_mapping@;
            proof {
                listing@.unique_seq_to_set();
                lemma_totals_grow(cfgs, (c + 1) as nat, count as nat);
                lemma_shown_len(
                    cfg.address,
                    cfg.cfg_runner.map_to_instructionblock@,
                    cfg.executed_pcs@,
                    listing@,
                    listing.len() as nat,
                    before_len,
                );
            }
            add_contract_nodes(
                &mut self.global_graph,
                &mut self.node_mapping,
                &cfg.address,
                &cfg.cfg_runner.map_to_instructionblock,
                &cfg.executed_pcs,
                &listing,
            );
            proof {
                let grown = node_listings.push(listing@);
                lemma_composed_nodes_prefix(cfgs, node_listings, grown, c as nat, base);
                assert(grown[c as int] == listing@);
                let shown = shown_nodes(
                    cfg.address@,
                    cfg.cfg_runner.map_to_instructionblock@,
                    cfg.executed_pcs@,
                    listing@,
                    listing.len() as nat,
                );
                let entries = shown_entries(
                    cfg.address,
                    cfg.cfg_runner.map_to_instructionblock@,
                    cfg.executed_pcs@,
                    listing@,
                    listing.len() as nat,
                    before_len,
                );
                assert(composed_nodes(cfgs, grown, (c + 1) as nat) == composed_nodes(
                    cfgs,
                    node_listings,
                    c as nat,
                ) + shown);
                assert(nodes_view(tx_nodes(self.global_graph)) =~= nodes0 + composed_nodes(
                    cfgs,
                    grown,
                    (c + 1) as nat,
                ));
                assert(self.node_mapping@ =~= mapping0 + composed_entries(
                    cfgs,
                    grown,
                    (c + 1) as nat,
                    base,
                ));
                assert(nodes_view(tx_nodes(self.global_graph)).len() == tx_nodes(
                    self.global_graph,
                ).len());
                assert forall|t: int| 0 <= t < self.node_mapping@.len() implies (
                #[trigger] self.node_mapping@[t]).index < tx_nodes(self.global_graph).len() by {
                    if t < mapping_before.len() {
                        assert(self.node_mapping@[t] == mapping_before[t]);
                    } else {
                        assert(self.node_mapping@[t] == entries[t - mapping_before.len()]);
                    }
                }
                assert forall|k: int| 0 <= k < c + 1 implies (#[trigger] grown[k]).no_duplicates()
                    && grown[k].to_set() == cfgs[k].cfg_runner.nodes() by {
                    if k < c {
                        assert(grown[k] == node_listings[k]);
                    }
                }
                let all = self.node_mapping@;
                let blocks = cfg.cfg_runner.map_to_instructionblock@;
                if old(self).wf() {
                    assert(cfgs[c as int].cfg_runner.wf());
                    assert forall|a: int, b: int| 0 <= a < b < listing@.len() implies (
                    #[trigger] listing@[a]).0 != (#[trigger] listing@[b]).0 by {
                        assert(listing@.to_set().contains(listing@[a]));
                        assert(listing@.to_set().contains(listing@[b]));
                        assert(is_block_key(blocks, listing@[a]));
                        assert(is_block_key(blocks, listing@[b]));
                        let i = choose|i: int|
                            0 <= i < blocks.len() && key(#[trigger] blocks[i]) == listing@[a];
                        let j = choose|j: int|
                            0 <= j < blocks.len() && key(#[trigger] blocks[j]) == listing@[b];
                        if listing@[a].0 == listing@[b].0 {
                            lemma_start_determines_block(cfg.cfg_runner.bytecode@, blocks, i, j);
                        }
                    }
                    lemma_shown_distinct(
                        cfg.address,
                        blocks,
                        cfg.executed_pcs@,
                        listing@,
                        listing.len() as nat,
                        before_len,
                    );
                }
                assert(mapping_before.len() == before_len);
                assert forall|t: int| 0 <= t < all.len() implies (#[trigger] all[t]).index == t
                    && all[t].address@ == nodes_view(
                    tx_nodes(self.global_graph),
                )[t].contract_address && all[t].start_pc == nodes_view(
                    tx_nodes(self.global_graph),
                )[t].pc && entry_of_contract(cfgs, grown, (c + 1) as nat, all[t]) by {
                    if t < mapping_before.len() {
                        assert(all[t] == mapping_before[t]);
                        assert(entry_of_contract(cfgs, node_listings, c as nat, mapping_before[t]));
                        let k = choose|k: int|
                            0 <= k < c && mapping_before[t].address@ == (
                            #[trigger] cfgs[k]).address@ && entry_shows(
                                cfgs[k].cfg_runner.map_to_instructionblock@,
                                cfgs[k].executed_pcs@,
                                node_listings[k],
                                node_listings[k].len(),
                                mapping_before[t],
                            );
                        assert(grown[k] == node_listings[k]);
                    } else {
                        assert(all[t] == entries[t - mapping_before.len()]);
                        lemma_shown_aligned(
                            cfg.address,
                            blocks,
                            cfg.executed_pcs@,
                            listing@,
                            listing.len() as nat,
                            before_len,
                            t - mapping_before.len(),
                        );
                        assert(all[t].address@ == cfgs[c as int].address@);
                    }
                }
                assert forall|s: int, t: int|
                    old(self).wf() && 0 <= s < t < all.len() implies !same_block(
                    all[s],
                    all[t],
                ) by {
                    if t < mapping_before.len() {
                        assert(!same_block(mapping_before[s], mapping_before[t]));
                    } else if s >= mapping_before.len() {
                        assert(!same_block(
                            entries[s - mapping_before.len()],
                            entries[t - mapping_before.len()],
                        ));
                    } else {
                        assert(entry_of_contract(cfgs, node_listings, c as nat, mapping_before[s]));
                        lemma_shown_aligned(
                            cfg.address,
                            blocks,
                            cfg.executed_pcs@,
                            listing@,
                            listing.len() as nat,
                            before_len,
                            t - mapping_before.len(),
                        );
                        assert(all[t].address@ == cfgs[c as int].address@);
                    }
                }
                node_listings = grown;
            }
            c = c + 1;
        }
        let ghost mut edge_listings: Seq<Seq<(Node, Node, Edges)>> = Seq::empty();
        let ghost mapping = self.node_mapping@;
        let mut c: usize = 0;
        proof {
            assert(edges_view(tx_edges(self.global_graph)) =~= edges0 + composed_edges(
                mapping,
                cfgs,
                edge_listings,
                0,
            ));
            assert(edges0.len() == edge_base);
        }
        while c < count
            invariant
                c <= count,
                count == cfgs.len(),
                cfgs == self.contract_cfgs@,
                self.trace_steps == old(self).trace_steps,
                self.contract_addresses == old(self).contract_addresses,
                self.bytecode_cache == old(self).bytecode_cache,
                self.contract_cfgs == old(self).contract_cfgs,
                self.call_edges == old(self).call_edges,
                mapping == self.node_mapping@,
                edges0.len() == edge_base,
                edge_base == 0,
                edge_base + edge_total(cfgs, count as nat) + self.call_edges.len() < u32::MAX,
                edge_listings.len() == c,
                lists_all_edges(cfgs, edge_listings, c as nat),
                composed_edges(mapping, cfgs, edge_listings, c as nat).len() <= edge_total(
                    cfgs,
                    c as nat,
                ),
                tx_edges(self.global_graph).len() == edge_base + composed_edges(
                    mapping,
                    cfgs,
                    edge_listings,
                    c as nat,
                ).len(),
                edges_view(tx_edges(self.global_graph)) == edges0 + composed_edges(
                    mapping,
                    cfgs,
                    edge_listings,
                    c as nat,
                ),
                nodes_view(tx_nodes(self.global_graph)) == nodes0 + composed_nodes(
                    cfgs,
                    node_listings,
                    count as nat,
                ),
                lists_all_nodes(cfgs, node_listings, count as nat),
                mapping == mapping0 + composed_entries(cfgs, node_listings, count as nat, base),
                mapping0.len() == 0,
                nodes0.len() == 0,
                base == 0,
                entries_in_range(self.node_mapping@, tx_nodes(self.global_graph).len()),
                names_nodes(mapping, nodes_view(tx_nodes(self.global_graph))),
                old(self).wf() ==> distinct_entries(mapping),
                entries_of_contracts(cfgs, node_listings, count as nat, mapping),
            decreases count - c,
        {
            let cfg = &self.contract_cfgs[c];
            let listing = dag_edge_list(&cfg.cfg_runner.cfg_dag);
            proof {
                lemma_listing_len(listing@, cfg.cfg_runner.edges());
                lemma_totals_grow(cfgs, (c + 1) as nat, count as nat);
                lemma_internal_len(
                    mapping,
                    cfg.address@,
                    cfg.executed_pcs@,
                    listing@,
                    listing.len() as nat,
                );
            }
            add_contract_edges(
                &mut self.global_graph,
                &self.node_mapping,
                &cfg.address,
                &cfg.executed_pcs,
                &listing,
            );
            proof {
                let grown = edge_listings.push(listing@);
                lemma_composed_edges_prefix(mapping, cfgs, edge_listings, grown, c as nat);
                assert(grown[c as int] == listing@);
                assert(edges_view(tx_edges(self.global_graph)) =~= edges0 + composed_edges(
                    mapping,
                    cfgs,
                    grown,
                    (c + 1) as nat,
                ));
                assert(edges_view(tx_edges(self.global_graph)).len() == tx_edges(
                    self.global_graph,
                ).len());
                assert forall|k: int| 0 <= k < c + 1 implies lists_edges(
                    #[trigger] grown[k],
                    cfgs[k].cfg_runner.edges(),
                ) by {
                    if k < c {
                        assert(grown[k] == edge_listings[k]);
                    }
                }
                edge_listings = grown;
            }
            c = c + 1;
        }
        let dropped = add_call_edges(&mut self.global_graph, &self.node_mapping, &self.call_edges);
        proof {
            assert(edges_view(tx_edges(self.global_graph)) =~= composed_edges(
                mapping,
                cfgs,
                edge_listings,
                count as nat,
            ) + external_edges(mapping, self.call_edges@, self.call_edges.len() as nat));
            assert(nodes_view(tx_nodes(self.global_graph)) =~= composed_nodes(
                cfgs,
                node_listings,
                count as nat,
            ));
            assert(self.node_mapping@ =~= composed_entries(cfgs, node_listings, count as nat, 0));
            assert(old(self).composes(*self, node_listings, edge_listings, dropped));
            assert(exists|
                node_listings: Seq<Seq<Node>>,
                edge_listings: Seq<Seq<(Node, Node, Edges)>>,
            | #[trigger]
                old(self).composes(*self, node_listings, edge_listings, dropped));
        }
        let result: Result<usize, AnalysisError> = Ok(dropped);
        assert(result->Ok_0 == dropped);
        result
    }

    /// Writes the global graph out in Graphviz's language.
    pub fn export_global_graph_dot(&self) -> (text: String)
        ensures
            text@ == dot_text(tx_nodes(self.global_graph), tx_edges(self.global_graph)),
    {
        export_graph_dot(&self.global_graph)
    }
}

/// The first lines of the global graph in Graphviz's language.
pub const DOT_HEADER: &'static str =
    "digraph G {\n    rankdir=TB;\n    node [shape=box, style=\"filled, rounded\", color=\"#565f89\", fontcolor=\"#c0caf5\", fontname=\"Helvetica\", fillcolor=\"#24283b\"];\n    edge [color=\"#414868\", fontcolor=\"#c0caf5\", fontname=\"Helvetica\"];\n    bgcolor=\"#1a1b26\";\n";

/// The last line of a graph.
pub const DOT_FOOTER: &'static str = "}\n";

/// What a line of the graph starts with.
pub const INDENT: &'static str = "    ";

/// What stands between a node's index and its label.
pub const LABEL_OPEN: &'static str = " [label=\"";

/// What ends the line of a node.
pub const LABEL_CLOSE: &'static str = "\"];\n";

/// What ends the line of a node that writes to storage.
pub const LABEL_CLOSE_SSTORE: &'static str =
    "\", fillcolor=\"#bb9af7\", fontcolor=\"#1a1b26\", penwidth=2];\n";

/// What stands in a label between the address and the program counter.
pub const LABEL_PC: &'static str = "\\nPC: ";

/// What stands in a label between the program counter and the block.
pub const LABEL_BREAK: &'static str = "\\n";

/// What an address starts with.
pub const HEX_PREFIX: &'static str = "0x";

/// What stands between the two nodes of an edge.
pub const ARROW: &'static str = " -> ";

/// What stands between the nodes of an edge and its style.
pub const STYLE_OPEN: &'static str = " [";

/// What ends the line of an edge.
pub const STYLE_CLOSE: &'static str = "];\n";

/// The style of the taken branch of a conditional jump.
pub const STYLE_TRUE: &'static str = "color=\"#9ece6a\", label=\"True\"";

/// The style of the branch of a conditional jump that falls through.
pub const STYLE_FALSE: &'static str = "color=\"#f7768e\", label=\"False\"";

/// The style of a jump that the stack solver found.
pub const STYLE_SYMBOLIC: &'static str = "color=\"#e0af68\", style=\"dotted\", label=\"Symbolic\"";

/// The style of any other edge within a contract.
pub const STYLE_PLAIN: &'static str = "color=\"#414868\"";

/// The style of a call into another contract, up to the name of the
/// calling instruction.
pub const STYLE_CALL: &'static str = "color=\"#7aa2f7\", style=\"bold\", penwidth=2, label=\"";

/// What follows the name of the calling instruction.
pub const STYLE_CALL_CLOSE: &'static str = "\"";

/// The label of a node: the contract's address, the block's first
/// program counter, and the block's instructions.
pub open spec fn node_label(node: TransactionNode) -> Seq<char> {
    HEX_PREFIX@ + hex_lower(node.contract_address@) + LABEL_PC@ + decimal(node.pc as nat)
        + LABEL_BREAK@ + escaped(node.instruction@)
}

/// The line of the node with the index `index`.
pub open spec fn node_line(index: int, node: TransactionNode) -> Seq<char> {
    INDENT@ + decimal(index as nat) + LABEL_OPEN@ + node_label(node) + if node.contains_sstore {
        LABEL_CLOSE_SSTORE@
    } else {
        LABEL_CLOSE@
    }
}

/// The style of an edge, by its kind.
pub open spec fn edge_style(label: TransactionEdge) -> Seq<char> {
    match label {
        TransactionEdge::Internal(Edges::ConditionTrue) => STYLE_TRUE@,
        TransactionEdge::Internal(Edges::ConditionFalse) => STYLE_FALSE@,
        TransactionEdge::Internal(Edges::SymbolicJump) => STYLE_SYMBOLIC@,
        TransactionEdge::Internal(Edges::Jump) => STYLE_PLAIN@,
        TransactionEdge::External(kind) => STYLE_CALL@ + kind@ + STYLE_CALL_CLOSE@,
    }
}

/// The line of an edge.
pub open spec fn edge_line(edge: (usize, usize, TransactionEdge)) -> Seq<char> {
    INDENT@ + decimal(edge.0 as nat) + ARROW@ + decimal(edge.1 as nat) + STYLE_OPEN@ + edge_style(
        edge.2,
    ) + STYLE_CLOSE@
}

/// The lines of the first `n` nodes.
pub open spec fn node_lines(nodes: Seq<TransactionNode>, n: nat) -> Seq<char>
    decreases n,
{
    if n == 0 {
        Seq::empty()
    } else {
        node_lines(nodes, (n - 1) as nat) + node_line(n - 1, nodes[n - 1])
    }
}

/// The lines of the first `n` edges.
pub open spec fn edge_lines(edges: Seq<(usize, usize, TransactionEdge)>, n: nat) -> Seq<char>
    decreases n,
{
    if n == 0 {
        Seq::empty()
    } else {
        edge_lines(edges, (n - 1) as nat) + edge_line(edges[n - 1])
    }
}

/// A graph in Graphviz's language: the header, a line for each node, a
/// line for each edge, and the footer.
pub open spec fn dot_text(
    nodes: Seq<TransactionNode>,
    edges: Seq<(usize, usize, TransactionEdge)>,
) -> Seq<char> {
    DOT_HEADER@ + node_lines(nodes, nodes.len()) + edge_lines(edges, edges.len()) + DOT_FOOTER@
}

/// Appends the style of an edge.
fn push_edge_style(out: &mut String, label: &TransactionEdge)
    ensures
        final(out)@ == old(out)@ + edge_style(*label),
{
    match label {
        TransactionEdge::Internal(kind) => {
            match kind {
                Edges::ConditionTrue => out.append(STYLE_TRUE),
                Edges::ConditionFalse => out.append(STYLE_FALSE),
                Edges::SymbolicJump => out.append(STYLE_SYMBOLIC),
                Edges::Jump => out.append(STYLE_PLAIN),
            }
        },
        TransactionEdge::External(kind) => {
            out.append(STYLE_CALL);
            out.append(kind.as_str());
            out.append(STYLE_CALL_CLOSE);
            assert(out@ =~= old(out)@ + edge_style(*label));
        },
    }
}

/// Appends the label of a node.
fn push_node_label(out: &mut String, node: &TransactionNode)
    ensures
        final(out)@ == old(out)@ + node_label(*node),
{
    let ghost start = out@;
    out.append(HEX_PREFIX);
    let digits = crate::text::hex_encode(&node.contract_address.to_bytes());
    out.append(digits.as_str());
    let ghost a = HEX_PREFIX@ + hex_lower(node.contract_address@);
    assert(out@ =~= start + a);
    out.append(LABEL_PC);
    let ghost b = a + LABEL_PC@;
    assert(out@ =~= start + b);
    push_decimal(out, node.pc as u64);
    let ghost c = b + decimal(node.pc as nat);
    assert(out@ =~= start + c);
    out.append(LABEL_BREAK);
    let ghost d = c + LABEL_BREAK@;
    assert(out@ =~= start + d);
    push_escaped(out, node.instruction.as_str());
    assert(out@ =~= start + (d + escaped(node.instruction@)));
}

/// Appends the line of the node with the index `index`.
fn push_node_line(out: &mut String, index: usize, node: &TransactionNode)
    ensures
        final(out)@ == old(out)@ + node_line(index as int, *node),
{
    let ghost start = out@;
    out.append(INDENT);
    push_decimal(out, index as u64);
    let ghost a = INDENT@ + decimal(index as nat);
    assert(out@ =~= start + a);
    out.append(LABEL_OPEN);
    let ghost b = a + LABEL_OPEN@;
    assert(out@ =~= start + b);
    push_node_label(out, node);
    let ghost c = b + node_label(*node);
    assert(out@ =~= start + c);
    if node.contains_sstore {
        out.append(LABEL_CLOSE_SSTORE);
        assert(out@ =~= start + (c + LABEL_CLOSE_SSTORE@));
    } else {
        out.append(LABEL_CLOSE);
        assert(out@ =~= start + (c + LABEL_CLOSE@));
    }
}

/// Appends the line of an edge.
fn push_edge_line(out: &mut String, from: usize, to: usize, label: &TransactionEdge)
    ensures
        final(out)@ == old(out)@ + edge_line((from, to, *label)),
{
    let ghost start = out@;
    out.append(INDENT);
    push_decimal(out, from as u64);
    let ghost a = INDENT@ + decimal(from as nat);
    assert(out@ =~= start + a);
    out.append(ARROW);
    let ghost b = a + ARROW@;
    assert(out@ =~= start + b);
    push_decimal(out, to as u64);
    let ghost c = b + decimal(to as nat);
    assert(out@ =~= start + c);
    out.append(STYLE_OPEN);
    let ghost d = c + STYLE_OPEN@;
    assert(out@ =~= start + d);
    push_edge_style(out, label);
    let ghost e = d + edge_style(*label);
    assert(out@ =~= start + e);
    out.append(STYLE_CLOSE);
    assert(out@ =~= start + (e + STYLE_CLOSE@));
}

/// Writes the graph out in Graphviz's language.
pub fn export_graph_dot(graph: &TxGraph) -> (text: String)
    ensures
        text@ == dot_text(tx_nodes(*graph), tx_edges(*graph)),
{
    let ghost nodes = tx_nodes(*graph);
    let ghost edges = tx_edges(*graph);
    let mut out = String::from_str(DOT_HEADER);
    let count = tx_node_count(graph);
    let mut i: usize = 0;
    proof {
        assert(out@ =~= DOT_HEADER@ + node_lines(nodes, 0));
    }
    while i < count
        invariant
            i <= count,
            count == nodes.len(),
            nodes == tx_nodes(*graph),
            out@ == DOT_HEADER@ + node_lines(nodes, i as nat),
        decreases count - i,
    {
        let node = tx_node(graph, i);
        push_node_line(&mut out, i, node);
        proof {
            assert(out@ =~= DOT_HEADER@ + (node_lines(nodes, i as nat) + node_line(
                i as int,
                nodes[i as int],
            )));
        }
        i = i + 1;
    }
    let total = tx_edge_count(graph);
    let mut e: usize = 0;
    let ghost head = out@;
    proof {
        assert(out@ =~= head + edge_lines(edges, 0));
    }
    while e < total
        invariant
            e <= total,
            total == edges.len(),
            edges == tx_edges(*graph),
            out@ == head + edge_lines(edges, e as nat),
        decreases total - e,
    {
        let (from, to, label) = tx_edge(graph, e);
        push_edge_line(&mut out, from, to, label);
        proof {
            assert((from, to, *label) == edges[e as int]);
            assert(out@ =~= head + (edge_lines(edges, e as nat) + edge_line(edges[e as int])));
        }
        e = e + 1;
    }
    out.append(DOT_FOOTER);
    proof {
        assert(out@ =~= dot_text(nodes, edges));
    }
    out
}

} // verus!
