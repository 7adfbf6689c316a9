use crate::cfg_gen::dag::{
    dag_add_edge, dag_add_node, dag_edges, dag_new, dag_nodes, dag_remove_node, dag_sources,
    no_edges, CfgDag, Node,
};
use crate::cfg_gen::dasm::{
    block_follows, block_holds_pc, block_matches, is_disassembly, is_valid_jumpdest,
    lemma_blocks_ascend, lemma_ops_are_instruction_starts, InstructionBlock,
};
use crate::cfg_gen::opcode::{
    is_block_ender, is_known, opcode_is_block_ender, opcode_is_known, JUMP, JUMPDEST, JUMPI,
};
use std::collections::HashSet;
use vstd::prelude::*;

verus! {

/// The kinds of edges between the basic blocks of one contract.
#[derive(Clone, Copy, Debug, PartialEq, Eq, Hash, Structural)]
pub enum Edges {
    /// Fall-through into the next block, or a jump to a pushed target.
    Jump,
    /// The taken branch of a conditional jump.
    ConditionTrue,
    /// The branch of a conditional jump that falls through.
    ConditionFalse,
    /// A jump whose target the stack solver found.
    SymbolicJump,
}

/// The control-flow graph of one contract, with the basic blocks that its
/// nodes stand for.
pub struct CFGRunner {
    pub cfg_dag: CfgDag,
    pub last_node: Option<(u16, u16)>,
    pub jumpi_edge: Option<Edges>,
    pub bytecode: Vec<u8>,
    /// The blocks of the bytecode, in the order of their addresses.
    pub map_to_instructionblock: Vec<InstructionBlock>,
    pub executed_pcs: Option<HashSet<u16>>,
}

/// The node that stands for a block.
pub open spec fn key(b: InstructionBlock) -> Node {
    (b.start_pc, b.end_pc)
}

/// Whether `n` is the node of one of the blocks.
pub open spec fn is_block_key(blocks: Seq<InstructionBlock>, n: Node) -> bool {
    exists|i: int| 0 <= i < blocks.len() && key(#[trigger] blocks[i]) == n
}

/// The label of the edge that the structure of the block `blocks[i]` alone
/// asks for from it to `blocks[j]`, if it asks for one. A jump to a target
/// that the block pushed itself leads to the block that starts there, for
/// `JUMPI` as its taken branch. The other branch of `JUMPI` falls through
/// into the next block, and a block that ends without a block-ender runs
/// on into the next; neither does where the next block starts at or
/// behind the last block's end.
pub open spec fn basic_label(blocks: Seq<InstructionBlock>, i: int, j: int) -> Option<Edges> {
    let b = blocks[i];
    let last = b.ops@.last().opcode;
    if (last == JUMP || last == JUMPI) && b.indirect_jump is None
        && b.stack_info.push_used_for_jump is Some && b.stack_info.push_used_for_jump->0.pc()
        == Some(blocks[j].start_pc) {
        if last == JUMPI {
            Some(Edges::ConditionTrue)
        } else {
            Some(Edges::Jump)
        }
    } else if j == i + 1 && b.end_pc + 1 < blocks.last().end_pc {
        if last == JUMPI {
            Some(Edges::ConditionFalse)
        } else if !is_block_ender(last) && is_known(last) {
            Some(Edges::Jump)
        } else {
            None
        }
    } else {
        None
    }
}

/// Whether one of the first `upto` blocks asks for an edge with the label
/// `label` between the pair of nodes `k`.
pub open spec fn is_basic_edge(
    blocks: Seq<InstructionBlock>,
    upto: int,
    k: (Node, Node),
    label: Edges,
) -> bool {
    exists|i: int, j: int|
        0 <= i < upto && 0 <= j < blocks.len() && k == (key(blocks[i]), key(blocks[j]))
            && #[trigger] basic_label(blocks, i, j) == Some(label)
}

/// Whether `after` is `before` with the edges that the first `upto` blocks
/// ask for: each of those is there with its label, every other edge is as
/// it was, and nothing else has come.
pub open spec fn connects(
    before: Map<(Node, Node), Edges>,
    blocks: Seq<InstructionBlock>,
    upto: int,
    after: Map<(Node, Node), Edges>,
) -> bool {
    &&& forall|k: (Node, Node), label: Edges| #[trigger]
        is_basic_edge(blocks, upto, k, label) ==> after.contains_pair(k, label)
    &&& forall|k: (Node, Node)| #[trigger]
        after.dom().contains(k) ==> is_basic_edge(blocks, upto, k, after[k])
            || before.contains_pair(k, after[k])
    &&& forall|k: (Node, Node)| #[trigger] before.dom().contains(k) ==> after.dom().contains(k)
}

/// Whether an edge leads to `n`.
pub open spec fn has_incoming(edges: Map<(Node, Node), Edges>, n: Node) -> bool {
    exists|a: Node| edges.dom().contains((a, n))
}

/// The nodes that pruning never removes: the entry block and every block
/// that begins with `JUMPDEST`.
pub open spec fn anchored(blocks: Seq<InstructionBlock>) -> Set<Node> {
    Set::new(
        |n: Node|
            n.0 == 0 || exists|i: int|
                0 <= i < blocks.len() && key(#[trigger] blocks[i]) == n && blocks[i].ops[0].opcode
                    == JUMPDEST,
    )
}

/// The pairs of nodes of which one is in `gone`.
pub open spec fn touching_any(gone: Set<Node>) -> Set<(Node, Node)> {
    Set::new(|k: (Node, Node)| gone.contains(k.0) || gone.contains(k.1))
}

/// Whether pruning removes `n`: a node without an incoming edge that is
/// not anchored.
pub open spec fn removable(
    nodes: Set<Node>,
    edges: Map<(Node, Node), Edges>,
    anchors: Set<Node>,
    n: Node,
) -> bool {
    nodes.contains(n) && !has_incoming(edges, n) && !anchors.contains(n)
}

/// The nodes that one pass of pruning leaves.
pub open spec fn pruned_nodes(
    nodes: Set<Node>,
    edges: Map<(Node, Node), Edges>,
    anchors: Set<Node>,
) -> Set<Node> {
    Set::new(|n: Node| nodes.contains(n) && !removable(nodes, edges, anchors, n))
}

/// The edges that one pass of pruning leaves: those between nodes that
/// stay.
pub open spec fn pruned_edges(
    nodes: Set<Node>,
    edges: Map<(Node, Node), Edges>,
    anchors: Set<Node>,
) -> Map<(Node, Node), Edges> {
    edges.restrict(
        Set::new(
            |k: (Node, Node)|
                !removable(nodes, edges, anchors, k.0) && !removable(nodes, edges, anchors, k.1),
        ),
    )
}

/// Blocks of a disassembly that start at the same address are the same
/// block.
pub proof fn lemma_start_determines_block(
    code: Seq<u8>,
    blocks: Seq<InstructionBlock>,
    i: int,
    j: int,
)
    requires
        is_disassembly(code, blocks),
        0 <= i < blocks.len(),
        0 <= j < blocks.len(),
        blocks[i].start_pc == blocks[j].start_pc,
    ensures
        i == j,
{
    if i < j {
        lemma_blocks_ascend(code, blocks, i, j);
    } else if j < i {
        lemma_blocks_ascend(code, blocks, j, i);
    }
}

/// Whether pruning takes no block's last incoming edge away: every edge
/// that starts at a block which pruning removes leads to an anchored
/// block, or to one that keeps an edge from a block that stays.
pub open spec fn prune_spares_targets(
    nodes: Set<Node>,
    edges: Map<(Node, Node), Edges>,
    anchors: Set<Node>,
) -> bool {
    forall|k: (Node, Node)| #[trigger]
        edges.dom().contains(k) && removable(nodes, edges, anchors, k.0) ==> anchors.contains(k.1)
            || exists|a: Node|
            edges.dom().contains((a, k.1)) && !removable(nodes, edges, anchors, a)
}

/// Pruning a second time changes nothing, provided the first pass took
/// no block's last incoming edge away.
pub proof fn lemma_prune_idempotent(
    nodes: Set<Node>,
    edges: Map<(Node, Node), Edges>,
    anchors: Set<Node>,
)
    requires
        forall|k: (Node, Node)| #[trigger]
            edges.dom().contains(k) ==> nodes.contains(k.0) && nodes.contains(k.1),
        prune_spares_targets(nodes, edges, anchors),
    ensures
        pruned_nodes(
            pruned_nodes(nodes, edges, anchors),
            pruned_edges(nodes, edges, anchors),
            anchors,
        ) == pruned_nodes(nodes, edges, anchors),
        pruned_edges(
            pruned_nodes(nodes, edges, anchors),
            pruned_edges(nodes, edges, anchors),
            anchors,
        ) == pruned_edges(nodes, edges, anchors),
{
    let nodes1 = pruned_nodes(nodes, edges, anchors);
    let edges1 = pruned_edges(nodes, edges, anchors);
    assert forall|n: Node| nodes1.contains(n) implies !removable(nodes1, edges1, anchors, n) by {
        if !anchors.contains(n) {
            let a = choose|a: Node| edges.dom().contains((a, n));
            assert(edges.dom().contains((a, n)));
            if removable(nodes, edges, anchors, a) {
                let c = choose|c: Node|
                    edges.dom().contains((c, n)) && !removable(nodes, edges, anchors, c);
                assert(edges1.dom().contains((c, n)));
            } else {
                assert(edges1.dom().contains((a, n)));
            }
        }
    }
    assert forall|n: Node| !nodes1.contains(n) implies !removable(nodes1, edges1, anchors, n) by {}
    assert(pruned_nodes(nodes1, edges1, anchors) =~= nodes1);
    assert(pruned_edges(nodes1, edges1, anchors) =~= edges1);
}

/// Whether an edge leads from `path[i]` to `path[i + 1]`.
pub open spec fn path_step(edges: Map<(Node, Node), Edges>, path: Seq<Node>, i: int) -> bool {
    edges.dom().contains((path[i], path[i + 1]))
}

/// Whether `path` follows edges from the entry block to `n`.
pub open spec fn leads_from_entry(
    nodes: Set<Node>,
    edges: Map<(Node, Node), Edges>,
    path: Seq<Node>,
    n: Node,
) -> bool {
    &&& path.len() > 0
    &&& path[0].0 == 0
    &&& nodes.contains(path[0])
    &&& path.last() == n
    &&& forall|i: int| 0 <= i < path.len() - 1 ==> #[trigger] path_step(edges, path, i)
}

/// Pruning keeps every block that a path of edges reaches from the
/// entry block.
pub proof fn lemma_prune_keeps_reachable(
    nodes: Set<Node>,
    edges: Map<(Node, Node), Edges>,
    blocks: Seq<InstructionBlock>,
    path: Seq<Node>,
    n: Node,
)
    requires
        forall|k: (Node, Node)| #[trigger]
            edges.dom().contains(k) ==> nodes.contains(k.0) && nodes.contains(k.1),
        leads_from_entry(nodes, edges, path, n),
    ensures
        pruned_nodes(nodes, edges, anchored(blocks)).contains(n),
{
    if path.len() > 1 {
        let i = path.len() - 2;
        assert(path_step(edges, path, i));
        assert(edges.dom().contains((path[i], n)));
        assert(has_incoming(edges, n));
    } else {
        assert(anchored(blocks).contains(n));
    }
}

/// After the basic edges are in, a block other than the first starts at
/// a valid jump destination or has an edge from the block before it. This
/// leaves out a block whose predecessor ends in a block-ender other than
/// `JUMPI`, and one that starts at or behind the end of the last block.
pub proof fn lemma_block_is_target_or_entered(
    code: Seq<u8>,
    blocks: Seq<InstructionBlock>,
    before: Map<(Node, Node), Edges>,
    after: Map<(Node, Node), Edges>,
    i: int,
)
    requires
        is_disassembly(code, blocks),
        connects(before, blocks, blocks.len() as int, after),
        0 < i < blocks.len(),
        !is_block_ender(blocks[i - 1].ops@.last().opcode) || (blocks[i - 1].ops@.last().opcode
            == JUMPI && blocks[i].start_pc < blocks.last().end_pc),
    ensures
        is_valid_jumpdest(code, blocks[i].start_pc as int) || after.dom().contains(
            (key(blocks[i - 1]), key(blocks[i])),
        ),
{
    let a = blocks[i - 1];
    let b = blocks[i];
    assert(block_matches(code, a));
    assert(block_matches(code, b));
    assert(block_follows(blocks, i));
    if !is_block_ender(a.ops@.last().opcode) {
        lemma_ops_are_instruction_starts(code, blocks, i, 0);
    } else {
        assert(basic_label(blocks, i - 1, i) is Some);
        assert(is_basic_edge(
            blocks,
            blocks.len() as int,
            (key(a), key(b)),
            basic_label(blocks, i - 1, i)->0,
        ));
    }
}

/// Index of the block that starts at `pc`, if there is one.
pub fn block_index_by_start(blocks: &Vec<InstructionBlock>, pc: u16) -> (found: Option<usize>)
    ensures
        found matches Some(i) ==> i < blocks.len() && blocks[i as int].start_pc == pc,
        found is None ==> forall|i: int| 0 <= i < blocks.len() ==> (#[trigger] blocks[i]).start_pc != pc,
{
    let mut i: usize = 0;
    while i < blocks.len()
        invariant
            i <= blocks.len(),
            forall|k: int| 0 <= k < i ==> (#[trigger] blocks[k]).start_pc != pc,
        decreases blocks.len() - i,
    {
        if blocks[i].start_pc == pc {
            return Some(i);
        }
        i = i + 1;
    }
    None
}

impl CFGRunner {
    /// The nodes of the graph.
    pub open spec fn nodes(&self) -> Set<Node> {
        dag_nodes(self.cfg_dag)
    }

    /// The edges of the graph.
    pub open spec fn edges(&self) -> Map<(Node, Node), Edges> {
        dag_edges(self.cfg_dag)
    }

    /// The blocks are the disassembly of the bytecode, every node stands
    /// for one of them, and every edge joins two nodes of the graph.
    pub open spec fn wf(&self) -> bool {
        &&& is_disassembly(self.bytecode@, self.map_to_instructionblock@)
        &&& forall|n: Node| #[trigger]
            self.nodes().contains(n) ==> is_block_key(self.map_to_instructionblock@, n)
        &&& forall|k: (Node, Node)| #[trigger]
            self.edges().dom().contains(k) ==> self.nodes().contains(k.0) && self.nodes().contains(
                k.1,
            )
    }

    /// Whether `self` holds the same bytecode, blocks and trace marks as
    /// `other`.
    pub open spec fn same_blocks(&self, other: Self) -> bool {
        &&& self.bytecode == other.bytecode
        &&& self.map_to_instructionblock == other.map_to_instructionblock
        &&& self.executed_pcs == other.executed_pcs
        &&& self.last_node == other.last_node
        &&& self.jumpi_edge == other.jumpi_edge
    }

    /// A graph with one node for each block and no edge.
    pub fn new(bytecode: Vec<u8>, map_to_instructionblock: Vec<InstructionBlock>) -> (runner: Self)
        requires
            is_disassembly(bytecode@, map_to_instructionblock@),
        ensures
            runner.wf(),
            runner.bytecode == bytecode,
            runner.map_to_instructionblock == map_to_instructionblock,
            runner.last_node is None,
            runner.jumpi_edge is None,
            runner.executed_pcs is None,
            forall|n: Node| runner.nodes().contains(n) <==> is_block_key(map_to_instructionblock@, n),
            runner.edges() == no_edges(),
    {
        let mut cfg_dag = dag_new();
        let mut i: usize = 0;
        while i < map_to_instructionblock.len()
            invariant
                i <= map_to_instructionblock.len(),
                dag_edges(cfg_dag) == no_edges(),
                forall|n: Node|
                    dag_nodes(cfg_dag).contains(n) <==> is_block_key(
                        map_to_instructionblock@.take(i as int),
                        n,
                    ),
            decreases map_to_instructionblock.len() - i,
        {
            let block = &map_to_instructionblock[i];
            let ghost before = dag_nodes(cfg_dag);
            dag_add_node(&mut cfg_dag, (block.start_pc, block.end_pc));
            proof {
                let blocks = map_to_instructionblock@;
                assert forall|n: Node|
                    dag_nodes(cfg_dag).contains(n) <==> is_block_key(blocks.take(i + 1), n) by {
                    if is_block_key(blocks.take(i + 1), n) {
                        let w = choose|w: int|
                            0 <= w < blocks.take(i + 1).len() && key(
                                #[trigger] blocks.take(i + 1)[w],
                            ) == n;
                        if w < i {
                            assert(key(blocks.take(i as int)[w]) == n);
                        }
                    }
                    if before.contains(n) {
                        let w = choose|w: int|
                            0 <= w < blocks.take(i as int).len() && key(
                                #[trigger] blocks.take(i as int)[w],
                            ) == n;
                        assert(key(blocks.take(i + 1)[w]) == n);
                    }
                    if n == key(blocks[i as int]) {
                        assert(key(blocks.take(i + 1)[i as int]) == n);
                    }
                }
            }
            i = i + 1;
        }
        proof {
            assert(map_to_instructionblock@.take(map_to_instructionblock.len() as int)
                =~= map_to_instructionblock@);
        }
        CFGRunner {
            cfg_dag,
            last_node: None,
            jumpi_edge: None,
            bytecode,
            map_to_instructionblock,
            executed_pcs: None,
        }
    }

    /// Index of the block that starts at `pc`, if there is one, found by
    /// halving the blocks, which stand in the order of their addresses.
    pub fn block_starting_at(&self, pc: u16) -> (found: Option<usize>)
        requires
            is_disassembly(self.bytecode@, self.map_to_instructionblock@),
        ensures
            found matches Some(i) ==> i < self.map_to_instructionblock.len()
                && self.map_to_instructionblock[i as int].start_pc == pc,
            found is None ==> forall|i: int|
                0 <= i < self.map_to_instructionblock.len() ==> (
                #[trigger] self.map_to_instructionblock[i]).start_pc != pc,
    {
        let blocks = &self.map_to_instructionblock;
        let ghost code = self.bytecode@;
        let mut lo: usize = 0;
        let mut hi: usize = blocks.len();
        while lo < hi
            invariant
                lo <= hi <= blocks.len(),
                blocks == &self.map_to_instructionblock,
                code == self.bytecode@,
                is_disassembly(code, blocks@),
                forall|k: int| 0 <= k < lo ==> (#[trigger] blocks[k]).start_pc < pc,
                forall|k: int| hi <= k < blocks.len() ==> (#[trigger] blocks[k]).start_pc > pc,
            decreases hi - lo,
        {
            let mid = lo + (hi - lo) / 2;
            let start = blocks[mid].start_pc;
            if start == pc {
                return Some(mid);
            } else if start < pc {
                proof {
                    assert forall|k: int| 0 <= k < mid + 1 implies (#[trigger] blocks[k]).start_pc
                        < pc by {
                        if k < mid {
                            lemma_blocks_ascend(code, blocks@, k, mid as int);
                        }
                    }
                }
                lo = mid + 1;
            } else {
                proof {
                    assert forall|k: int| mid <= k < blocks.len() implies (
                    #[trigger] blocks[k]).start_pc > pc by {
                        if k > mid {
                            lemma_blocks_ascend(code, blocks@, mid as int, k);
                        }
                    }
                }
                hi = mid;
            }
        }
        None
    }

    /// Adds a node for each of `instruction_blocks`, which are blocks of
    /// this graph.
    pub fn initialize_cfg_with_instruction_blocks(
        &mut self,
        instruction_blocks: Vec<InstructionBlock>,
    )
        requires
            old(self).wf(),
            forall|i: int|
                0 <= i < instruction_blocks.len() ==> is_block_key(
                    old(self).map_to_instructionblock@,
                    key(#[trigger] instruction_blocks[i]),
                ),
        ensures
            final(self).wf(),
            final(self).same_blocks(*old(self)),
            final(self).edges() == old(self).edges(),
            forall|n: Node|
                final(self).nodes().contains(n) <==> old(self).nodes().contains(n) || is_block_key(
                    instruction_blocks@,
                    n,
                ),
    {
        let mut i: usize = 0;
        while i < instruction_blocks.len()
            invariant
                i <= instruction_blocks.len(),
                self.wf(),
                self.same_blocks(*old(self)),
                self.edges() == old(self).edges(),
                forall|k: int|
                    0 <= k < instruction_blocks.len() ==> is_block_key(
                        self.map_to_instructionblock@,
                        key(#[trigger] instruction_blocks[k]),
                    ),
                forall|n: Node|
                    self.nodes().contains(n) <==> old(self).nodes().contains(n) || is_block_key(
                        instruction_blocks@.take(i as int),
                        n,
                    ),
            decreases instruction_blocks.len() - i,
        {
            let block = &instruction_blocks[i];
            let ghost before = self.nodes();
            dag_add_node(&mut self.cfg_dag, (block.start_pc, block.end_pc));
            proof {
                let given = instruction_blocks@;
                assert(self.nodes() == before.insert(key(given[i as int])));
                assert forall|n: Node|
                    self.nodes().contains(n) <==> old(self).nodes().contains(n) || is_block_key(
                        given.take(i + 1),
                        n,
                    ) by {
                    if is_block_key(given.take(i + 1), n) {
                        let w = choose|w: int|
                            0 <= w < given.take(i + 1).len() && key(
                                #[trigger] given.take(i + 1)[w],
                            ) == n;
                        if w < i {
                            assert(key(given.take(i as int)[w]) == n);
                        }
                    }
                    if is_block_key(given.take(i as int), n) {
                        let w = choose|w: int|
                            0 <= w < given.take(i as int).len() && key(
                                #[trigger] given.take(i as int)[w],
                            ) == n;
                        assert(key(given.take(i + 1)[w]) == n);
                    }
                    if n == key(given[i as int]) {
                        assert(key(given.take(i + 1)[i as int]) == n);
                    }
                }
            }
            i = i + 1;
        }
        proof {
            assert(instruction_blocks@.take(instruction_blocks.len() as int)
                =~= instruction_blocks@);
        }
    }

    /// Adds the edges that the structure of each block alone asks for.
    pub fn form_basic_connections(&mut self)
        requires
            old(self).wf(),
            forall|i: int|
                0 <= i < old(self).map_to_instructionblock.len() ==> old(self).nodes().contains(
                    key(#[trigger] old(self).map_to_instructionblock[i]),
                ),
        ensures
            final(self).wf(),
            final(self).same_blocks(*old(self)),
            final(self).nodes() == old(self).nodes(),
            connects(
                old(self).edges(),
                old(self).map_to_instructionblock@,
                old(self).map_to_instructionblock.len() as int,
                final(self).edges(),
            ),
    {
        let count = self.map_to_instructionblock.len();
        if count == 0 {
            return ;
        }
        let max_pc = self.map_to_instructionblock[count - 1].end_pc;
        let ghost blocks = self.map_to_instructionblock@;
        let ghost code = self.bytecode@;
        let ghost before = self.edges();
        let ghost all_nodes = self.nodes();
        let mut i: usize = 0;
        while i < count
            invariant
                i <= count,
                count == blocks.len(),
                count > 0,
                max_pc == blocks.last().end_pc,
                blocks == self.map_to_instructionblock@,
                code == self.bytecode@,
                before == old(self).edges(),
                all_nodes == old(self).nodes(),
                self.wf(),
                self.same_blocks(*old(self)),
                self.nodes() == all_nodes,
                forall|k: int| 0 <= k < blocks.len() ==> all_nodes.contains(key(#[trigger] blocks[k])),
                connects(before, blocks, i as int, self.edges()),
            decreases count - i,
        {
            let block = &self.map_to_instructionblock[i];
            proof {
                assert(block_matches(code, blocks[i as int]));
            }
            let from = (block.start_pc, block.end_pc);
            let end_pc = block.end_pc;
            let last = block.ops[block.ops.len() - 1].opcode;
            let direct = match (block.indirect_jump, block.stack_info.push_used_for_jump) {
                (None, Some(w)) => w.as_pc(),
                _ => None,
            };
            let target: Option<usize> = match direct {
                Some(t) => if last == JUMP || last == JUMPI {
                    self.block_starting_at(t)
                } else {
                    None
                },
                None => None,
            };
            let next: Option<Node> = if i + 1 < count {
                let follower = &self.map_to_instructionblock[i + 1];
                Some((follower.start_pc, follower.end_pc))
            } else {
                None
            };
            let target_node: Option<Node> = match target {
                Some(j) => {
                    let aim = &self.map_to_instructionblock[j];
                    Some((aim.start_pc, aim.end_pc))
                },
                None => None,
            };
            let ghost at_entry = self.edges();
            let falls: Option<Node> = if (end_pc as u32) + 1 < max_pc as u32 {
                next
            } else {
                None
            };
            if last == JUMPI {
                match falls {
                    Some(to) => {
                        dag_add_edge(&mut self.cfg_dag, from, to, Edges::ConditionFalse);
                    },
                    None => {},
                }
            }
            match target_node {
                Some(to) => {
                    let label = if last == JUMPI {
                        Edges::ConditionTrue
                    } else {
                        Edges::Jump
                    };
                    dag_add_edge(&mut self.cfg_dag, from, to, label);
                },
                None => {},
            }
            if !opcode_is_block_ender(last) && opcode_is_known(last) {
                match falls {
                    Some(to) => {
                        dag_add_edge(&mut self.cfg_dag, from, to, Edges::Jump);
                    },
                    None => {},
                }
            }
            proof {
                let now = self.edges();
                let ii = i as int;
                assert(self.nodes() =~= all_nodes);
                // What this block has put in: exactly the pairs it asks for.
                assert forall|j: int|
                    0 <= j < blocks.len() && (#[trigger] basic_label(blocks, ii, j)) is Some
                    implies now.contains_pair(
                    (from, key(blocks[j])),
                    basic_label(blocks, ii, j)->0,
                ) by {
                    if target is Some && blocks[j].start_pc == blocks[target->0 as int].start_pc {
                        lemma_start_determines_block(code, blocks, j, target->0 as int);
                    }
                }
                assert forall|k: (Node, Node)| #[trigger] now.dom().contains(k) implies (
                at_entry.contains_pair(k, now[k]) || exists|j: int|
                    0 <= j < blocks.len() && k == (from, key(blocks[j])) && #[trigger] basic_label(
                        blocks,
                        ii,
                        j,
                    ) == Some(now[k])) by {
                    if !at_entry.contains_pair(k, now[k]) {
                        if target is Some && k == (from, key(blocks[target->0 as int])) {
                            assert(basic_label(blocks, ii, target->0 as int) == Some(now[k]));
                        } else {
                            assert(k == (from, key(blocks[ii + 1])));
                            assert(basic_label(blocks, ii, ii + 1) == Some(now[k]));
                        }
                    }
                }
                assert forall|k: (Node, Node), label: Edges| #[trigger]
                    is_basic_edge(blocks, ii + 1, k, label) implies now.contains_pair(k, label) by {
                    let (a, b) = choose|a: int, b: int|
                        0 <= a < ii + 1 && 0 <= b < blocks.len() && k == (
                            key(blocks[a]),
                            key(blocks[b]),
                        ) && #[trigger] basic_label(blocks, a, b) == Some(label);
                    if a < ii {
                        assert(is_basic_edge(blocks, ii, k, label));
                        lemma_blocks_ascend(code, blocks, a, ii);
                        assert(at_entry.contains_pair(k, label));
                        assert(k.0 != from);
                    }
                }
                assert forall|k: (Node, Node)| #[trigger] now.dom().contains(k) implies (
                is_basic_edge(blocks, ii + 1, k, now[k]) || before.contains_pair(k, now[k])) by {
                    if at_entry.contains_pair(k, now[k]) {
                        assert(at_entry.dom().contains(k));
                        if is_basic_edge(blocks, ii, k, at_entry[k]) {
                            let (a, b) = choose|a: int, b: int|
                                0 <= a < ii && 0 <= b < blocks.len() && k == (
                                    key(blocks[a]),
                                    key(blocks[b]),
                                ) && #[trigger] basic_label(blocks, a, b) == Some(at_entry[k]);
                            assert(basic_label(blocks, a, b) == Some(now[k]));
                        }
                    } else {
                        let j = choose|j: int|
                            0 <= j < blocks.len() && k == (from, key(blocks[j]))
                                && #[trigger] basic_label(blocks, ii, j) == Some(now[k]);
                        assert(basic_label(blocks, ii, j) == Some(now[k]));
                    }
                }
                assert forall|k: (Node, Node)| #[trigger]
                    now.dom().contains(k) implies self.nodes().contains(k.0)
                    && self.nodes().contains(k.1) by {
                    if !at_entry.dom().contains(k) {
                    }
                }
            }
            i = i + 1;
        }
    }

    /// Removes every block that no edge leads to, unless it is the entry
    /// block or begins with `JUMPDEST`, together with the edges that start
    /// there. One pass: what loses its last incoming edge by it stays.
    pub fn remove_unreachable_instruction_blocks(&mut self)
        requires
            old(self).wf(),
        ensures
            final(self).wf(),
            final(self).same_blocks(*old(self)),
            final(self).nodes() == pruned_nodes(
                old(self).nodes(),
                old(self).edges(),
                anchored(old(self).map_to_instructionblock@),
            ),
            final(self).edges() == pruned_edges(
                old(self).nodes(),
                old(self).edges(),
                anchored(old(self).map_to_instructionblock@),
            ),
    {
        let ghost blocks = self.map_to_instructionblock@;
        let ghost code = self.bytecode@;
        let ghost nodes0 = self.nodes();
        let ghost edges0 = self.edges();
        let ghost anchors = anchored(blocks);
        let count = self.map_to_instructionblock.len();
        let mut to_remove: Vec<Node> = Vec::new();
        let mut i: usize = 0;
        while i < count
            invariant
                i <= count,
                count == blocks.len(),
                *self == *old(self),
                blocks == self.map_to_instructionblock@,
                code == self.bytecode@,
                self.wf(),
                anchors == anchored(blocks),
                forall|r: int|
                    0 <= r < to_remove.len() ==> !has_incoming(self.edges(), #[trigger] to_remove[r])
                        && !anchors.contains(to_remove[r]),
                forall|k: int|
                    0 <= k < i && removable(self.nodes(), self.edges(), anchors, key(#[trigger] blocks[k]))
                        ==> to_remove@.contains(key(blocks[k])),
            decreases count - i,
        {
            let block = &self.map_to_instructionblock[i];
            let node = (block.start_pc, block.end_pc);
            proof {
                assert(block_matches(code, blocks[i as int]));
            }
            let sources = dag_sources(&self.cfg_dag, node);
            if sources.len() == 0 {
                if block.ops[0].opcode != JUMPDEST && block.start_pc != 0 {
                    let ghost listed = to_remove@;
                    to_remove.push(node);
                    proof {
                        assert(!has_incoming(self.edges(), node)) by {
                            if has_incoming(self.edges(), node) {
                                let a = choose|a: Node| self.edges().dom().contains((a, node));
                                assert(sources@.to_set().contains(a));
                            }
                        }
                        assert(!anchors.contains(node)) by {
                            if anchors.contains(node) {
                                let w = choose|w: int|
                                    0 <= w < blocks.len() && key(#[trigger] blocks[w]) == node
                                        && blocks[w].ops[0].opcode == JUMPDEST;
                                lemma_start_determines_block(code, blocks, w, i as int);
                            }
                        }
                        assert forall|k: int|
                            0 <= k < i + 1 && removable(
                                self.nodes(),
                                self.edges(),
                                anchors,
                                key(#[trigger] blocks[k]),
                            ) implies to_remove@.contains(key(blocks[k])) by {
                            if k < i {
                                let at = choose|at: int|
                                    0 <= at < listed.len() && listed[at] == key(blocks[k]);
                                assert(to_remove@[at] == key(blocks[k]));
                            } else {
                                assert(to_remove@[to_remove.len() - 1] == node);
                            }
                        }
                    }
                } else {
                    proof {
                        assert(anchors.contains(node));
                    }
                }
            } else {
                proof {
                    assert(sources@.to_set().contains(sources@[0]));
                    assert(has_incoming(self.edges(), node));
                }
            }
            i = i + 1;
        }
        let mut r: usize = 0;
        proof {
            assert(self.nodes() =~= nodes0.difference(to_remove@.take(0).to_set()));
            assert(self.edges() =~= edges0.remove_keys(touching_any(to_remove@.take(0).to_set())));
        }
        while r < to_remove.len()
            invariant
                r <= to_remove.len(),
                self.same_blocks(*old(self)),
                blocks == self.map_to_instructionblock@,
                code == self.bytecode@,
                nodes0 == old(self).nodes(),
                edges0 == old(self).edges(),
                old(self).wf(),
                self.nodes() == nodes0.difference(to_remove@.take(r as int).to_set()),
                self.edges() == edges0.remove_keys(
                    touching_any(to_remove@.take(r as int).to_set()),
                ),
            decreases to_remove.len() - r,
        {
            let node = to_remove[r];
            let ghost gone = to_remove@.take(r as int).to_set();
            dag_remove_node(&mut self.cfg_dag, node);
            proof {
                let next_gone = to_remove@.take(r + 1).to_set();
                assert(to_remove@.take(r + 1) =~= to_remove@.take(r as int).push(node));
                assert(next_gone =~= gone.insert(node)) by {
                    assert forall|n: Node| next_gone.contains(n) <==> gone.insert(node).contains(
                        n,
                    ) by {
                        let a = to_remove@.take(r as int);
                        let b = to_remove@.take(r + 1);
                        if a.contains(n) {
                            let at = choose|at: int| 0 <= at < a.len() && a[at] == n;
                            assert(b[at] == n);
                        }
                        if n == node {
                            assert(b[r as int] == n);
                        }
                        if b.contains(n) {
                            let at = choose|at: int| 0 <= at < b.len() && b[at] == n;
                            if at < r {
                                assert(a[at] == n);
                            }
                        }
                    }
                }
                assert(self.nodes() =~= nodes0.difference(next_gone));
                assert(self.edges() =~= edges0.remove_keys(touching_any(next_gone)));
            }
            r = r + 1;
        }
        proof {
            let gone = to_remove@;
            assert(to_remove@.take(to_remove.len() as int) =~= gone);
            assert forall|n: Node| nodes0.contains(n) implies (gone.contains(n) <==> removable(
                nodes0,
                edges0,
                anchors,
                n,
            )) by {
                if gone.contains(n) {
                    let at = choose|at: int| 0 <= at < gone.len() && gone[at] == n;
                    assert(!has_incoming(edges0, to_remove[at]));
                }
                if removable(nodes0, edges0, anchors, n) {
                    let w = choose|w: int| 0 <= w < blocks.len() && key(#[trigger] blocks[w]) == n;
                    assert(gone.contains(key(blocks[w])));
                }
            }
            assert(self.nodes() =~= pruned_nodes(nodes0, edges0, anchors));
            assert(self.edges() =~= pruned_edges(nodes0, edges0, anchors));
        }
    }

    /// The node of the block that holds the instruction at `pc`, if a
    /// block holds one there.
    pub fn find_node_from_pc(&self, pc: u16) -> (found: Option<(u16, u16)>)
        ensures
            found matches Some(n) ==> exists|i: int|
                0 <= i < self.map_to_instructionblock.len() && key(
                    #[trigger] self.map_to_instructionblock[i],
                ) == n && block_holds_pc(self.map_to_instructionblock[i], pc as int),
            found is None ==> forall|i: int|
                0 <= i < self.map_to_instructionblock.len() ==> !block_holds_pc(
                    #[trigger] self.map_to_instructionblock[i],
                    pc as int,
                ),
    {
        let mut i: usize = 0;
        while i < self.map_to_instructionblock.len()
            invariant
                i <= self.map_to_instructionblock.len(),
                forall|k: int|
                    0 <= k < i ==> !block_holds_pc(
                        #[trigger] self.map_to_instructionblock[k],
                        pc as int,
                    ),
            decreases self.map_to_instructionblock.len() - i,
        {
            let block = &self.map_to_instructionblock[i];
            let mut j: usize = 0;
            while j < block.ops.len()
                invariant
                    j <= block.ops.len(),
                    i < self.map_to_instructionblock.len(),
                    *block == self.map_to_instructionblock[i as int],
                    forall|k: int| 0 <= k < j ==> (#[trigger] block.ops[k]).pc != pc,
                decreases block.ops.len() - j,
            {
                if block.ops[j].pc == pc {
                    proof {
                        let found = self.map_to_instructionblock[i as int];
                        assert(found.ops[j as int].pc == pc);
                        assert(block_holds_pc(found, pc as int));
                    }
                    return Some((block.start_pc, block.end_pc));
                }
                j = j + 1;
            }
            i = i + 1;
        }
        None
    }

    /// The node of the block that holds the instruction at `pc`.
    pub fn get_node_from_pc(&self, pc: u16) -> (node: (u16, u16))
        requires
            exists|i: int|
                0 <= i < self.map_to_instructionblock.len() && block_holds_pc(
                    #[trigger] self.map_to_instructionblock[i],
                    pc as int,
                ),
        ensures
            exists|i: int|
                0 <= i < self.map_to_instructionblock.len() && key(
                    #[trigger] self.map_to_instructionblock[i],
                ) == node && block_holds_pc(self.map_to_instructionblock[i], pc as int),
    {
        match self.find_node_from_pc(pc) {
            Some(node) => node,
            None => {
                assert(false);
                (0, 0)
            },
        }
    }

    /// The node of the first block that starts at `pc`, if one does.
    pub fn find_node_from_entry_pc(&self, pc: u16) -> (found: Option<(u16, u16)>)
        ensures
            found matches Some(n) ==> n.0 == pc && is_block_key(self.map_to_instructionblock@, n),
            found is None ==> forall|i: int|
                0 <= i < self.map_to_instructionblock.len() ==> (
                #[trigger] self.map_to_instructionblock[i]).start_pc != pc,
    {
        match block_index_by_start(&self.map_to_instructionblock, pc) {
            Some(i) => {
                let block = &self.map_to_instructionblock[i];
                Some((block.start_pc, block.end_pc))
            },
            None => None,
        }
    }

    /// The node of the block that starts at `pc`.
    pub fn get_node_from_entry_pc(&self, pc: u16) -> (node: (u16, u16))
        requires
            exists|i: int|
                0 <= i < self.map_to_instructionblock.len() && (
                #[trigger] self.map_to_instructionblock[i]).start_pc == pc,
        ensures
            node.0 == pc,
            is_block_key(self.map_to_instructionblock@, node),
    {
        match self.find_node_from_entry_pc(pc) {
            Some(node) => node,
            None => {
                assert(false);
                (0, 0)
            },
        }
    }

    /// The node of the first block that ends at `pc`, if one does.
    pub fn find_node_from_exit_pc(&self, pc: u16) -> (found: Option<(u16, u16)>)
        ensures
            found matches Some(n) ==> n.1 == pc && is_block_key(self.map_to_instructionblock@, n),
            found is None ==> forall|i: int|
                0 <= i < self.map_to_instructionblock.len() ==> (
                #[trigger] self.map_to_instructionblock[i]).end_pc != pc,
    {
        let mut i: usize = 0;
        while i < self.map_to_instructionblock.len()
            invariant
                i <= self.map_to_instructionblock.len(),
                forall|k: int|
                    0 <= k < i ==> (#[trigger] self.map_to_instructionblock[k]).end_pc != pc,
            decreases self.map_to_instructionblock.len() - i,
        {
            let block = &self.map_to_instructionblock[i];
            if block.end_pc == pc {
                return Some((block.start_pc, block.end_pc));
            }
            i = i + 1;
        }
        None
    }

    /// The node of the block that ends at `pc`.
    pub fn get_node_from_exit_pc(&self, pc: u16) -> (node: (u16, u16))
        requires
            exists|i: int|
                0 <= i < self.map_to_instructionblock.len() && (
                #[trigger] self.map_to_instructionblock[i]).end_pc == pc,
        ensures
            node.1 == pc,
            is_block_key(self.map_to_instructionblock@, node),
    {
        match self.find_node_from_exit_pc(pc) {
            Some(node) => node,
            None => {
                assert(false);
                (0, 0)
            },
        }
    }

    /// Records the program counters that a trace has run through.
    pub fn set_executed_pcs(&mut self, pcs: HashSet<u16>)
        ensures
            final(self).executed_pcs == Some(pcs),
            final(self).cfg_dag == old(self).cfg_dag,
            final(self).last_node == old(self).last_node,
            final(self).jumpi_edge == old(self).jumpi_edge,
            final(self).bytecode == old(self).bytecode,
            final(self).map_to_instructionblock == old(self).map_to_instructionblock,
    {
        self.executed_pcs = Some(pcs);
    }
}

} // verus!
