use crate::cfg_gen::cfg_graph::{has_incoming, CFGRunner, Edges};
use crate::cfg_gen::dag::{dag_edge_list, dag_sources, lists_edges, CfgDag, Node};
use crate::cfg_gen::dasm::{Instruction, InstructionBlock};
use crate::cfg_gen::render::{color_of, has_sstore, ops_text};
use crate::composer::{block_at, block_ran, find_block, ran};
use crate::text::{decimal, escaped, push_decimal, push_escaped};
use petgraph::dot::{Config, Dot};
use std::collections::HashSet;
use vstd::prelude::*;

verus! {

/// The first lines of a contract's graph in Graphviz's language.
pub const CFG_HEADER: &'static str =
    "digraph G {\n    node [shape=box, style=\"filled, rounded\", color=\"#565f89\", fontcolor=\"#c0caf5\", fontname=\"Helvetica\", fillcolor=\"#24283b\"];\n    edge [color=\"#414868\", fontcolor=\"#c0caf5\", fontname=\"Helvetica\"];\n    bgcolor=\"#1a1b26\";\n";

/// The first lines of the graph of what ran of a contract.
pub const RAN_HEADER: &'static str =
    "digraph G {\n    node [shape=box, style=\"filled, rounded\", color=\"#565f89\", fontcolor=\"#1a1b26\", fontname=\"Helvetica\"];\n    edge [color=\"#9ece6a\", fontcolor=\"#1a1b26\", fontname=\"Helvetica\", penwidth=3];\n    bgcolor=\"#1a1b26\";\n";

/// The last line of a graph.
pub const CLOSING: &'static str = "}";

/// The empty line and the last line of a contract's graph.
pub const CFG_CLOSING: &'static str = "\n}";

/// What `Dot` starts a line with.
pub const MARGIN: &'static str = "    ";

/// What `Dot` puts between a node's index and its attributes.
pub const ATTRS_OPEN: &'static str = " [ ";

/// What `Dot` ends a line with.
pub const ATTRS_CLOSE: &'static str = "]\n";

/// What stands between the two nodes of an edge.
pub const LEADS_TO: &'static str = " -> ";

/// What a label starts with.
pub const LABEL_IS: &'static str = "label = \"";

/// What ends a quoted value.
pub const QUOTE: &'static str = "\"";

/// What a color starts with.
pub const COLOR_IS: &'static str = " color = \"";

/// The shape of the entry block.
pub const ENTRY_SHAPE: &'static str = " shape = invhouse";

/// The fill of a block that no edge leads to.
pub const ORPHAN_FILL: &'static str = " fillcolor = \"#703440\"";

/// The fill of a block that ran.
pub const RAN_FILL: &'static str = " fillcolor = \"#9ece6a\" fontcolor = \"#1a1b26\"";

/// What marks an edge between two blocks that ran.
pub const RAN_EDGE: &'static str = "\" color = \"#9ece6a\" penwidth=3";

/// The attributes of the taken branch of a conditional jump.
pub const TRUE_EDGE: &'static str = "label = \"True\" color = \"#9ece6a\"";

/// The attributes of the branch of a conditional jump that falls through.
pub const FALSE_EDGE: &'static str = "label = \"False\" color = \"#f7768e\"";

/// The attributes of a jump that the stack solver found.
pub const SYMBOLIC_EDGE: &'static str =
    "label = \"Symbolic\" color = \"#e0af68\", style=\"dotted, bold\"";

/// The name of the taken branch.
pub const TRUE_NAME: &'static str = "True";

/// The name of the branch that falls through.
pub const FALSE_NAME: &'static str = "False";

/// The name of a jump that the stack solver found.
pub const SYMBOLIC_NAME: &'static str = "Symbolic";

/// The name of a plain edge.
pub const PLAIN_NAME: &'static str = "";

/// What stands between the two program counters in the name of a node.
pub const NAME_JOINT: &'static str = "_";

/// What stands between the name of a node and its attributes.
pub const NAMED_OPEN: &'static str = " [";

/// What ends the line of a named node.
pub const NAMED_CLOSE: &'static str = "];\n";

/// What ends the line of an edge between named nodes.
pub const NAMED_EDGE_CLOSE: &'static str = ";\n";

/// The fill of a block that ran and writes to storage.
pub const SSTORE_FILL: &'static str = "\" fillcolor = \"#f7768e\" fontcolor = \"#1a1b26\"";

/// The fill of a block that ran and adds or subtracts.
pub const ARITHMETIC_FILL: &'static str = "\" fillcolor = \"#ff9e64\" fontcolor = \"#1a1b26\"";

/// The fill of any other block that ran.
pub const OTHER_FILL: &'static str = "\" fillcolor = \"#9ece6a\" fontcolor = \"#1a1b26\"";

/// The opcode of `ADD`.
pub const ADD: u8 = 0x01;

/// The opcode of `SUB`.
pub const SUB: u8 = 0x03;

/// The name of an edge's kind as it stands in a label.
pub open spec fn kind_name(kind: Edges) -> Seq<char> {
    match kind {
        Edges::Jump => PLAIN_NAME@,
        Edges::ConditionTrue => TRUE_NAME@,
        Edges::ConditionFalse => FALSE_NAME@,
        Edges::SymbolicJump => SYMBOLIC_NAME@,
    }
}

/// Whether the trace, if there is one, ran the block with the node `n`.
pub open spec fn marked(executed: Option<Set<u16>>, n: Node) -> bool {
    executed is Some && ran(executed->0, n)
}

/// Index of the first of the nodes from `from` on that is `n`; the
/// number of nodes where there is none.
pub open spec fn index_in(nodes: Seq<Node>, n: Node, from: int) -> int
    decreases nodes.len() - from,
{
    if from < 0 || from >= nodes.len() {
        nodes.len() as int
    } else if nodes[from] == n {
        from
    } else {
        index_in(nodes, n, from + 1)
    }
}

/// The attributes of a node: the block as its label, the color that
/// marks how the block ends, the shape of the entry block or the fill of
/// a block that no edge leads to, and the fill of a block that ran.
pub open spec fn node_attrs(
    block: InstructionBlock,
    is_entered: bool,
    is_marked: bool,
) -> Seq<char> {
    LABEL_IS@ + ops_text(block.ops@) + QUOTE@ + match color_of(block.ops@) {
        Some(color) => COLOR_IS@ + color + QUOTE@,
        None => Seq::empty(),
    } + if block.start_pc == 0 {
        ENTRY_SHAPE@
    } else if !is_entered {
        ORPHAN_FILL@
    } else {
        Seq::empty()
    } + if is_marked {
        RAN_FILL@
    } else {
        Seq::empty()
    }
}

/// The attributes of an edge: marked where both blocks ran, and else by
/// its kind.
pub open spec fn edge_attrs(kind: Edges, both_marked: bool) -> Seq<char> {
    if both_marked {
        LABEL_IS@ + kind_name(kind) + RAN_EDGE@
    } else {
        match kind {
            Edges::Jump => Seq::empty(),
            Edges::ConditionTrue => TRUE_EDGE@,
            Edges::ConditionFalse => FALSE_EDGE@,
            Edges::SymbolicJump => SYMBOLIC_EDGE@,
        }
    }
}

/// The attributes of the node `n` of a contract's graph; nothing for a
/// node without a block.
pub open spec fn node_text(
    blocks: Seq<InstructionBlock>,
    executed: Option<Set<u16>>,
    graph: Map<(Node, Node), Edges>,
    n: Node,
) -> Seq<char> {
    match block_at(blocks, n.0) {
        Some(i) => node_attrs(blocks[i], has_incoming(graph, n), marked(executed, n)),
        None => Seq::empty(),
    }
}

/// The line that `Dot` writes for the node that it lists as number
/// `index`.
pub open spec fn cfg_node_line(
    blocks: Seq<InstructionBlock>,
    executed: Option<Set<u16>>,
    graph: Map<(Node, Node), Edges>,
    index: int,
    n: Node,
) -> Seq<char> {
    MARGIN@ + decimal(index as nat) + ATTRS_OPEN@ + node_text(blocks, executed, graph, n)
        + ATTRS_CLOSE@
}

/// The line that `Dot` writes for an edge between two listed nodes.
pub open spec fn cfg_edge_line(
    executed: Option<Set<u16>>,
    nodes: Seq<Node>,
    e: (Node, Node, Edges),
) -> Seq<char> {
    MARGIN@ + decimal(index_in(nodes, e.0, 0) as nat) + LEADS_TO@ + decimal(
        index_in(nodes, e.1, 0) as nat,
    ) + ATTRS_OPEN@ + edge_attrs(e.2, marked(executed, e.0) && marked(executed, e.1))
        + ATTRS_CLOSE@
}

/// The lines of the first `upto` nodes.
pub open spec fn cfg_node_lines(
    blocks: Seq<InstructionBlock>,
    executed: Option<Set<u16>>,
    graph: Map<(Node, Node), Edges>,
    nodes: Seq<Node>,
    upto: nat,
) -> Seq<char>
    decreases upto,
{
    if upto == 0 {
        Seq::empty()
    } else {
        cfg_node_lines(blocks, executed, graph, nodes, (upto - 1) as nat) + cfg_node_line(
            blocks,
            executed,
            graph,
            upto - 1,
            nodes[upto - 1],
        )
    }
}

/// The lines of the first `upto` edges.
pub open spec fn cfg_edge_lines(
    executed: Option<Set<u16>>,
    nodes: Seq<Node>,
    edges: Seq<(Node, Node, Edges)>,
    upto: nat,
) -> Seq<char>
    decreases upto,
{
    if upto == 0 {
        Seq::empty()
    } else {
        cfg_edge_lines(executed, nodes, edges, (upto - 1) as nat) + cfg_edge_line(
            executed,
            nodes,
            edges[upto - 1],
        )
    }
}

/// What `Dot` writes of a contract's graph, for a listing of its nodes
/// and a listing of its edges: a line for each node under the number of
/// its place in the listing, then a line for each edge.
pub open spec fn cfg_dot_body(
    blocks: Seq<InstructionBlock>,
    executed: Option<Set<u16>>,
    graph: Map<(Node, Node), Edges>,
    nodes: Seq<Node>,
    edges: Seq<(Node, Node, Edges)>,
) -> Seq<char> {
    cfg_node_lines(blocks, executed, graph, nodes, nodes.len()) + cfg_edge_lines(
        executed,
        nodes,
        edges,
        edges.len(),
    )
}

/// Whether `nodes` lists every node of the graph once and `edges` every
/// edge once, with its label.
pub open spec fn lists_graph(
    runner: CFGRunner,
    nodes: Seq<Node>,
    edges: Seq<(Node, Node, Edges)>,
) -> bool {
    nodes.no_duplicates() && nodes.to_set() == runner.nodes() && lists_edges(edges, runner.edges())
}

/// Whether `text` is what `Dot` writes of the graph, for some order of
/// its nodes and some order of its edges.
pub open spec fn is_dot_body(runner: CFGRunner, text: Seq<char>) -> bool {
    exists|nodes: Seq<Node>, edges: Seq<(Node, Node, Edges)>| #[trigger]
        lists_graph(runner, nodes, edges) && text == cfg_dot_body(
            runner.map_to_instructionblock@,
            marks(runner.executed_pcs),
            runner.edges(),
            nodes,
            edges,
        )
}

/// Whether `text` is the graph of a contract in Graphviz's language, for
/// some order of its nodes and some order of its edges: the header, what
/// `Dot` writes of the graph, an empty line and the closing brace.
pub open spec fn is_cfg_dot(runner: CFGRunner, text: Seq<char>) -> bool {
    exists|nodes: Seq<Node>, edges: Seq<(Node, Node, Edges)>| #[trigger]
        lists_graph(runner, nodes, edges) && text == CFG_HEADER@ + cfg_dot_body(
            runner.map_to_instructionblock@,
            marks(runner.executed_pcs),
            runner.edges(),
            nodes,
            edges,
        ) + CFG_CLOSING@
}

/// The name of a node where nodes go by name.
pub open spec fn node_name(n: Node) -> Seq<char> {
    QUOTE@ + decimal(n.0 as nat) + NAME_JOINT@ + decimal(n.1 as nat) + QUOTE@
}

/// Whether one of the instructions is `ADD` or `SUB`.
pub open spec fn has_arithmetic(ops: Seq<Instruction>) -> bool {
    exists|j: int| 0 <= j < ops.len() && ((#[trigger] ops[j]).opcode == ADD || ops[j].opcode == SUB)
}

/// The fill of a block that ran: by whether it writes to storage, else
/// by whether it adds or subtracts.
pub open spec fn ran_fill(ops: Seq<Instruction>) -> Seq<char> {
    if has_sstore(ops) {
        SSTORE_FILL@
    } else if has_arithmetic(ops) {
        ARITHMETIC_FILL@
    } else {
        OTHER_FILL@
    }
}

/// The line of a block that ran, in the graph of what ran.
pub open spec fn ran_node_line(block: InstructionBlock) -> Seq<char> {
    node_name((block.start_pc, block.end_pc)) + NAMED_OPEN@ + LABEL_IS@ + escaped(
        ops_text(block.ops@),
    ) + ran_fill(block.ops@) + if block.start_pc == 0 {
        ENTRY_SHAPE@
    } else {
        Seq::empty()
    } + NAMED_CLOSE@
}

/// The lines of those of the first `upto` blocks that ran.
pub open spec fn ran_node_lines(
    blocks: Seq<InstructionBlock>,
    executed: Set<u16>,
    upto: nat,
) -> Seq<char>
    decreases upto,
{
    if upto == 0 {
        Seq::empty()
    } else {
        let b = blocks[upto - 1];
        ran_node_lines(blocks, executed, (upto - 1) as nat) + if ran(
            executed,
            (b.start_pc, b.end_pc),
        ) {
            ran_node_line(b)
        } else {
            Seq::empty()
        }
    }
}

/// The lines of those of the first `upto` edges whose two blocks ran.
pub open spec fn ran_edge_lines(
    edges: Seq<(Node, Node, Edges)>,
    executed: Set<u16>,
    upto: nat,
) -> Seq<char>
    decreases upto,
{
    if upto == 0 {
        Seq::empty()
    } else {
        let e = edges[upto - 1];
        ran_edge_lines(edges, executed, (upto - 1) as nat) + if ran(executed, e.0) && ran(
            executed,
            e.1,
        ) {
            node_name(e.0) + LEADS_TO@ + node_name(e.1) + NAMED_EDGE_CLOSE@
        } else {
            Seq::empty()
        }
    }
}

/// The graph of what ran of a contract, in Graphviz's language, for a
/// listing of the edges: the blocks that ran in the order of their
/// addresses, then the edges between them. Without a trace it is empty.
pub open spec fn ran_dot_text(
    blocks: Seq<InstructionBlock>,
    executed: Option<Set<u16>>,
    edges: Seq<(Node, Node, Edges)>,
) -> Seq<char> {
    match executed {
        Some(pcs) => RAN_HEADER@ + ran_node_lines(blocks, pcs, blocks.len()) + ran_edge_lines(
            edges,
            pcs,
            edges.len(),
        ) + CLOSING@,
        None => RAN_HEADER@ + CLOSING@,
    }
}

/// The program counters that were run, as a set, if there is a trace.
pub open spec fn marks(executed: Option<HashSet<u16>>) -> Option<Set<u16>> {
    match executed {
        Some(pcs) => Some(pcs@),
        None => None,
    }
}

/// Whether the trace, if there is one, ran the block with the node `n`.
pub fn is_marked(executed: &Option<HashSet<u16>>, n: (u16, u16)) -> (found: bool)
    ensures
        found == marked(marks(*executed), n),
{
    match executed {
        Some(pcs) => block_ran(pcs, n),
        None => false,
    }
}

/// Appends the attributes of a node.
fn push_node_attrs(out: &mut String, block: &InstructionBlock, is_entered: bool, is_marked: bool)
    ensures
        final(out)@ == old(out)@ + node_attrs(*block, is_entered, is_marked),
{
    let ghost start = out@;
    out.append(LABEL_IS);
    let text = block.to_string();
    out.append(text.as_str());
    let ghost a = LABEL_IS@ + ops_text(block.ops@);
    assert(out@ =~= start + a);
    out.append(QUOTE);
    let ghost b = a + QUOTE@;
    assert(out@ =~= start + b);
    let ghost tint = match color_of(block.ops@) {
        Some(color) => COLOR_IS@ + color + QUOTE@,
        None => Seq::empty(),
    };
    match block.node_color() {
        Some(color) => {
            out.append(COLOR_IS);
            out.append(color);
            out.append(QUOTE);
        },
        None => {},
    }
    let ghost c = b + tint;
    assert(out@ =~= start + c);
    let ghost shape = if block.start_pc == 0 {
        ENTRY_SHAPE@
    } else if !is_entered {
        ORPHAN_FILL@
    } else {
        Seq::empty()
    };
    if block.start_pc == 0 {
        out.append(ENTRY_SHAPE);
    } else if !is_entered {
        out.append(ORPHAN_FILL);
    }
    let ghost d = c + shape;
    assert(out@ =~= start + d);
    if is_marked {
        out.append(RAN_FILL);
        assert(out@ =~= start + (d + RAN_FILL@));
    } else {
        assert(out@ =~= start + (d + Seq::<char>::empty()));
    }
}

/// Appends the attributes of an edge.
fn push_edge_attrs(out: &mut String, kind: Edges, both_marked: bool)
    ensures
        final(out)@ == old(out)@ + edge_attrs(kind, both_marked),
{
    let ghost start = out@;
    if both_marked {
        out.append(LABEL_IS);
        out.append(kind.label());
        assert(out@ =~= start + (LABEL_IS@ + kind_name(kind)));
        out.append(RAN_EDGE);
        assert(out@ =~= start + edge_attrs(kind, both_marked));
    } else {
        match kind {
            Edges::Jump => {
                assert(out@ =~= start + edge_attrs(kind, both_marked));
            },
            Edges::ConditionTrue => out.append(TRUE_EDGE),
            Edges::ConditionFalse => out.append(FALSE_EDGE),
            Edges::SymbolicJump => out.append(SYMBOLIC_EDGE),
        }
    }
}

/// `petgraph::dot::Dot::with_attr_getters`, written out by its `Debug`
/// form with the settings `GraphContentOnly`, `NodeNoLabel` and
/// `EdgeNoLabel`: a line for each node of the graph, under the index
/// at which the graph holds it, then a line for each edge between the
/// indices of its nodes; each line holds the attributes that
/// `node_attributes` and `edge_attributes` give.
#[verifier::external_body]
fn dot_body(runner: &CFGRunner) -> (text: String)
    ensures
        is_dot_body(*runner, text@),
{
    let look = [Config::GraphContentOnly, Config::NodeNoLabel, Config::EdgeNoLabel];
    let of_edge = |_: &CfgDag, e: ((u16, u16), (u16, u16), &Edges)|
        runner.edge_attributes(e.0, e.1, *e.2);
    let of_node = |_: &CfgDag, n: ((u16, u16), &(u16, u16))| runner.node_attributes(n.0);
    format!("{:?}", Dot::with_attr_getters(&runner.cfg_dag, &look, &of_edge, &of_node))
}

/// Whether one of the instructions of the block is `ADD` or `SUB`.
pub fn contains_arithmetic(block: &InstructionBlock) -> (found: bool)
    ensures
        found == has_arithmetic(block.ops@),
{
    let mut j: usize = 0;
    while j < block.ops.len()
        invariant
            j <= block.ops.len(),
            forall|k: int|
                0 <= k < j ==> (#[trigger] block.ops[k]).opcode != ADD && block.ops[k].opcode != SUB,
        decreases block.ops.len() - j,
    {
        if block.ops[j].opcode == ADD || block.ops[j].opcode == SUB {
            return true;
        }
        j = j + 1;
    }
    false
}

/// Appends the name of a node.
fn push_node_name(out: &mut String, n: (u16, u16))
    ensures
        final(out)@ == old(out)@ + node_name(n),
{
    let ghost start = out@;
    out.append(QUOTE);
    push_decimal(out, n.0 as u64);
    let ghost a = QUOTE@ + decimal(n.0 as nat);
    assert(out@ =~= start + a);
    out.append(NAME_JOINT);
    let ghost b = a + NAME_JOINT@;
    assert(out@ =~= start + b);
    push_decimal(out, n.1 as u64);
    let ghost c = b + decimal(n.1 as nat);
    assert(out@ =~= start + c);
    out.append(QUOTE);
    assert(out@ =~= start + (c + QUOTE@));
}

/// Appends the line of a block that ran.
fn push_ran_node_line(out: &mut String, block: &InstructionBlock)
    ensures
        final(out)@ == old(out)@ + ran_node_line(*block),
{
    let ghost start = out@;
    push_node_name(out, (block.start_pc, block.end_pc));
    out.append(NAMED_OPEN);
    let ghost a = node_name((block.start_pc, block.end_pc)) + NAMED_OPEN@;
    assert(out@ =~= start + a);
    out.append(LABEL_IS);
    let ghost b = a + LABEL_IS@;
    assert(out@ =~= start + b);
    let text = block.to_string();
    push_escaped(out, text.as_str());
    let ghost c = b + escaped(ops_text(block.ops@));
    assert(out@ =~= start + c);
    if block.contains_sstore() {
        out.append(SSTORE_FILL);
    } else if contains_arithmetic(block) {
        out.append(ARITHMETIC_FILL);
    } else {
        out.append(OTHER_FILL);
    }
    let ghost d = c + ran_fill(block.ops@);
    assert(out@ =~= start + d);
    let ghost shape = if block.start_pc == 0 {
        ENTRY_SHAPE@
    } else {
        Seq::empty()
    };
    if block.start_pc == 0 {
        out.append(ENTRY_SHAPE);
    }
    let ghost f = d + shape;
    assert(out@ =~= start + f);
    out.append(NAMED_CLOSE);
    assert(out@ =~= start + (f + NAMED_CLOSE@));
}

/// Appends the line of an edge between two blocks that ran.
fn push_ran_edge_line(out: &mut String, from: (u16, u16), to: (u16, u16))
    ensures
        final(out)@ == old(out)@ + (node_name(from) + LEADS_TO@ + node_name(to)
            + NAMED_EDGE_CLOSE@),
{
    let ghost start = out@;
    push_node_name(out, from);
    let ghost a = node_name(from);
    assert(out@ =~= start + a);
    out.append(LEADS_TO);
    let ghost b = a + LEADS_TO@;
    assert(out@ =~= start + b);
    push_node_name(out, to);
    let ghost c = b + node_name(to);
    assert(out@ =~= start + c);
    out.append(NAMED_EDGE_CLOSE);
    assert(out@ =~= start + (c + NAMED_EDGE_CLOSE@));
}

/// Writes the graph of what ran of a contract out in Graphviz's
/// language, for the listing `edges` of the edges of its graph.
pub fn render_ran_dot(
    blocks: &Vec<InstructionBlock>,
    executed: &Option<HashSet<u16>>,
    edges: &Vec<((u16, u16), (u16, u16), Edges)>,
) -> (text: String)
    ensures
        text@ == ran_dot_text(blocks@, marks(*executed), edges@),
{
    let mut out = String::from_str(RAN_HEADER);
    match executed {
        Some(pcs) => {
            let mut i: usize = 0;
            proof {
                assert(out@ =~= RAN_HEADER@ + ran_node_lines(blocks@, pcs@, 0));
            }
            while i < blocks.len()
                invariant
                    i <= blocks.len(),
                    out@ == RAN_HEADER@ + ran_node_lines(blocks@, pcs@, i as nat),
                decreases blocks.len() - i,
            {
                let block = &blocks[i];
                if block_ran(pcs, (block.start_pc, block.end_pc)) {
                    push_ran_node_line(&mut out, block);
                    proof {
                        assert(out@ =~= RAN_HEADER@ + (ran_node_lines(blocks@, pcs@, i as nat)
                            + ran_node_line(*block)));
                    }
                } else {
                    proof {
                        assert(out@ =~= RAN_HEADER@ + (ran_node_lines(blocks@, pcs@, i as nat)
                            + Seq::<char>::empty()));
                    }
                }
                i = i + 1;
            }
            let ghost head = out@;
            let mut e: usize = 0;
            proof {
                assert(out@ =~= head + ran_edge_lines(edges@, pcs@, 0));
            }
            while e < edges.len()
                invariant
                    e <= edges.len(),
                    out@ == head + ran_edge_lines(edges@, pcs@, e as nat),
                decreases edges.len() - e,
            {
                let (from, to, kind) = edges[e];
                if block_ran(pcs, from) && block_ran(pcs, to) {
                    push_ran_edge_line(&mut out, from, to);
                    proof {
                        assert(out@ =~= head + (ran_edge_lines(edges@, pcs@, e as nat) + (
                        node_name(from) + LEADS_TO@ + node_name(to) + NAMED_EDGE_CLOSE@)));
                    }
                } else {
                    proof {
                        assert(out@ =~= head + (ran_edge_lines(edges@, pcs@, e as nat)
                            + Seq::<char>::empty()));
                    }
                }
                e = e + 1;
            }
            out.append(CLOSING);
            proof {
                assert(out@ =~= ran_dot_text(blocks@, marks(*executed), edges@));
            }
        },
        None => {
            out.append(CLOSING);
        },
    }
    out
}

impl Edges {
    /// The name of the kind as it stands in a label: nothing for a plain
    /// edge, `True`, `False` or `Symbolic` for the others.
    pub fn label(&self) -> (name: &'static str)
        ensures
            name@ == kind_name(*self),
    {
        match self {
            Edges::Jump => PLAIN_NAME,
            Edges::ConditionTrue => TRUE_NAME,
            Edges::ConditionFalse => FALSE_NAME,
            Edges::SymbolicJump => SYMBOLIC_NAME,
        }
    }
}

impl CFGRunner {
    /// The attributes of the node `n` in the graph in Graphviz's
    /// language: its block as the label, and what marks the entry block,
    /// a block that no edge leads to and a block that ran.
    pub fn node_attributes(&self, n: (u16, u16)) -> (text: String)
        ensures
            text@ == node_text(
                self.map_to_instructionblock@,
                marks(self.executed_pcs),
                self.edges(),
                n,
            ),
    {
        let mut out = String::new();
        match find_block(&self.map_to_instructionblock, n.0) {
            Some(i) => {
                let sources = dag_sources(&self.cfg_dag, n);
                let into = sources.len() > 0;
                proof {
                    if has_incoming(self.edges(), n) {
                        let a = choose|a: Node| self.edges().dom().contains((a, n));
                        assert(sources@.to_set().contains(a));
                        assert(sources@.contains(a));
                    }
                    if into {
                        assert(sources@.to_set().contains(sources[0]));
                    }
                }
                let shown = is_marked(&self.executed_pcs, n);
                push_node_attrs(&mut out, &self.map_to_instructionblock[i], into, shown);
                proof {
                    assert(out@ =~= node_attrs(self.map_to_instructionblock[i as int], into, shown));
                }
            },
            None => {},
        }
        out
    }

    /// The attributes of an edge of the kind `kind` from `from` to `to`
    /// in the graph in Graphviz's language.
    pub fn edge_attributes(&self, from: (u16, u16), to: (u16, u16), kind: Edges) -> (text: String)
        ensures
            text@ == edge_attrs(
                kind,
                marked(marks(self.executed_pcs), from) && marked(marks(self.executed_pcs), to),
            ),
    {
        let mut out = String::new();
        let both = is_marked(&self.executed_pcs, from) && is_marked(&self.executed_pcs, to);
        push_edge_attrs(&mut out, kind, both);
        proof {
            assert(out@ =~= edge_attrs(kind, both));
        }
        out
    }

    /// The graph in Graphviz's language, with the blocks as labels. The
    /// nodes and edges come in the order in which the graph holds them.
    pub fn cfg_dot_str_with_blocks(&self) -> (text: String)
        ensures
            is_cfg_dot(*self, text@),
    {
        let mut out = String::from_str(CFG_HEADER);
        let body = dot_body(self);
        out.append(body.as_str());
        out.append(CFG_CLOSING);
        proof {
            let (nodes, edges): (Seq<Node>, Seq<(Node, Node, Edges)>) = choose|
                nodes: Seq<Node>,
                edges: Seq<(Node, Node, Edges)>,
            | #[trigger]
                lists_graph(*self, nodes, edges) && body@ == cfg_dot_body(
                    self.map_to_instructionblock@,
                    marks(self.executed_pcs),
                    self.edges(),
                    nodes,
                    edges,
                );
            assert(lists_graph(*self, nodes, edges));
            assert(out@ =~= CFG_HEADER@ + body@ + CFG_CLOSING@);
        }
        out
    }

    /// The graph of what ran, in Graphviz's language. The edges come in
    /// an order in which the graph lists them.
    pub fn cfg_dot_str_highlighted_only(&self) -> (text: String)
        ensures
            exists|edges: Seq<(Node, Node, Edges)>|
                lists_edges(edges, self.edges()) && text@ == #[trigger] ran_dot_text(
                    self.map_to_instructionblock@,
                    marks(self.executed_pcs),
                    edges,
                ),
    {
        let edges = dag_edge_list(&self.cfg_dag);
        let text = render_ran_dot(&self.map_to_instructionblock, &self.executed_pcs, &edges);
        proof {
            assert(text@ == ran_dot_text(
                self.map_to_instructionblock@,
                marks(self.executed_pcs),
                edges@,
            ));
        }
        text
    }
}

} // verus!
