//! Export of a graph as a Mermaid flowchart or class diagram.

use vstd::prelude::*;
use crate::text::{join, views, join_with};
use crate::model::{Graph, Node, Edge, NodeKind, EdgeKind};

verus! {

/// The diagram flavour to export.
#[derive(Debug, Clone, Copy, PartialEq, Eq, Structural)]
pub enum MermaidKind {
    Flow,
    Class,
}

/// An ASCII letter or digit.
pub open spec fn is_alnum(c: char) -> bool {
    ('0' <= c && c <= '9') || ('a' <= c && c <= 'z') || ('A' <= c && c <= 'Z')
}

/// A Mermaid-safe identifier: ASCII letters and digits kept, every other
/// character turned into `_`; `node` for an empty ID.
pub open spec fn safe_id(raw: Seq<char>) -> Seq<char> {
    if raw.len() == 0 {
        "node"@
    } else {
        raw.map_values(|c: char| if is_alnum(c) { c } else { '_' })
    }
}

/// A label with every `"` escaped as `\"`.
pub open spec fn escaped(raw: Seq<char>) -> Seq<char>
    decreases raw.len(),
{
    if raw.len() == 0 {
        Seq::empty()
    } else if raw.last() == '"' {
        escaped(raw.drop_last()) + seq!['\\', '"']
    } else {
        escaped(raw.drop_last()).push(raw.last())
    }
}

/// The label of an edge kind.
pub open spec fn label_of(kind: EdgeKind) -> Seq<char> {
    match kind {
        EdgeKind::Contains => "contains"@,
        EdgeKind::Defines => "defines"@,
        EdgeKind::Implements => "implements"@,
        EdgeKind::UsesType => "uses"@,
        EdgeKind::CallsStatic => "calls"@,
        EdgeKind::CallsRuntime => "calls_runtime"@,
        EdgeKind::Derives => "derives"@,
        EdgeKind::ReExports => "re-exports"@,
    }
}

/// The flowchart line of a node.
pub open spec fn flow_node_line(n: Node) -> Seq<char> {
    "    "@ + safe_id(n.id@) + "[\""@ + escaped(n.name@) + "\"]"@
}

/// The flowchart line of an edge.
pub open spec fn flow_edge_line(e: Edge) -> Seq<char> {
    "    "@ + safe_id(e.from@) + " -->|"@ + label_of(e.kind) + "| "@ + safe_id(e.to@)
}

/// The flowchart lines of a graph.
pub open spec fn flow_lines(g: Graph) -> Seq<Seq<char>> {
    seq!["graph TD"@] + g.nodes@.map_values(|n: Node| flow_node_line(n)) + g.edges@.map_values(|e: Edge| flow_edge_line(e))
}

/// A node kind drawn as a class.
pub open spec fn is_class_kind(k: NodeKind) -> bool {
    k == NodeKind::Struct || k == NodeKind::Union || k == NodeKind::Enum || k == NodeKind::Trait || k == NodeKind::TraitAlias
        || k == NodeKind::TypeAlias
}

/// The class-diagram lines of the nodes, in order.
pub open spec fn class_node_lines(ns: Seq<Node>) -> Seq<Seq<char>>
    decreases ns.len(),
{
    if ns.len() == 0 {
        Seq::empty()
    } else {
        let r = class_node_lines(ns.drop_last());
        let n = ns.last();
        if is_class_kind(n.kind) { r.push("    class "@ + safe_id(n.id@) + " { }"@) } else { r }
    }
}

/// The class-diagram lines of the edges, in order.
pub open spec fn class_edge_lines(es: Seq<Edge>) -> Seq<Seq<char>>
    decreases es.len(),
{
    if es.len() == 0 {
        Seq::empty()
    } else {
        let r = class_edge_lines(es.drop_last());
        let e = es.last();
        if e.kind == EdgeKind::Implements {
            r.push("    "@ + safe_id(e.from@) + " ..|> "@ + safe_id(e.to@))
        } else if e.kind == EdgeKind::UsesType {
            r.push("    "@ + safe_id(e.from@) + " --> "@ + safe_id(e.to@))
        } else {
            r
        }
    }
}

/// The class-diagram lines of a graph.
pub open spec fn class_lines(g: Graph) -> Seq<Seq<char>> {
    seq!["classDiagram"@] + class_node_lines(g.nodes@) + class_edge_lines(g.edges@)
}

/// The Mermaid text of a graph.
pub open spec fn mermaid_text(g: Graph, kind: MermaidKind) -> Seq<char> {
    let nl = "\n"@;
    match kind {
        MermaidKind::Flow => join(flow_lines(g), nl),
        MermaidKind::Class => join(class_lines(g), nl),
    }
}

/// Whether `c` is an ASCII letter or digit.
fn is_alnum_char(c: char) -> (r: bool)
    ensures
        r == is_alnum(c),
{
    ('0' <= c && c <= '9') || ('a' <= c && c <= 'z') || ('A' <= c && c <= 'Z')
}

/// A Mermaid-safe identifier for `raw`.
pub fn mermaid_id(raw: &str) -> (r: String)
    ensures
        r@ == safe_id(raw@),
{
    let n = raw.unicode_len();
    if n == 0 {
        return String::from_str("node");
    }
    let underscore = "_";
    proof { reveal_strlit("_"); }
    assert(underscore@ =~= seq!['_']);
    let mut out = String::new();
    let mut i: usize = 0;
    while i < n
        invariant
            n == raw@.len(),
            i <= n,
            underscore@ == seq!['_'],
            out@ == raw@.take(i as int).map_values(|c: char| if is_alnum(c) { c } else { '_' }),
        decreases n - i,
    {
        let c = raw.get_char(i);
        if is_alnum_char(c) {
            let piece = raw.substring_char(i, i + 1);
            assert(piece@ =~= seq![c]);
            out.append(piece);
        } else {
            out.append(underscore);
        }
        assert(raw@.take(i as int + 1) =~= raw@.take(i as int).push(c));
        assert(out@ =~= raw@.take(i as int + 1).map_values(|c: char| if is_alnum(c) { c } else { '_' }));
        i = i + 1;
    }
    assert(raw@.take(n as int) =~= raw@);
    out
}

/// `raw` with every `"` escaped.
pub fn mermaid_label(raw: &str) -> (r: String)
    ensures
        r@ == escaped(raw@),
{
    let n = raw.unicode_len();
    let esc = "\\\"";
    proof { reveal_strlit("\\\""); }
    assert(esc@ =~= seq!['\\', '"']);
    let mut out = String::new();
    let mut i: usize = 0;
    while i < n
        invariant
            n == raw@.len(),
            i <= n,
            esc@ == seq!['\\', '"'],
            out@ == escaped(raw@.take(i as int)),
        decreases n - i,
    {
        let c = raw.get_char(i);
        assert(raw@.take(i as int + 1).drop_last() =~= raw@.take(i as int));
        if c == '"' {
            out.append(esc);
        } else {
            let piece = raw.substring_char(i, i + 1);
            assert(piece@ =~= seq![c]);
            out.append(piece);
        }
        i = i + 1;
    }
    assert(raw@.take(n as int) =~= raw@);
    out
}

/// The label of an edge kind.
pub fn edge_label(kind: EdgeKind) -> (r: &'static str)
    ensures
        r@ == label_of(kind),
{
    match kind {
        EdgeKind::Contains => "contains",
        EdgeKind::Defines => "defines",
        EdgeKind::Implements => "implements",
        EdgeKind::UsesType => "uses",
        EdgeKind::CallsStatic => "calls",
        EdgeKind::CallsRuntime => "calls_runtime",
        EdgeKind::Derives => "derives",
        EdgeKind::ReExports => "re-exports",
    }
}

/// Whether nodes of `kind` are drawn as classes.
pub fn is_class_node_kind(kind: NodeKind) -> (r: bool)
    ensures
        r == is_class_kind(kind),
{
    match kind {
        NodeKind::Struct | NodeKind::Union | NodeKind::Enum | NodeKind::Trait | NodeKind::TraitAlias | NodeKind::TypeAlias => true,
        _ => false,
    }
}

/// The graph as a Mermaid flowchart.
pub fn export_mermaid_flow(graph: &Graph) -> (r: String)
    ensures
        r@ == mermaid_text(*graph, MermaidKind::Flow),
{
    let mut lines: Vec<String> = Vec::new();
    lines.push(String::from_str("graph TD"));
    let mut i: usize = 0;
    while i < graph.nodes.len()
        invariant
            i <= graph.nodes@.len(),
            views(lines@) == seq!["graph TD"@] + graph.nodes@.take(i as int).map_values(|n: Node| flow_node_line(n)),
        decreases graph.nodes@.len() - i,
    {
        let node = &graph.nodes[i];
        let mut line = String::from_str("    ");
        let id = mermaid_id(node.id.as_str());
        line.append(id.as_str());
        line.append("[\"");
        let label = mermaid_label(node.name.as_str());
        line.append(label.as_str());
        line.append("\"]");
        let ghost before = views(lines@);
        lines.push(line);
        assert(views(lines@) =~= before.push(flow_node_line(*node)));
        assert(graph.nodes@.take(i as int + 1) =~= graph.nodes@.take(i as int).push(*node));
        assert(views(lines@) =~= seq!["graph TD"@] + graph.nodes@.take(i as int + 1).map_values(|n: Node| flow_node_line(n)));
        i = i + 1;
    }
    assert(graph.nodes@.take(graph.nodes@.len() as int) =~= graph.nodes@);
    let ghost head = views(lines@);
    let mut j: usize = 0;
    while j < graph.edges.len()
        invariant
            j <= graph.edges@.len(),
            views(lines@) == head + graph.edges@.take(j as int).map_values(|e: Edge| flow_edge_line(e)),
        decreases graph.edges@.len() - j,
    {
        let edge = &graph.edges[j];
        let mut line = String::from_str("    ");
        let from = mermaid_id(edge.from.as_str());
        line.append(from.as_str());
        line.append(" -->|");
        line.append(edge_label(edge.kind));
        line.append("| ");
        let to = mermaid_id(edge.to.as_str());
        line.append(to.as_str());
        let ghost before = views(lines@);
        lines.push(line);
        assert(views(lines@) =~= before.push(flow_edge_line(*edge)));
        assert(graph.edges@.take(j as int + 1) =~= graph.edges@.take(j as int).push(*edge));
        assert(views(lines@) =~= head + graph.edges@.take(j as int + 1).map_values(|e: Edge| flow_edge_line(e)));
        j = j + 1;
    }
    assert(graph.edges@.take(graph.edges@.len() as int) =~= graph.edges@);
    assert(views(lines@) =~= flow_lines(*graph));
    join_with(&lines, "\n")
}

/// The graph's types and traits as a Mermaid class diagram.
pub fn export_mermaid_class(graph: &Graph) -> (r: String)
    ensures
        r@ == mermaid_text(*graph, MermaidKind::Class),
{
    let mut lines: Vec<String> = Vec::new();
    lines.push(String::from_str("classDiagram"));
    let mut i: usize = 0;
    while i < graph.nodes.len()
        invariant
            i <= graph.nodes@.len(),
            views(lines@) == seq!["classDiagram"@] + class_node_lines(graph.nodes@.take(i as int)),
        decreases graph.nodes@.len() - i,
    {
        let node = &graph.nodes[i];
        assert(graph.nodes@.take(i as int + 1).drop_last() =~= graph.nodes@.take(i as int));
        let ghost before = views(lines@);
        if is_class_node_kind(node.kind) {
            let mut line = String::from_str("    class ");
            let id = mermaid_id(node.id.as_str());
            line.append(id.as_str());
            line.append(" { }");
            lines.push(line);
            assert(views(lines@) =~= before.push("    class "@ + safe_id(node.id@) + " { }"@));
        }
        i = i + 1;
    }
    assert(graph.nodes@.take(graph.nodes@.len() as int) =~= graph.nodes@);
    let ghost head = views(lines@);
    assert(class_edge_lines(graph.edges@.take(0)) =~= Seq::<Seq<char>>::empty());
    let mut j: usize = 0;
    while j < graph.edges.len()
        invariant
            j <= graph.edges@.len(),
            views(lines@) == head + class_edge_lines(graph.edges@.take(j as int)),
        decreases graph.edges@.len() - j,
    {
        let edge = &graph.edges[j];
        assert(graph.edges@.take(j as int + 1).drop_last() =~= graph.edges@.take(j as int));
        let ghost before = views(lines@);
        if edge.kind == EdgeKind::Implements || edge.kind == EdgeKind::UsesType {
            let mut line = String::from_str("    ");
            let from = mermaid_id(edge.from.as_str());
            line.append(from.as_str());
            if edge.kind == EdgeKind::Implements {
                line.append(" ..|> ");
            } else {
                line.append(" --> ");
            }
            let to = mermaid_id(edge.to.as_str());
            line.append(to.as_str());
            let ghost lv = line@;
            lines.push(line);
            assert(views(lines@) =~= before.push(lv));
            if edge.kind == EdgeKind::Implements {
                assert(lv == "    "@ + safe_id(edge.from@) + " ..|> "@ + safe_id(edge.to@));
            } else {
                assert(lv == "    "@ + safe_id(edge.from@) + " --> "@ + safe_id(edge.to@));
            }
        }
        assert(views(lines@) =~= head + class_edge_lines(graph.edges@.take(j as int + 1)));
        j = j + 1;
    }
    assert(graph.edges@.take(graph.edges@.len() as int) =~= graph.edges@);
    join_with(&lines, "\n")
}

/// The graph as Mermaid text of the given kind.
pub fn export_mermaid(graph: &Graph, kind: MermaidKind) -> (r: String)
    ensures
        r@ == mermaid_text(*graph, kind),
{
    match kind {
        MermaidKind::Flow => export_mermaid_flow(graph),
        MermaidKind::Class => export_mermaid_class(graph),
    }
}

} // verus!
