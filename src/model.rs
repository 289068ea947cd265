//! The graph model: entities, relations and the workspace container.

use vstd::prelude::*;

verus! {

/// Version of the serialized workspace schema.
pub const SCHEMA_VERSION: u32 = 1;

/// What kind of program entity a node stands for.
#[derive(Debug, Clone, Copy, PartialEq, Eq, Structural)]
pub enum NodeKind {
    Crate,
    Module,
    Struct,
    Union,
    Enum,
    Trait,
    TraitAlias,
    Impl,
    Function,
    Method,
    TypeAlias,
}

/// Whether an impl block implements a trait or is inherent.
#[derive(Debug, Clone, Copy, PartialEq, Eq, Structural)]
pub enum ImplType {
    Trait,
    Inherent,
}

/// Declared visibility of an entity.
#[derive(Debug, Clone, Copy, PartialEq, Eq, Structural)]
pub enum Visibility {
    Public,
    Crate,
    Restricted,
    Inherited,
    Unknown,
}

/// A source location; lines and columns are 1-indexed.
#[derive(Debug, Clone)]
pub struct Span {
    pub file: String,
    pub line: u32,
    pub column: u32,
    pub end_line: Option<u32>,
    pub end_column: Option<u32>,
}

/// One field of an aggregate.
#[derive(Debug, Clone)]
pub struct FieldInfo {
    pub name: String,
    pub type_text: String,
    pub visibility: Visibility,
}

/// One variant of an enum.
#[derive(Debug, Clone)]
pub struct VariantInfo {
    pub name: String,
    pub fields: Vec<FieldInfo>,
}

/// One argument of a function signature.
#[derive(Debug, Clone)]
pub struct ArgumentInfo {
    pub name: String,
    pub type_text: String,
}

/// A function or method signature, rendered for display.
#[derive(Debug, Clone)]
pub struct FunctionSignature {
    pub inputs: Vec<ArgumentInfo>,
    pub output: Option<String>,
    pub is_async: bool,
    pub is_unsafe: bool,
    pub is_const: bool,
}

/// One declared program entity.
#[derive(Debug, Clone)]
pub struct Node {
    pub id: String,
    pub name: String,
    pub kind: NodeKind,
    pub visibility: Visibility,
    pub span: Option<Span>,
    pub attrs: Vec<String>,
    pub is_external: bool,
    pub fields: Option<Vec<FieldInfo>>,
    pub variants: Option<Vec<VariantInfo>>,
    pub signature: Option<FunctionSignature>,
    pub generics: Option<Vec<String>>,
    pub where_clause: Option<Vec<String>>,
    pub docs: Option<String>,
    /// Intra-doc link text paired with the resolved entity ID.
    pub doc_links: Vec<(String, String)>,
    /// Trait-bound and type display names paired with the resolved entity ID.
    pub bound_links: Vec<(String, String)>,
    pub impl_type: Option<ImplType>,
    /// For methods of an impl block: the ID of that impl node.
    pub parent_impl: Option<String>,
    /// For trait impl blocks: the ID of the implemented trait.
    pub impl_trait: Option<String>,
}

/// What a relation between two entities means.
#[derive(Debug, Clone, Copy, PartialEq, Eq, Structural)]
pub enum EdgeKind {
    Contains,
    Defines,
    Implements,
    UsesType,
    CallsStatic,
    CallsRuntime,
    Derives,
    ReExports,
}

/// How certain a relation is.
#[derive(Debug, Clone, Copy, PartialEq, Eq, Structural)]
pub enum Confidence {
    Static,
    Runtime,
    Inferred,
}

/// A directed relation between two entities, by ID.
#[derive(Debug, Clone)]
pub struct Edge {
    pub from: String,
    pub to: String,
    pub kind: EdgeKind,
    pub confidence: Confidence,
}

/// A growable graph of nodes and edges.
#[derive(Debug, Clone)]
pub struct Graph {
    pub nodes: Vec<Node>,
    pub edges: Vec<Edge>,
    /// Package name paired with its version string.
    pub crate_versions: Vec<(String, String)>,
    pub repo: Option<String>,
    pub ref_: Option<String>,
}

/// The nodes and intra-package edges of one workspace member.
#[derive(Debug, Clone)]
pub struct CrateGraph {
    pub id: String,
    pub name: String,
    pub version: String,
    pub nodes: Vec<Node>,
    pub edges: Vec<Edge>,
}

/// A stub for a package outside the workspace that the workspace refers to.
#[derive(Debug, Clone)]
pub struct ExternalCrate {
    pub id: String,
    pub name: String,
    pub nodes: Vec<Node>,
}

/// The merged graph of a workspace.
#[derive(Debug, Clone)]
pub struct Workspace {
    pub version: u32,
    pub crates: Vec<CrateGraph>,
    pub external_crates: Vec<ExternalCrate>,
    pub cross_crate_edges: Vec<Edge>,
    pub repo: Option<String>,
    pub ref_: Option<String>,
}

/// The identity of an edge: its endpoints and its kind.
pub open spec fn edge_key(e: Edge) -> (Seq<char>, Seq<char>, EdgeKind) {
    (e.from@, e.to@, e.kind)
}

/// The IDs of a sequence of nodes.
pub open spec fn ids_of(nodes: Seq<Node>) -> Seq<Seq<char>> {
    nodes.map_values(|n: Node| n.id@)
}

/// The keys of a sequence of edges.
pub open spec fn keys_of(edges: Seq<Edge>) -> Seq<(Seq<char>, Seq<char>, EdgeKind)> {
    edges.map_values(|e: Edge| edge_key(e))
}

impl Graph {
    /// An empty graph.
    pub fn new() -> (g: Graph)
        ensures
            g.nodes@.len() == 0,
            g.edges@.len() == 0,
            g.crate_versions@.len() == 0,
            g.repo.is_none(),
            g.ref_.is_none(),
    {
        Graph {
            nodes: Vec::new(),
            edges: Vec::new(),
            crate_versions: Vec::new(),
            repo: None,
            ref_: None,
        }
    }

    /// Appends a node.
    pub fn add_node(&mut self, node: Node)
        ensures
            final(self).nodes@ == old(self).nodes@.push(node),
            final(self).edges@ == old(self).edges@,
            final(self).crate_versions@ == old(self).crate_versions@,
            final(self).repo == old(self).repo,
            final(self).ref_ == old(self).ref_,
    {
        self.nodes.push(node);
    }

    /// Appends an edge.
    pub fn add_edge(&mut self, edge: Edge)
        ensures
            final(self).edges@ == old(self).edges@.push(edge),
            final(self).nodes@ == old(self).nodes@,
            final(self).crate_versions@ == old(self).crate_versions@,
            final(self).repo == old(self).repo,
            final(self).ref_ == old(self).ref_,
    {
        self.edges.push(edge);
    }
}

impl Default for Graph {
    fn default() -> (g: Graph)
        ensures
            g.nodes@.len() == 0,
            g.edges@.len() == 0,
    {
        Graph::new()
    }
}

/// Whether nodes of `kind` are drawn as rectangles: structs, enums and unions.
pub fn is_rect_kind(kind: NodeKind) -> (r: bool)
    ensures
        r == (kind == NodeKind::Struct || kind == NodeKind::Enum || kind == NodeKind::Union),
{
    match kind {
        NodeKind::Struct | NodeKind::Enum | NodeKind::Union => true,
        _ => false,
    }
}

impl Node {
    /// A node that carries only its identity, kind, visibility and origin.
    pub fn bare(id: String, name: String, kind: NodeKind, visibility: Visibility, is_external: bool) -> (n: Node)
        ensures
            n.id == id,
            n.name == name,
            n.kind == kind,
            n.visibility == visibility,
            n.is_external == is_external,
            n.span.is_none(),
            n.attrs@.len() == 0,
            n.fields.is_none(),
            n.variants.is_none(),
            n.signature.is_none(),
            n.generics.is_none(),
            n.where_clause.is_none(),
            n.docs.is_none(),
            n.doc_links@.len() == 0,
            n.bound_links@.len() == 0,
            n.impl_type.is_none(),
            n.parent_impl.is_none(),
            n.impl_trait.is_none(),
    {
        Node {
            id,
            name,
            kind,
            visibility,
            span: None,
            attrs: Vec::new(),
            is_external,
            fields: None,
            variants: None,
            signature: None,
            generics: None,
            where_clause: None,
            docs: None,
            doc_links: Vec::new(),
            bound_links: Vec::new(),
            impl_type: None,
            parent_impl: None,
            impl_trait: None,
        }
    }
}

} // verus!
