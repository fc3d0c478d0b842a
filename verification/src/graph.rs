//! The dependency graph model: nodes for registered providers, edges for their
//! declared dependencies, a validation report, and DOT / Mermaid rendering.
use vstd::prelude::*;
use vstd::string::*;
use crate::text::{chars_of, decimal, decimal_string, join, join_strings, push_char, views};
use crate::types::{Scope, scope_label};

verus! {

/// Whether a dependency wants one binding or every set binding of a type.
#[derive(Clone, Copy, Debug, PartialEq, Eq, Structural)]
pub enum DependencyCardinality {
    One,
    All,
}

/// A dependency as shown on a graph node.
#[derive(Clone, Debug, PartialEq, Eq)]
pub struct GraphDependency {
    pub type_label: String,
    pub name: Option<String>,
    pub cardinality: DependencyCardinality,
    pub is_dynamic: bool,
}

/// How a node is bound: the single provider of a type, a named one, one of a
/// set (by position), or a dynamic provider (by name).
#[derive(Clone, Debug, PartialEq, Eq)]
pub enum GraphBinding {
    Single,
    Named(String),
    SetEntry(usize),
    Dynamic(String),
}

/// A provider in the dependency graph.
#[derive(Clone, Debug, PartialEq, Eq)]
pub struct GraphNode {
    pub id: String,
    pub type_label: String,
    pub scope: Scope,
    pub binding: GraphBinding,
    pub dependencies: Vec<GraphDependency>,
}

/// A dependency edge from one node id to another, with an optional label.
#[derive(Clone, Debug, PartialEq, Eq)]
pub struct GraphEdge {
    pub from: String,
    pub to: String,
    pub label: Option<String>,
}

/// The dependency graph of an injector.
#[derive(Clone, Debug, PartialEq, Eq)]
pub struct DependencyGraph {
    pub nodes: Vec<GraphNode>,
    pub edges: Vec<GraphEdge>,
}

/// The kind of a graph validation problem.
#[derive(Clone, Copy, Debug, PartialEq, Eq, Structural)]
pub enum GraphValidationIssueKind {
    MissingDependency,
    CircularDependency,
}

/// One graph validation problem.
#[derive(Clone, Debug, PartialEq, Eq)]
pub struct GraphValidationIssue {
    pub kind: GraphValidationIssueKind,
    pub node_id: Option<String>,
    pub message: String,
}

/// The result of validating a dependency graph.
#[derive(Clone, Debug, PartialEq, Eq)]
pub struct GraphValidationReport {
    pub issues: Vec<GraphValidationIssue>,
}

/// The text of a binding: `single`, `named:<name>`, `set:<index>`, `dynamic:<name>`.
pub open spec fn binding_label(b: GraphBinding) -> Seq<char> {
    match b {
        GraphBinding::Single => "single"@,
        GraphBinding::Named(name) => "named:"@ + name@,
        GraphBinding::SetEntry(index) => "set:"@ + decimal(index as nat),
        GraphBinding::Dynamic(name) => "dynamic:"@ + name@,
    }
}

/// The text of a node: `<type> [<scope> | <binding>]`.
pub open spec fn node_label(n: GraphNode) -> Seq<char> {
    n.type_label@ + " ["@ + scope_label(n.scope) + " | "@ + binding_label(n.binding) + "]"@
}

/// The images of the elements of `s` under `f`, concatenated.
pub open spec fn concat_map<A>(s: Seq<A>, f: spec_fn(A) -> Seq<char>) -> Seq<char>
    decreases s.len(),
{
    if s.len() == 0 {
        seq![]
    } else {
        concat_map(s.drop_last(), f) + f(s.last())
    }
}

/// A character as it appears inside a double-quoted DOT string.
pub open spec fn escape_char(c: char) -> Seq<char> {
    if c == '\\' {
        seq!['\\', '\\']
    } else if c == '"' {
        seq!['\\', '"']
    } else {
        seq![c]
    }
}

/// `s` with every backslash and double quote escaped by a backslash.
pub open spec fn escape(s: Seq<char>) -> Seq<char> {
    concat_map(s, |c: char| escape_char(c))
}

/// The DOT statement of a node.
pub open spec fn dot_node_line(n: GraphNode) -> Seq<char> {
    "  \""@ + escape(n.id@) + "\" [label=\""@ + escape(node_label(n)) + "\"];\n"@
}

/// The DOT statement of an edge.
pub open spec fn dot_edge_line(e: GraphEdge) -> Seq<char> {
    match e.label {
        Some(label) => "  \""@ + escape(e.from@) + "\" -> \""@ + escape(e.to@) + "\" [label=\""@
            + escape(label@) + "\"];\n"@,
        None => "  \""@ + escape(e.from@) + "\" -> \""@ + escape(e.to@) + "\";\n"@,
    }
}

/// The DOT text of a graph.
pub open spec fn dot_text(g: DependencyGraph) -> Seq<char> {
    "digraph fluxdi {\n  rankdir=LR;\n"@ + concat_map(g.nodes@, |n: GraphNode| dot_node_line(n))
        + concat_map(g.edges@, |e: GraphEdge| dot_edge_line(e)) + "}\n"@
}

/// An ASCII letter, an ASCII digit or `_`: kept as is in Mermaid ids.
pub open spec fn mermaid_safe(c: char) -> bool {
    ||| ('0' as int) <= (c as int) <= ('9' as int)
    ||| ('a' as int) <= (c as int) <= ('z' as int)
    ||| ('A' as int) <= (c as int) <= ('Z' as int)
    ||| c == '_'
}

/// `s` with every character that is not Mermaid-safe replaced by `_`; `node` if empty.
pub open spec fn sanitize(s: Seq<char>) -> Seq<char> {
    if s.len() == 0 {
        "node"@
    } else {
        s.map_values(|c: char| if mermaid_safe(c) { c } else { '_' })
    }
}

/// The Mermaid alias of the node at position `i`: `n<i>_<sanitized id>`.
pub open spec fn mermaid_alias(nodes: Seq<GraphNode>, i: int) -> Seq<char> {
    "n"@ + decimal(i as nat) + "_"@ + sanitize(nodes[i].id@)
}

/// The last position of a node with id `id`, if any.
pub open spec fn last_with_id(nodes: Seq<GraphNode>, id: Seq<char>) -> Option<int>
    decreases nodes.len(),
{
    if nodes.len() == 0 {
        None
    } else if nodes.last().id@ == id {
        Some(nodes.len() - 1)
    } else {
        last_with_id(nodes.drop_last(), id)
    }
}

/// The Mermaid statement of the node at position `i`.
pub open spec fn mermaid_node_line(nodes: Seq<GraphNode>, i: int) -> Seq<char> {
    "  "@ + mermaid_alias(nodes, i) + "[\""@ + node_label(nodes[i]) + "\"]\n"@
}

/// The Mermaid statement of an edge; empty when an end is not a node.
pub open spec fn mermaid_edge_line(nodes: Seq<GraphNode>, e: GraphEdge) -> Seq<char> {
    match (last_with_id(nodes, e.from@), last_with_id(nodes, e.to@)) {
        (Some(f), Some(t)) => match e.label {
            Some(label) => "  "@ + mermaid_alias(nodes, f) + " -->|"@ + label@ + "| "@ + mermaid_alias(nodes, t) + "\n"@,
            None => "  "@ + mermaid_alias(nodes, f) + " --> "@ + mermaid_alias(nodes, t) + "\n"@,
        },
        _ => seq![],
    }
}

/// The Mermaid statements of the first `k` nodes.
pub open spec fn mermaid_nodes(nodes: Seq<GraphNode>, k: nat) -> Seq<char>
    decreases k,
{
    if k == 0 {
        seq![]
    } else {
        mermaid_nodes(nodes, (k - 1) as nat) + mermaid_node_line(nodes, k - 1)
    }
}

/// The Mermaid text of a graph.
pub open spec fn mermaid_text(g: DependencyGraph) -> Seq<char> {
    "graph TD\n"@ + mermaid_nodes(g.nodes@, g.nodes@.len())
        + concat_map(g.edges@, |e: GraphEdge| mermaid_edge_line(g.nodes@, e))
}

/// The messages of a sequence of issues.
pub open spec fn issue_messages(issues: Seq<GraphValidationIssue>) -> Seq<Seq<char>> {
    issues.map_values(|i: GraphValidationIssue| i.message@)
}

/// The summary of a report: a fixed sentence when valid, else the issue
/// messages joined by ` | `.
pub open spec fn summary_text(r: GraphValidationReport) -> Seq<char> {
    if r.issues@.len() == 0 {
        "Dependency graph is valid"@
    } else {
        join(issue_messages(r.issues@), " | "@)
    }
}

impl GraphBinding {
    /// The text of the binding.
    pub fn as_label(&self) -> (res: String)
        ensures
            res@ == binding_label(*self),
    {
        match self {
            GraphBinding::Single => String::from_str("single"),
            GraphBinding::Named(name) => {
                let mut s = String::from_str("named:");
                s.append(name.as_str());
                s
            },
            GraphBinding::SetEntry(index) => {
                let mut s = String::from_str("set:");
                let digits = decimal_string(*index);
                s.append(digits.as_str());
                s
            },
            GraphBinding::Dynamic(name) => {
                let mut s = String::from_str("dynamic:");
                s.append(name.as_str());
                s
            },
        }
    }
}

impl GraphNode {
    /// The text of the node: `<type> [<scope> | <binding>]`.
    pub fn label(&self) -> (res: String)
        ensures
            res@ == node_label(*self),
    {
        let mut s = String::from_str(self.type_label.as_str());
        s.append(" [");
        s.append(self.scope.as_str());
        s.append(" | ");
        let b = self.binding.as_label();
        s.append(b.as_str());
        s.append("]");
        s
    }
}

proof fn lemma_concat_map_push<A>(s: Seq<A>, x: A, f: spec_fn(A) -> Seq<char>)
    ensures
        concat_map(s.push(x), f) == concat_map(s, f) + f(x),
{
    assert(s.push(x).drop_last() =~= s);
}

/// Appends `input` to `out` with backslashes and double quotes escaped.
fn append_escaped(out: &mut String, input: &str)
    ensures
        final(out)@ == old(out)@ + escape(input@),
{
    let cs = chars_of(input);
    let mut i: usize = 0;
    while i < cs.len()
        invariant
            cs@ == input@,
            i <= cs.len(),
            out@ == old(out)@ + escape(cs@.subrange(0, i as int)),
        decreases cs.len() - i,
    {
        let c = cs[i];
        let ghost before = out@;
        if c == '\\' {
            push_char(out, '\\');
            push_char(out, '\\');
        } else if c == '"' {
            push_char(out, '\\');
            push_char(out, '"');
        } else {
            push_char(out, c);
        }
        proof {
            assert(cs@.subrange(0, i + 1) =~= cs@.subrange(0, i as int).push(c));
            lemma_concat_map_push(cs@.subrange(0, i as int), c, |c: char| escape_char(c));
            assert(out@ =~= before + escape_char(c));
        }
        i = i + 1;
    }
    assert(cs@.subrange(0, i as int) =~= input@);
}

/// Appends the Mermaid-sanitized form of `id` to `out`.
fn append_sanitized(out: &mut String, id: &str)
    ensures
        final(out)@ == old(out)@ + sanitize(id@),
{
    let cs = chars_of(id);
    if cs.len() == 0 {
        out.append("node");
        return;
    }
    let mut i: usize = 0;
    while i < cs.len()
        invariant
            cs@ == id@,
            cs.len() > 0,
            i <= cs.len(),
            out@ == old(out)@ + cs@.subrange(0, i as int).map_values(|c: char| if mermaid_safe(c) { c } else { '_' }),
        decreases cs.len() - i,
    {
        let c = cs[i];
        let safe = (c >= '0' && c <= '9') || (c >= 'a' && c <= 'z') || (c >= 'A' && c <= 'Z') || c == '_';
        if safe {
            push_char(out, c);
        } else {
            push_char(out, '_');
        }
        proof {
            assert(cs@.subrange(0, i + 1).map_values(|c: char| if mermaid_safe(c) { c } else { '_' })
                =~= cs@.subrange(0, i as int).map_values(|c: char| if mermaid_safe(c) { c } else { '_' })
                    .push(if mermaid_safe(c) { c } else { '_' }));
        }
        i = i + 1;
    }
    assert(cs@.subrange(0, i as int) =~= id@);
}

/// Appends the DOT statement of `edge`.
fn append_dot_edge(out: &mut String, edge: &GraphEdge)
    ensures
        final(out)@ == old(out)@ + dot_edge_line(*edge),
{
    let ghost start = out@;
    out.append("  \"");
    append_escaped(out, edge.from.as_str());
    out.append("\" -> \"");
    append_escaped(out, edge.to.as_str());
    match &edge.label {
        Some(label) => {
            out.append("\" [label=\"");
            append_escaped(out, label.as_str());
            out.append("\"];\n");
        },
        None => {
            out.append("\";\n");
        },
    }
    assert(out@ =~= start + dot_edge_line(*edge));
}

impl DependencyGraph {
    /// Renders the graph in Graphviz DOT.
    pub fn to_dot(&self) -> (res: String)
        ensures
            res@ == dot_text(*self),
    {
        let mut out = String::from_str("digraph fluxdi {\n  rankdir=LR;\n");
        let ghost head = out@;
        let mut i: usize = 0;
        while i < self.nodes.len()
            invariant
                i <= self.nodes.len(),
                out@ == head + concat_map(self.nodes@.subrange(0, i as int), |n: GraphNode| dot_node_line(n)),
            decreases self.nodes.len() - i,
        {
            let node = &self.nodes[i];
            let ghost before = out@;
            out.append("  \"");
            append_escaped(&mut out, node.id.as_str());
            out.append("\" [label=\"");
            let label = node.label();
            append_escaped(&mut out, label.as_str());
            out.append("\"];\n");
            proof {
                assert(self.nodes@.subrange(0, i + 1) =~= self.nodes@.subrange(0, i as int).push(*node));
                lemma_concat_map_push(self.nodes@.subrange(0, i as int), *node, |n: GraphNode| dot_node_line(n));
                assert(out@ =~= before + dot_node_line(*node));
            }
            i = i + 1;
        }
        assert(self.nodes@.subrange(0, i as int) =~= self.nodes@);
        let ghost mid = out@;
        let mut j: usize = 0;
        while j < self.edges.len()
            invariant
                j <= self.edges.len(),
                out@ == mid + concat_map(self.edges@.subrange(0, j as int), |e: GraphEdge| dot_edge_line(e)),
            decreases self.edges.len() - j,
        {
            let edge = &self.edges[j];
            let ghost before = out@;
            append_dot_edge(&mut out, edge);
            proof {
                assert(self.edges@.subrange(0, j + 1) =~= self.edges@.subrange(0, j as int).push(*edge));
                lemma_concat_map_push(self.edges@.subrange(0, j as int), *edge, |e: GraphEdge| dot_edge_line(e));
                assert(out@ =~= before + dot_edge_line(*edge));
            }
            j = j + 1;
        }
        assert(self.edges@.subrange(0, j as int) =~= self.edges@);
        out.append("}\n");
        out
    }
}


/// Appends the Mermaid alias of node `i` to `out`.
fn append_alias(out: &mut String, nodes: &Vec<GraphNode>, i: usize)
    requires
        i < nodes.len(),
    ensures
        final(out)@ == old(out)@ + mermaid_alias(nodes@, i as int),
{
    out.append("n");
    let digits = decimal_string(i);
    out.append(digits.as_str());
    out.append("_");
    append_sanitized(out, nodes[i].id.as_str());
}

/// The last position of a node whose id is `id`.
pub(crate) fn find_last_with_id(nodes: &Vec<GraphNode>, id: &String) -> (res: Option<usize>)
    ensures
        match last_with_id(nodes@, id@) {
            Some(k) => res == Some(k as usize) && 0 <= k < nodes.len(),
            None => res.is_none(),
        },
{
    let mut k: usize = nodes.len();
    assert(nodes@.subrange(0, k as int) =~= nodes@);
    while k > 0
        invariant
            k <= nodes.len(),
            last_with_id(nodes@, id@) == last_with_id(nodes@.subrange(0, k as int), id@),
        decreases k,
    {
        assert(nodes@.subrange(0, k as int).drop_last() =~= nodes@.subrange(0, k - 1));
        if nodes[k - 1].id == *id {
            proof {
                lemma_last_with_id_bounds(nodes@, id@);
            }
            return Some(k - 1);
        }
        k = k - 1;
    }
    assert(nodes@.subrange(0, 0) =~= Seq::<GraphNode>::empty());
    None
}

proof fn lemma_last_with_id_bounds(nodes: Seq<GraphNode>, id: Seq<char>)
    ensures
        last_with_id(nodes, id) matches Some(k) ==> 0 <= k < nodes.len(),
    decreases nodes.len(),
{
    if nodes.len() > 0 {
        lemma_last_with_id_bounds(nodes.drop_last(), id);
    }
}

/// Appends the Mermaid statement of `edge`.
fn append_edge_line(out: &mut String, nodes: &Vec<GraphNode>, edge: &GraphEdge)
    ensures
        final(out)@ == old(out)@ + mermaid_edge_line(nodes@, *edge),
{
    let ghost start = out@;
    let from = find_last_with_id(nodes, &edge.from);
    let to = find_last_with_id(nodes, &edge.to);
    match (from, to) {
        (Some(f), Some(t)) => {
            out.append("  ");
            append_alias(out, nodes, f);
            match &edge.label {
                Some(label) => {
                    out.append(" -->|");
                    out.append(label.as_str());
                    out.append("| ");
                },
                None => {
                    out.append(" --> ");
                },
            }
            append_alias(out, nodes, t);
            out.append("\n");
        },
        _ => {},
    }
    assert(out@ =~= start + mermaid_edge_line(nodes@, *edge));
}

impl DependencyGraph {
    /// Renders the graph as a Mermaid flowchart. Edges whose ends are not both
    /// nodes are left out.
    pub fn to_mermaid(&self) -> (res: String)
        ensures
            res@ == mermaid_text(*self),
    {
        let mut out = String::from_str("graph TD\n");
        let ghost head = out@;
        let mut i: usize = 0;
        while i < self.nodes.len()
            invariant
                i <= self.nodes.len(),
                out@ == head + mermaid_nodes(self.nodes@, i as nat),
            decreases self.nodes.len() - i,
        {
            let ghost before = out@;
            out.append("  ");
            append_alias(&mut out, &self.nodes, i);
            out.append("[\"");
            let label = self.nodes[i].label();
            out.append(label.as_str());
            out.append("\"]\n");
            assert(out@ =~= before + mermaid_node_line(self.nodes@, i as int));
            i = i + 1;
        }
        let ghost mid = out@;
        let mut j: usize = 0;
        while j < self.edges.len()
            invariant
                j <= self.edges.len(),
                out@ == mid + concat_map(self.edges@.subrange(0, j as int), |e: GraphEdge| mermaid_edge_line(self.nodes@, e)),
            decreases self.edges.len() - j,
        {
            let edge = &self.edges[j];
            let ghost before = out@;
            append_edge_line(&mut out, &self.nodes, edge);
            proof {
                assert(self.edges@.subrange(0, j + 1) =~= self.edges@.subrange(0, j as int).push(*edge));
                lemma_concat_map_push(self.edges@.subrange(0, j as int), *edge, |e: GraphEdge| mermaid_edge_line(self.nodes@, e));
                assert(out@ =~= before + mermaid_edge_line(self.nodes@, *edge));
            }
            j = j + 1;
        }
        assert(self.edges@.subrange(0, j as int) =~= self.edges@);
        out
    }
}

impl GraphValidationReport {
    /// A report holds no issue.
    pub fn is_valid(&self) -> (res: bool)
        ensures
            res == (self.issues@.len() == 0),
    {
        self.issues.len() == 0
    }

    /// One line describing the report.
    pub fn summary(&self) -> (res: String)
        ensures
            res@ == summary_text(*self),
    {
        if self.issues.len() == 0 {
            return String::from_str("Dependency graph is valid");
        }
        let mut messages: Vec<String> = Vec::new();
        let mut i: usize = 0;
        while i < self.issues.len()
            invariant
                i <= self.issues.len(),
                views(messages@) == issue_messages(self.issues@.subrange(0, i as int)),
            decreases self.issues.len() - i,
        {
            let ghost before = views(messages@);
            messages.push(self.issues[i].message.clone());
            assert(views(messages@) =~= before.push(self.issues@[i as int].message@));
            assert(views(messages@) =~= issue_messages(self.issues@.subrange(0, i + 1)));
            i = i + 1;
        }
        assert(self.issues@.subrange(0, i as int) =~= self.issues@);
        join_strings(&messages, " | ")
    }
}

impl Default for GraphValidationReport {
    fn default() -> (res: Self)
        ensures
            res.issues@.len() == 0,
    {
        GraphValidationReport { issues: Vec::new() }
    }
}

impl Default for DependencyGraph {
    fn default() -> (res: Self)
        ensures
            res.nodes@.len() == 0,
            res.edges@.len() == 0,
    {
        DependencyGraph { nodes: Vec::new(), edges: Vec::new() }
    }
}

} // verus!
