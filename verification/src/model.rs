//! The element types of the property graph, the rule and violation records,
//! and their mathematical views (strings read as character sequences).
use vstd::prelude::*;

verus! {

broadcast use vstd::string::group_string_axioms;

/// An optional string read as an optional character sequence.
pub open spec fn opt_view(o: Option<String>) -> Option<Seq<char>> {
    match o {
        Some(s) => Some(s@),
        None => None,
    }
}

/// A copy of an optional string.
pub fn clone_opt(o: &Option<String>) -> (r: Option<String>)
    ensures
        r == *o,
        opt_view(r) == opt_view(*o),
{
    match o {
        Some(s) => Some(s.clone()),
        None => None,
    }
}

/// Classification for a `Member`.
#[derive(Clone, Copy, Debug, PartialEq, Eq, Structural, PartialOrd, Ord, Hash)]
pub enum MemberKind {
    /// Method or function declared inside a type.
    Method,
    /// Field, property, or attribute declared inside a type.
    Field,
}

impl MemberKind {
    /// The lower-case name used in JSON output.
    pub fn as_str(&self) -> (r: &'static str)
        ensures
            r@ == member_kind_name(*self),
    {
        match self {
            MemberKind::Method => "method",
            MemberKind::Field => "field",
        }
    }
}

pub open spec fn member_kind_name(k: MemberKind) -> Seq<char> {
    match k {
        MemberKind::Method => "method"@,
        MemberKind::Field => "field"@,
    }
}

/// The type of source element represented by a graph node.
#[derive(Clone, Copy, Debug, PartialEq, Eq, Structural, PartialOrd, Ord, Hash)]
pub enum NodeKind {
    /// A class, interface, struct, service, repository, or controller.
    Type,
    /// A database, ORM, or persistence entity.
    Entity,
    /// A source file container.
    File,
}

impl NodeKind {
    /// The lower-case name used in JSON and SVG output.
    pub fn as_str(&self) -> (r: &'static str)
        ensures
            r@ == node_kind_name(*self),
    {
        match self {
            NodeKind::Type => "type",
            NodeKind::Entity => "entity",
            NodeKind::File => "file",
        }
    }
}

pub open spec fn node_kind_name(k: NodeKind) -> Seq<char> {
    match k {
        NodeKind::Type => "type"@,
        NodeKind::Entity => "entity"@,
        NodeKind::File => "file"@,
    }
}

/// The relationship represented by a graph edge.
#[derive(Clone, Copy, Debug, PartialEq, Eq, Structural, PartialOrd, Ord, Hash)]
pub enum EdgeKind {
    /// Source file or type imports another symbol.
    Imports,
    /// A type extends another type.
    Extends,
    /// A type implements an interface.
    Implements,
    /// An ORM model owns a relation to another model.
    RelatesTo,
    /// A file contains a type.
    Contains,
}

impl EdgeKind {
    /// The lower-case name used in JSON and SVG output.
    pub fn as_str(&self) -> (r: &'static str)
        ensures
            r@ == edge_kind_name(*self),
    {
        match self {
            EdgeKind::Imports => "imports",
            EdgeKind::Extends => "extends",
            EdgeKind::Implements => "implements",
            EdgeKind::RelatesTo => "relates_to",
            EdgeKind::Contains => "contains",
        }
    }
}

pub open spec fn edge_kind_name(k: EdgeKind) -> Seq<char> {
    match k {
        EdgeKind::Imports => "imports"@,
        EdgeKind::Extends => "extends"@,
        EdgeKind::Implements => "implements"@,
        EdgeKind::RelatesTo => "relates_to"@,
        EdgeKind::Contains => "contains"@,
    }
}

/// A member declared inside a type (field or method).
#[derive(Clone, Debug, PartialEq, Eq, PartialOrd, Ord)]
pub struct Member {
    /// Display name of the member.
    pub name: String,
    /// Member category: `field` or `method`.
    pub kind: MemberKind,
}

pub struct MemberView {
    pub name: Seq<char>,
    pub kind: MemberKind,
}

impl View for Member {
    type V = MemberView;

    open spec fn view(&self) -> MemberView {
        MemberView { name: self.name@, kind: self.kind }
    }
}

impl Member {
    /// A copy of this member.
    pub fn duplicate(&self) -> (r: Member)
        ensures
            r == *self,
            r@ == self@,
    {
        Member { name: self.name.clone(), kind: self.kind }
    }
}

/// A node in Apex's property graph.
#[derive(Clone, Debug, PartialEq, Eq)]
pub struct Node {
    /// Stable graph identifier.
    pub id: String,
    /// Human-readable node name.
    pub name: String,
    /// Node category.
    pub kind: NodeKind,
    /// Relative source path when known.
    pub path: String,
    /// Optional architectural layer.
    pub layer: Option<String>,
}

pub struct NodeView {
    pub id: Seq<char>,
    pub name: Seq<char>,
    pub kind: NodeKind,
    pub path: Seq<char>,
    pub layer: Option<Seq<char>>,
}

impl View for Node {
    type V = NodeView;

    open spec fn view(&self) -> NodeView {
        NodeView {
            id: self.id@,
            name: self.name@,
            kind: self.kind,
            path: self.path@,
            layer: opt_view(self.layer),
        }
    }
}

impl Node {
    /// A copy of this node.
    pub fn duplicate(&self) -> (r: Node)
        ensures
            r == *self,
            r@ == self@,
    {
        Node {
            id: self.id.clone(),
            name: self.name.clone(),
            kind: self.kind,
            path: self.path.clone(),
            layer: clone_opt(&self.layer),
        }
    }
}

/// A directed graph edge.
#[derive(Clone, Debug, PartialEq, Eq)]
pub struct Edge {
    /// Source node id.
    pub from: String,
    /// Target node id.
    pub to: String,
    /// Relationship category.
    pub kind: EdgeKind,
}

pub struct EdgeView {
    pub from: Seq<char>,
    pub to: Seq<char>,
    pub kind: EdgeKind,
}

impl View for Edge {
    type V = EdgeView;

    open spec fn view(&self) -> EdgeView {
        EdgeView { from: self.from@, to: self.to@, kind: self.kind }
    }
}

impl Edge {
    /// A copy of this edge.
    pub fn duplicate(&self) -> (r: Edge)
        ensures
            r == *self,
            r@ == self@,
    {
        Edge { from: self.from.clone(), to: self.to.clone(), kind: self.kind }
    }
}

/// A detected architecture or consistency violation.
#[derive(Clone, Debug, PartialEq, Eq)]
pub struct Violation {
    /// Stable violation rule id.
    pub rule_id: String,
    /// Human-readable message.
    pub message: String,
    /// Node id or file path that triggered the violation.
    pub subject: String,
}

pub struct ViolationView {
    pub rule_id: Seq<char>,
    pub message: Seq<char>,
    pub subject: Seq<char>,
}

impl View for Violation {
    type V = ViolationView;

    open spec fn view(&self) -> ViolationView {
        ViolationView { rule_id: self.rule_id@, message: self.message@, subject: self.subject@ }
    }
}

impl Violation {
    /// A copy of this violation.
    pub fn duplicate(&self) -> (r: Violation)
        ensures
            r == *self,
            r@ == self@,
    {
        Violation {
            rule_id: self.rule_id.clone(),
            message: self.message.clone(),
            subject: self.subject.clone(),
        }
    }
}

/// A user-configurable architecture rule.
#[derive(Clone, Debug, PartialEq, Eq)]
pub struct RuleDefinition {
    /// Stable rule identifier.
    pub id: String,
    /// Rule type, such as `forbidden_import` or `import_cycle`.
    pub rule_type: String,
    /// Source layer for layer-based rules.
    pub from: Option<String>,
    /// Target layer for layer-based rules.
    pub to: Option<String>,
    /// Whether the rule should run.
    pub enabled: bool,
}

pub struct RuleView {
    pub id: Seq<char>,
    pub rule_type: Seq<char>,
    pub from: Option<Seq<char>>,
    pub to: Option<Seq<char>>,
    pub enabled: bool,
}

impl View for RuleDefinition {
    type V = RuleView;

    open spec fn view(&self) -> RuleView {
        RuleView {
            id: self.id@,
            rule_type: self.rule_type@,
            from: opt_view(self.from),
            to: opt_view(self.to),
            enabled: self.enabled,
        }
    }
}

/// A language recognizer supported by the local parser.
#[derive(Clone, Debug, PartialEq, Eq)]
pub struct LanguageSupport {
    /// Human-readable language name.
    pub name: &'static str,
    /// File extensions recognized by Apex.
    pub extensions: &'static [&'static str],
    /// Major symbols extracted by the recognizer.
    pub extracts: &'static str,
}

} // verus!
