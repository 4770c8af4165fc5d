use vstd::prelude::*;
use std::sync::Arc;

use crate::content::ContentMatch;
use crate::util::str_eq;

verus! {

/// Why a schema could not be built.
#[derive(Debug)]
pub enum SchemaError {
    EmptyNodes,
    ContentParseError(String),
    UnknownMarkRef(String),
}

/// How a node type is described when a schema is built.
#[derive(Debug, Default)]
pub struct NodeSpec {
    /// The content expression, such as "paragraph+"; none for a leaf.
    pub content: Option<String>,
    /// The marks allowed: "_" for all, "" for none, else names separated by spaces.
    pub marks: Option<String>,
    /// The groups, separated by spaces.
    pub group: Option<String>,
    /// An inline node (else a block).
    pub inline: bool,
    /// The text node type.
    pub is_text: bool,
}

/// How a mark type is described when a schema is built.
#[derive(Debug, Default)]
pub struct MarkSpec {
    /// Order in a mark set (lower first).
    pub rank: usize,
    /// The marks excluded: "_" for all, "" for only its own type, else names.
    pub excludes: Option<String>,
    /// Whether the mark extends at its end; none means true.
    pub inclusive: Option<bool>,
}

/// The description of a schema: node types in order (the first is the top
/// node) and mark types.
#[derive(Debug)]
pub struct SchemaSpec {
    pub nodes: Vec<(String, NodeSpec)>,
    pub marks: Vec<(String, MarkSpec)>,
}

/// A node type: its identity, name, groups, kind, the marks it allows
/// (none: all) and the automaton of its content expression. Two types are
/// the same type exactly when their identities are equal; a schema gives
/// each of its types an identity of its own.
#[derive(Debug)]
pub struct NodeType {
    pub id: usize,
    pub name: String,
    pub groups: Vec<String>,
    pub is_block: bool,
    pub is_text: bool,
    pub inline_content: bool,
    pub mark_set: Option<Vec<Arc<MarkType>>>,
    pub content_match: Option<Arc<ContentMatch>>,
}

/// A mark type: its identity, name, its rank in a mark set, the mark types
/// it excludes, and whether it extends at its end (none: yes). Two mark
/// types are the same type exactly when their identities are equal.
#[derive(Debug)]
pub struct MarkType {
    pub id: usize,
    pub name: String,
    pub rank: usize,
    pub excluded: Vec<Arc<MarkType>>,
    pub inclusive: Option<bool>,
}

impl SchemaError {
    /// The error's message.
    pub open spec fn spec_message(&self) -> Seq<char> {
        match self {
            SchemaError::EmptyNodes => "Schema must have at least one node type"@,
            SchemaError::ContentParseError(e) => "Content parse error: "@ + e@,
            SchemaError::UnknownMarkRef(n) => "Unknown mark type: "@ + n@,
        }
    }

    /// The error's message, as it is displayed.
    pub fn message(&self) -> (r: String)
        ensures
            r@ == self.spec_message(),
    {
        match self {
            SchemaError::EmptyNodes => String::from_str("Schema must have at least one node type"),
            SchemaError::ContentParseError(e) => {
                let mut s = String::from_str("Content parse error: ");
                crate::util::append_str(&mut s, e.as_str());
                s
            },
            SchemaError::UnknownMarkRef(n) => {
                let mut s = String::from_str("Unknown mark type: ");
                crate::util::append_str(&mut s, n.as_str());
                s
            },
        }
    }
}

/// The type is a leaf: it has no content expression, or its automaton starts
/// in an accepting state with no edges.
pub open spec fn spec_is_leaf(t: NodeType) -> bool {
    match t.content_match {
        Some(cm) => cm.out(cm.state()).len() == 0 && cm.valid_end,
        None => true,
    }
}

/// The type belongs to the named group.
pub open spec fn spec_in_group(t: NodeType, g: Seq<char>) -> bool {
    exists|i: int| 0 <= i < t.groups@.len() && #[trigger] t.groups@[i]@ == g
}

/// The type allows marks of the named type.
pub open spec fn spec_allows_mark_named(t: NodeType, name: Seq<char>) -> bool {
    match t.mark_set {
        None => true,
        Some(set) => exists|i: int| 0 <= i < set@.len() && #[trigger] set@[i].name@ == name,
    }
}

/// Content of the two types can be joined: the same type (equal
/// identities), or their automata share an edge label.
pub open spec fn spec_compatible_content(a: NodeType, b: NodeType) -> bool {
    a.id == b.id || match (a.content_match, b.content_match) {
        (Some(x), Some(y)) => ContentMatch::spec_compatible(*x, *y),
        _ => false,
    }
}

impl NodeType {
    /// Inline: not a block.
    pub fn is_inline(&self) -> (r: bool)
        ensures
            r == !self.is_block,
    {
        !self.is_block
    }

    /// Leaf: no content allowed at all.
    pub fn is_leaf(&self) -> (r: bool)
        requires
            self.content_match matches Some(cm) ==> cm.wf(),
        ensures
            r == spec_is_leaf(*self),
    {
        match &self.content_match {
            Some(cm) => cm.edge_count() == 0 && cm.valid_end,
            None => true,
        }
    }

    /// Textblock: a block with inline content.
    pub fn is_textblock(&self) -> (r: bool)
        ensures
            r == (self.is_block && self.inline_content),
    {
        self.is_block && self.inline_content
    }

    /// Membership in a group.
    pub fn is_in_group(&self, group: &str) -> (r: bool)
        ensures
            r == spec_in_group(*self, group@),
    {
        let mut i: usize = 0;
        while i < self.groups.len()
            invariant
                i <= self.groups@.len(),
                forall|j: int| 0 <= j < i ==> self.groups@[j]@ != group@,
            decreases self.groups@.len() - i,
        {
            if str_eq(self.groups[i].as_str(), group) {
                assert(self.groups@[i as int]@ == group@);
                return true;
            }
            i = i + 1;
        }
        false
    }

    /// Whether the type has attributes without defaults: never in this model.
    pub fn has_required_attrs(&self) -> (r: bool)
        ensures
            r == false,
    {
        false
    }

    /// Whether content of `other` may be joined onto content of this type.
    pub fn compatible_content(&self, other: &NodeType) -> (r: bool)
        requires
            self.content_match matches Some(cm) ==> cm.wf(),
            other.content_match matches Some(cm) ==> cm.wf(),
        ensures
            r == spec_compatible_content(*self, *other),
    {
        if self.id == other.id {
            return true;
        }
        match (&self.content_match, &other.content_match) {
            (Some(a), Some(b)) => a.compatible(b),
            _ => false,
        }
    }

    /// Whether marks of type `mt` are allowed in this type (mark types
    /// compared by name).
    pub fn allows_mark_type(&self, mt: &MarkType) -> (r: bool)
        ensures
            r == spec_allows_mark_named(*self, mt.name@),
    {
        match &self.mark_set {
            None => true,
            Some(set) => {
                let mut i: usize = 0;
                while i < set.len()
                    invariant
                        self.mark_set == Some(*set),
                        i <= set@.len(),
                        forall|j: int| 0 <= j < i ==> set@[j].name@ != mt.name@,
                    decreases set@.len() - i,
                {
                    if set[i].name == mt.name {
                        assert(set@[i as int].name@ == mt.name@);
                        return true;
                    }
                    i = i + 1;
                }
                false
            },
        }
    }
}

/// `a` excludes marks of type `b` (mark types compared by name).
pub open spec fn spec_excludes(a: MarkType, b: MarkType) -> bool {
    exists|i: int| 0 <= i < a.excluded@.len() && #[trigger] a.excluded@[i].name@ == b.name@
}

impl MarkType {
    /// Whether this mark type excludes `other`.
    pub fn excludes(&self, other: &MarkType) -> (r: bool)
        ensures
            r == spec_excludes(*self, *other),
    {
        let mut i: usize = 0;
        while i < self.excluded.len()
            invariant
                i <= self.excluded@.len(),
                forall|j: int| 0 <= j < i ==> self.excluded@[j].name@ != other.name@,
            decreases self.excluded@.len() - i,
        {
            if self.excluded[i].name == other.name {
                assert(self.excluded@[i as int].name@ == other.name@);
                return true;
            }
            i = i + 1;
        }
        false
    }
}

} // verus!
