//! Package category nodes: the kind tag a category writes into a package
//! tree, and the parse of that tag when a tree is read back.

use vstd::prelude::*;

verus! {

/// One schema definition carried in a package, named for lookup.
#[derive(Clone, Debug)]
pub struct SchemaSpec {
    pub name: String,
}

/// A category of package contents, with the entries it holds.
#[derive(Clone, Debug)]
pub enum PackageCategory {
    Schemas(Vec<SchemaSpec>),
}

/// The category tag of a package-tree node.
#[derive(Clone, Copy, Debug, PartialEq, Eq, Structural)]
pub enum CategoryNode {
    Schemas,
}

/// The tag that a category node writes for its kind.
pub open spec fn spec_kind_str(c: CategoryNode) -> Seq<char> {
    "schemas"@
}

impl CategoryNode {
    /// The kind tag of this category node.
    pub fn kind_str(&self) -> (r: &'static str)
        ensures
            r@ == spec_kind_str(*self),
    {
        match self {
            CategoryNode::Schemas => "schemas",
        }
    }

    /// Parses a kind tag back into a category node: exactly the tags that
    /// `kind_str` writes are accepted.
    pub fn from_kind_str(kind: &str) -> (r: Option<CategoryNode>)
        ensures
            r == (if kind@ == spec_kind_str(CategoryNode::Schemas) {
                Some(CategoryNode::Schemas)
            } else {
                None::<CategoryNode>
            }),
    {
        let k = kind.to_owned();
        let schemas = ("schemas").to_owned();
        if k == schemas {
            Some(CategoryNode::Schemas)
        } else {
            None
        }
    }
}

/// Writing a category node's kind tag and parsing it back yields the same
/// node, for every category node.
pub proof fn lemma_kind_str_round_trip(c: CategoryNode, written: Seq<char>)
    requires
        written == spec_kind_str(c),
    ensures
        (if written == spec_kind_str(CategoryNode::Schemas) {
            Some(CategoryNode::Schemas)
        } else {
            None::<CategoryNode>
        }) == Some(c),
{
}

impl PackageCategory {
    /// The category node under which this category's entries are stored.
    pub fn category_node(&self) -> (r: CategoryNode)
        ensures
            r == CategoryNode::Schemas,
    {
        match self {
            PackageCategory::Schemas(_) => CategoryNode::Schemas,
        }
    }

    /// How many entries the category holds.
    pub fn len(&self) -> (r: usize)
        ensures
            (match self {
                PackageCategory::Schemas(entries) => r == entries@.len(),
            }),
    {
        match self {
            PackageCategory::Schemas(entries) => entries.len(),
        }
    }
}

} // verus!
