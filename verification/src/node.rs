//! The comment node: a comment together with the replies nested below it.

use vstd::multiset::Multiset;
use vstd::prelude::*;
use crate::record::{CommentRecord, RecordModel, Timestamp};

verus! {

/// A comment and, nested inside it, the comments that reply to it.
///
/// A node owns its children; it keeps no reference to its parent.
#[derive(Debug, PartialEq, Eq)]
pub struct CommentNode {
    pub id: i32,
    pub slug: String,
    pub name: String,
    pub date: Timestamp,
    pub text: String,
    pub email: Option<String>,
    /// Direct replies, in the order in which they were added.
    pub children: Vec<CommentNode>,
}

/// The mathematical value of a [`CommentNode`]: the same fields, with the
/// children as a sequence of node values.
#[verifier::ext_equal]
pub struct NodeModel {
    pub id: int,
    pub slug: Seq<char>,
    pub name: Seq<char>,
    pub date: Timestamp,
    pub text: Seq<char>,
    pub email: Option<Seq<char>>,
    pub children: Seq<NodeModel>,
}

impl RecordModel {
    /// The node that shows this record with the given replies below it.
    pub open spec fn node(self, children: Seq<NodeModel>) -> NodeModel {
        NodeModel {
            id: self.id,
            slug: self.slug,
            name: self.name,
            date: self.date,
            text: self.text,
            email: self.email,
            children,
        }
    }
}

/// The identifiers of all the nodes of `forest`, at every depth, each as
/// often as it occurs.
pub open spec fn forest_ids(forest: Seq<NodeModel>) -> Multiset<int>
    decreases forest,
{
    if forest.len() == 0 {
        Multiset::empty()
    } else {
        forest_ids(forest.drop_last()).add(node_ids(forest.last()))
    }
}

/// The identifiers of `node` and of all the nodes below it.
pub open spec fn node_ids(node: NodeModel) -> Multiset<int>
    decreases node,
{
    Multiset::singleton(node.id).add(forest_ids(node.children))
}

impl CommentNode {
    /// The node as a mathematical value.
    pub open spec fn model(self) -> NodeModel
        decreases self,
    {
        NodeModel {
            id: self.id as int,
            slug: self.slug@,
            name: self.name@,
            date: self.date,
            text: self.text@,
            email: match self.email {
                Some(e) => Some(e@),
                None => None,
            },
            children: Seq::new(
                self.children@.len(),
                |k: int|
                    if 0 <= k < self.children@.len() {
                        self.children@[k].model()
                    } else {
                        arbitrary()
                    },
            ),
        }
    }

    /// A node for `record` with no replies yet.
    pub fn new(record: CommentRecord) -> (node: CommentNode)
        ensures
            node@ == record@.node(Seq::empty()),
    {
        let node = CommentNode {
            id: record.id,
            slug: record.slug,
            name: record.name,
            date: record.date,
            text: record.text,
            email: record.email,
            children: Vec::new(),
        };
        assert(node@.children =~= Seq::empty());
        node
    }

    /// Appends `child` as the last reply of this node.
    pub fn add_child(&mut self, child: CommentNode)
        ensures
            final(self)@ == (NodeModel { children: old(self)@.children.push(child@), ..old(self)@ }),
    {
        self.children.push(child);
        assert(self@.children =~= old(self)@.children.push(child@));
    }
}

impl View for CommentNode {
    type V = NodeModel;

    open spec fn view(&self) -> NodeModel {
        self.model()
    }
}

impl DeepView for CommentNode {
    type V = NodeModel;

    open spec fn deep_view(&self) -> NodeModel {
        self.model()
    }
}

impl Clone for CommentNode {
    fn clone(&self) -> (copy: Self)
        ensures
            copy@ == self@,
        decreases self,
    {
        let mut children: Vec<CommentNode> = Vec::new();
        let mut k: usize = 0;
        while k < self.children.len()
            invariant
                k <= self.children@.len(),
                children@.len() == k,
                forall|j: int| 0 <= j < k ==> (#[trigger] children@[j])@ == self.children@[j]@,
            decreases self.children@.len() - k,
        {
            let child = self.children[k].clone();
            children.push(child);
            k += 1;
        }
        let copy = CommentNode {
            id: self.id,
            slug: self.slug.clone(),
            name: self.name.clone(),
            date: self.date,
            text: self.text.clone(),
            email: match &self.email {
                Some(e) => Some(e.clone()),
                None => None,
            },
            children,
        };
        assert(copy@.children =~= self@.children);
        copy
    }
}

} // verus!
