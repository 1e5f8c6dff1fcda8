//! The nodes that the builder keeps while the keys below them still arrive.

use vstd::prelude::*;

verus! {

/// A child of a node, as its parent knows it once it is complete: the bytes
/// that all keys below it start with, and either its term id, where it is a
/// key, or the offset of its record in the output.
pub struct ChildModel {
    pub term: Seq<u8>,
    pub is_terminal: bool,
    pub value: nat,
}

/// A node of the builder with the children it has collected so far.
pub struct NodeModel {
    pub term: Seq<u8>,
    pub is_terminal: bool,
    pub term_id: nat,
    pub ptr: nat,
    pub children: Seq<ChildModel>,
}

impl NodeModel {
    /// The node as a child of its parent.
    pub open spec fn as_child(self) -> ChildModel {
        ChildModel {
            term: self.term,
            is_terminal: self.is_terminal,
            value: if self.is_terminal {
                self.term_id
            } else {
                self.ptr
            },
        }
    }

    /// The node with one more child.
    pub open spec fn with_child(self, c: ChildModel) -> NodeModel {
        NodeModel { children: self.children.push(c), ..self }
    }
}

/// The node of a key with its term id.
pub open spec fn terminal_node(word: Seq<u8>, term_id: nat) -> NodeModel {
    NodeModel { term: word, is_terminal: true, term_id: term_id, ptr: 0, children: Seq::empty() }
}

/// A node without children at which keys fork that start with `term`.
pub open spec fn fork_node(term: Seq<u8>) -> NodeModel {
    NodeModel { term: term, is_terminal: false, term_id: 0, ptr: 0, children: Seq::empty() }
}

/// A node of the trie under construction.
pub struct TrieNode {
    /// The number of bytes that all keys below the node share.
    pub prefix_len: usize,
    /// The term id of a key; of no meaning in other nodes.
    pub term_id: u32,
    /// The bytes that all keys below the node share.
    pub term: Vec<u8>,
    /// The offset of the node's record, once it is written.
    pub ptr: usize,
    /// Whether the node is a key.
    pub is_terminal: bool,
    /// How often the key occurs; of another node, how often the keys below
    /// it occur that are in no group yet.
    pub frequency: u32,
    /// The children collected so far, in ascending order.
    pub children: Vec<TrieNode>,
    /// The keys below the node that are in no group yet, each with its term
    /// id and its frequency.
    pub children_not_yet_tagged: Vec<(u32, u32)>,
}

impl TrieNode {
    /// The node as a child of its parent.
    pub open spec fn as_child(&self) -> ChildModel {
        ChildModel {
            term: self.term@,
            is_terminal: self.is_terminal,
            value: if self.is_terminal {
                self.term_id as nat
            } else {
                self.ptr as nat
            },
        }
    }

    /// The depth of the node is the length of its term.
    pub open spec fn wf(&self) -> bool {
        &&& self.prefix_len == self.term@.len()
        &&& forall|i: int|
            0 <= i < self.children@.len() ==> (#[trigger] self.children@[i]).prefix_len
                == self.children@[i].term@.len()
    }

    /// A node without children.
    pub fn new(prefix_len: usize, term_id: u32, term: Vec<u8>, is_terminal: bool) -> (node:
        TrieNode)
        ensures
            node.prefix_len == prefix_len,
            node.term_id == term_id,
            node.term == term,
            node.ptr == 0,
            node.is_terminal == is_terminal,
            node.frequency == 0,
            node.children@.len() == 0,
            node.children_not_yet_tagged@.len() == 0,
    {
        TrieNode {
            prefix_len: prefix_len,
            term_id: term_id,
            term: term,
            ptr: 0,
            is_terminal: is_terminal,
            frequency: 0,
            children: Vec::new(),
            children_not_yet_tagged: Vec::new(),
        }
    }
}

/// The children that a row of nodes stands for.
pub open spec fn child_models(nodes: Seq<TrieNode>) -> Seq<ChildModel> {
    Seq::new(nodes.len(), |i: int| nodes[i].as_child())
}

impl View for TrieNode {
    type V = NodeModel;

    open spec fn view(&self) -> NodeModel {
        NodeModel {
            term: self.term@,
            is_terminal: self.is_terminal,
            term_id: self.term_id as nat,
            ptr: self.ptr as nat,
            children: child_models(self.children@),
        }
    }
}

/// The nodes that a row of nodes stands for.
pub open spec fn node_models(nodes: Seq<TrieNode>) -> Seq<NodeModel> {
    Seq::new(nodes.len(), |i: int| nodes[i]@)
}

} // verus!
