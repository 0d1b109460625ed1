//! A directory tree of named files and directories.
//!
//! Each tree node is a file, with a size, or a directory; children hang
//! off their parent in insertion order and are addressed by index.

use vstd::prelude::*;

verus! {

use crate::parse::str_eq;

/// A file with its size, or a directory.
pub enum Node {
    File(String, usize),
    Directory(String),
}

/// The name of a node.
pub open spec fn node_name(n: Node) -> Seq<char> {
    match n {
        Node::File(name, _) => name@,
        Node::Directory(name) => name@,
    }
}

/// A tree node with its children in insertion order.
pub struct Tree {
    pub node: Node,
    pub children: Vec<Tree>,
}

impl Tree {
    /// A leaf holding `node`.
    pub fn new(node: Node) -> (t: Self)
        ensures
            t.node == node,
            t.children@ =~= Seq::<Tree>::empty(),
    {
        Self { node, children: Vec::new() }
    }

    /// Appends a new leaf child holding `child` and returns its index.
    pub fn insert_child(&mut self, child: Node) -> (r: usize)
        ensures
            final(self).node == old(self).node,
            final(self).children@.len() == old(self).children@.len() + 1,
            forall|j: int|
                0 <= j < old(self).children@.len() ==> final(self).children@[j] == old(
                    self,
                ).children@[j],
            final(self).children@.last().node == child,
            final(self).children@.last().children@.len() == 0,
            r == old(self).children@.len(),
    {
        let r = self.children.len();
        let tree = Self::new(child);
        self.children.push(tree);
        r
    }

    /// The index of the first child named `name`, if any.
    pub fn find_child(&self, name: &str) -> (r: Option<usize>)
        ensures
            match r {
                Some(k) => k < self.children@.len() && node_name(self.children@[k as int].node)
                    == name@ && forall|j: int|
                    0 <= j < k ==> node_name(self.children@[j].node) != name@,
                None => forall|j: int|
                    0 <= j < self.children@.len() ==> node_name(self.children@[j].node) != name@,
            },
    {
        let n = self.children.len();
        let mut k: usize = 0;
        while k < n
            invariant
                n == self.children@.len(),
                k <= n,
                forall|j: int| 0 <= j < k ==> node_name(self.children@[j].node) != name@,
            decreases n - k,
        {
            let child_name: &String = match &self.children[k].node {
                Node::File(nm, _) => nm,
                Node::Directory(nm) => nm,
            };
            if str_eq(child_name.as_str(), name) {
                proof {
                    assert(node_name(self.children@[k as int].node) == name@);
                }
                return Some(k);
            }
            k = k + 1;
        }
        None
    }
}

} // verus!
