//! Scene nodes: named objects linked into a tree by handles.

use vstd::prelude::*;
use crate::utils::pool::Handle;

verus! {

/// What a node is.
#[derive(Clone, Copy, Debug, PartialEq, Eq, Structural)]
pub enum NodeKind {
    Base,
    Light,
    Camera,
    Mesh,
}

/// A node of the scene tree.
#[derive(Debug)]
pub struct Node {
    pub name: String,
    pub kind: NodeKind,
    /// The node this one is attached to, or none.
    pub parent: Handle,
    /// The nodes attached to this one.
    pub children: Vec<Handle>,
    pub visibility: bool,
    /// Whether the node and all its ancestors are visible, as of the last update.
    pub global_visibility: bool,
    /// The rigid body that moves the node, or none.
    pub body: Handle,
}

/// A node as the contracts see it.
pub struct NodeView {
    pub name: Seq<char>,
    pub kind: NodeKind,
    pub parent: Handle,
    pub children: Seq<Handle>,
    pub visibility: bool,
    pub global_visibility: bool,
    pub body: Handle,
}

impl View for Node {
    type V = NodeView;

    open spec fn view(&self) -> NodeView {
        NodeView {
            name: self.name@,
            kind: self.kind,
            parent: self.parent,
            children: self.children@,
            visibility: self.visibility,
            global_visibility: self.global_visibility,
            body: self.body,
        }
    }
}

impl Node {
    /// A visible, unnamed and unlinked node of the given kind, with no body.
    pub fn new(kind: NodeKind) -> (n: Self)
        ensures
            n@ == (NodeView {
                name: Seq::empty(),
                kind,
                parent: Handle::spec_none(),
                children: Seq::empty(),
                visibility: true,
                global_visibility: true,
                body: Handle::spec_none(),
            }),
    {
        Node {
            name: String::new(),
            kind,
            parent: Handle::none(),
            children: Vec::new(),
            visibility: true,
            global_visibility: true,
            body: Handle::none(),
        }
    }

    pub fn get_name(&self) -> (s: &str)
        ensures
            s@ == self.name@,
    {
        self.name.as_str()
    }

    pub fn set_name(&mut self, name: String)
        ensures
            final(self)@ == (NodeView { name: name@, ..old(self)@ }),
    {
        self.name = name;
    }

    pub fn borrow_kind(&self) -> (k: &NodeKind)
        ensures
            *k == self.kind,
    {
        &self.kind
    }

    pub fn get_body(&self) -> (b: Handle)
        ensures
            b == self.body,
    {
        self.body
    }

    pub fn set_body(&mut self, body: Handle)
        ensures
            final(self)@ == (NodeView { body, ..old(self)@ }),
    {
        self.body = body;
    }

    /// A node with the same name, kind and visibility, not linked to any other node
    /// and with no body.
    pub fn make_copy(&self) -> (n: Node)
        ensures
            n@ == (NodeView {
                parent: Handle::spec_none(),
                children: Seq::empty(),
                body: Handle::spec_none(),
                ..self@
            }),
    {
        Node {
            name: self.name.clone(),
            kind: self.kind,
            parent: Handle::none(),
            children: Vec::new(),
            visibility: self.visibility,
            global_visibility: self.global_visibility,
            body: Handle::none(),
        }
    }
}

}
