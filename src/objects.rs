//! The four kinds of stored object and their mathematical views.
use vstd::prelude::*;

verus! {

/// One named child of a tree.
#[derive(Clone, Debug, PartialEq, Eq)]
pub struct TreeEntry {
    pub name: Vec<u8>,
    pub content: crate::hash::Hash,
}

/// A point in time as seconds and nanoseconds after the Unix epoch.
#[derive(Clone, Copy, Debug, PartialEq, Eq, Structural)]
pub struct Timestamp {
    pub secs: u64,
    pub nanos: u32,
}

/// A recorded snapshot: the staged tree, its predecessor and who made it.
#[derive(Clone, Debug, PartialEq, Eq)]
pub struct Commit {
    pub parent: crate::hash::Hash,
    pub name: String,
    pub email: String,
    pub tree: crate::hash::Hash,
    pub msg: String,
    pub date: Timestamp,
}

/// An immutable value in the store.
#[derive(Clone, Debug, PartialEq, Eq)]
pub enum Object {
    Null,
    Blob(Vec<u8>),
    Tree(Vec<TreeEntry>),
    Commit(Commit),
}

pub struct EntryView {
    pub name: Seq<u8>,
    pub content: Seq<u8>,
}

pub struct CommitView {
    pub parent: Seq<u8>,
    pub name: Seq<char>,
    pub email: Seq<char>,
    pub tree: Seq<u8>,
    pub msg: Seq<char>,
    pub secs: u64,
    pub nanos: u32,
}

pub enum ObjectView {
    Null,
    Blob(Seq<u8>),
    Tree(Seq<EntryView>),
    Commit(CommitView),
}

impl View for TreeEntry {
    type V = EntryView;

    open spec fn view(&self) -> EntryView {
        EntryView { name: self.name@, content: self.content@ }
    }
}

impl View for Commit {
    type V = CommitView;

    open spec fn view(&self) -> CommitView {
        CommitView {
            parent: self.parent@,
            name: self.name@,
            email: self.email@,
            tree: self.tree@,
            msg: self.msg@,
            secs: self.date.secs,
            nanos: self.date.nanos,
        }
    }
}

impl View for Object {
    type V = ObjectView;

    open spec fn view(&self) -> ObjectView {
        match self {
            Object::Null => ObjectView::Null,
            Object::Blob(b) => ObjectView::Blob(b@),
            Object::Tree(es) => ObjectView::Tree(es@.map_values(|e: TreeEntry| e@)),
            Object::Commit(c) => ObjectView::Commit(c@),
        }
    }
}

impl ObjectView {
    /// The digests this object refers to: a tree's children, a commit's tree
    /// and parent.
    pub open spec fn refs(self) -> Seq<Seq<u8>> {
        match self {
            ObjectView::Tree(es) => es.map_values(|e: EntryView| e.content),
            ObjectView::Commit(c) => seq![c.tree, c.parent],
            _ => seq![],
        }
    }
}

} // verus!
