//! The stage engine: rewriting the staged tree one path at a time.
//!
//! Trees are immutable and named by their digests, so changing the object at
//! a path stores a new tree at each level from the leaf up to the root, and
//! shares every subtree that the change does not touch.
use vstd::prelude::*;
use crate::codec::{encodable, entry_encodable, len_limit};
use crate::error::EvsError;
use crate::hash::{hash_eq, hex_of, hex_string};
use crate::objects::{EntryView, Object, ObjectView, TreeEntry};
use crate::repo::{empty_tree_hash, Repository};
use crate::store::{canonical, copy_bytes, object_hash, Store};

verus! {

/// One named child of a directory snapshot.
#[derive(Debug)]
pub struct WorkChild {
    pub name: Vec<u8>,
    pub node: usize,
}

/// A file's contents or a directory's children.
#[derive(Debug)]
pub enum WorkNode {
    File(Vec<u8>),
    Dir(Vec<WorkChild>),
}

/// A snapshot of part of the workspace. Each directory's children come
/// before it, so the last node is the root.
#[derive(Debug)]
pub struct WorkTree {
    pub nodes: Vec<WorkNode>,
}

pub open spec fn node_wf(n: WorkNode, i: int) -> bool {
    match n {
        WorkNode::File(d) => d@.len() < len_limit(),
        WorkNode::Dir(cs) => {
            &&& cs@.len() < len_limit()
            &&& forall|k: int|
                0 <= k < cs@.len() ==> (#[trigger] cs@[k]).node < i && cs@[k].name@.len() < len_limit()
            &&& forall|a: int, b: int|
                0 <= a < b < cs@.len() ==> (#[trigger] cs@[a]).name@ != (#[trigger] cs@[b]).name@
        },
    }
}

/// The object that a node stands for, given the digests of the nodes
/// before it.
pub open spec fn node_object(n: WorkNode, hs: Seq<Seq<u8>>) -> ObjectView {
    match n {
        WorkNode::File(d) => ObjectView::Blob(d@),
        WorkNode::Dir(cs) => ObjectView::Tree(
            cs@.map_values(|c: WorkChild| EntryView { name: c.name@, content: hs[c.node as int] }),
        ),
    }
}

/// The digests of the first `n` nodes.
pub open spec fn node_hashes(t: Seq<WorkNode>, n: nat) -> Seq<Seq<u8>>
    decreases n,
{
    if n == 0 {
        seq![]
    } else {
        let hs = node_hashes(t, (n - 1) as nat);
        hs.push(object_hash(canonical(node_object(t[n - 1], hs))))
    }
}

proof fn lemma_node_hashes_len(t: Seq<WorkNode>, n: nat)
    ensures
        node_hashes(t, n).len() == n,
    decreases n,
{
    if n > 0 {
        lemma_node_hashes_len(t, (n - 1) as nat);
    }
}

impl WorkTree {
    pub open spec fn wf(self) -> bool {
        forall|i: int| 0 <= i < self.nodes@.len() ==> node_wf(#[trigger] self.nodes@[i], i)
    }

    /// The digest of the snapshot's root.
    pub open spec fn root_hash(self) -> Seq<u8> {
        node_hashes(self.nodes@, self.nodes@.len()).last()
    }

    pub fn new() -> (r: WorkTree)
        ensures
            r.wf(),
            r.nodes@.len() == 0,
    {
        WorkTree { nodes: Vec::new() }
    }

    /// Adds a file and returns its index, or `None` where it is too large
    /// to encode.
    pub fn add_file(&mut self, data: Vec<u8>) -> (r: Option<usize>)
        requires
            old(self).wf(),
        ensures
            final(self).wf(),
            match r {
                Some(i) => i == old(self).nodes@.len() && final(self).nodes@ == old(self).nodes@.push(
                    WorkNode::File(data),
                ),
                None => final(self).nodes@ == old(self).nodes@ && data@.len() >= len_limit(),
            },
    {
        if data.len() as u64 >= 0xFFFF_FFFFu64 + 1 {
            return None;
        }
        let i = self.nodes.len();
        self.nodes.push(WorkNode::File(data));
        proof {
            assert forall|j: int| 0 <= j < self.nodes@.len() implies node_wf(
                #[trigger] self.nodes@[j],
                j,
            ) by {
                if j < i {
                    assert(self.nodes@[j] == old(self).nodes@[j]);
                }
            }
        }
        Some(i)
    }

    /// Adds a directory of earlier nodes and returns its index, or `None`
    /// where a child is not an earlier node, two children share a name, or
    /// a length does not fit.
    pub fn add_dir(&mut self, children: Vec<WorkChild>) -> (r: Option<usize>)
        requires
            old(self).wf(),
        ensures
            final(self).wf(),
            match r {
                Some(i) => i == old(self).nodes@.len() && final(self).nodes@ == old(self).nodes@.push(
                    WorkNode::Dir(children),
                ),
                None => final(self).nodes@ == old(self).nodes@ && !node_wf(
                    WorkNode::Dir(children),
                    old(self).nodes@.len() as int,
                ),
            },
    {
        let i = self.nodes.len();
        if children.len() as u64 >= 0xFFFF_FFFFu64 + 1 {
            return None;
        }
        let mut k: usize = 0;
        while k < children.len()
            invariant
                k <= children@.len(),
                i == old(self).nodes@.len(),
                self.nodes@ == old(self).nodes@,
                old(self).wf(),
                forall|j: int| 0 <= j < k ==> (#[trigger] children@[j]).node < i
                    && children@[j].name@.len() < len_limit(),
            decreases children@.len() - k,
        {
            if children[k].node >= i || children[k].name.len() as u64 >= 0xFFFF_FFFFu64 + 1 {
                return None;
            }
            k += 1;
        }
        let mut b: usize = 1;
        while b < children.len()
            invariant
                1 <= b || children@.len() == 0,
                b <= children@.len() || children@.len() == 0,
                i == old(self).nodes@.len(),
                self.nodes@ == old(self).nodes@,
                old(self).wf(),
                forall|x: int, y: int|
                    0 <= x < y < b && y < children@.len() ==> (#[trigger] children@[x]).name@ != (
                    #[trigger] children@[y]).name@,
            decreases children@.len() - b,
        {
            let mut a: usize = 0;
            while a < b
                invariant
                    a <= b < children@.len(),
                    self.nodes@ == old(self).nodes@,
                    old(self).wf(),
                    forall|x: int| 0 <= x < a ==> (#[trigger] children@[x]).name@ != children@[b as int].name@,
                decreases b - a,
            {
                if crate::hash::bytes_eq(children[a].name.as_slice(), children[b].name.as_slice()) {
                    return None;
                }
                a += 1;
            }
            b += 1;
        }
        self.nodes.push(WorkNode::Dir(children));
        proof {
            assert forall|j: int| 0 <= j < self.nodes@.len() implies node_wf(
                #[trigger] self.nodes@[j],
                j,
            ) by {
                if j < i {
                    assert(self.nodes@[j] == old(self).nodes@[j]);
                }
            }
        }
        Some(i)
    }
}

/// `after` holds every file of `before`, in the same places.
pub open spec fn extends(after: Store, before: Store) -> bool {
    after.files@.len() >= before.files@.len() && after.files@.subrange(
        0,
        before.files@.len() as int,
    ) == before.files@
}

proof fn lemma_insert_extends(before: Store, after: Store, o: ObjectView, h: crate::hash::Hash)
    requires
        Store::insert_outcome(before, after, o, h),
    ensures
        extends(after, before),
{
    if before.has_name(hex_of(h@)) {
        assert(after.files@.subrange(0, before.files@.len() as int) =~= before.files@);
    }
}

proof fn lemma_extends_trans(a: Store, b: Store, c: Store)
    requires
        extends(b, a),
        extends(c, b),
    ensures
        extends(c, a),
{
    assert(c.files@.subrange(0, a.files@.len() as int) =~= b.files@.subrange(
        0,
        a.files@.len() as int,
    ));
}

impl Repository {
    /// Stores a snapshot bottom-up and returns the digest of its root.
    pub fn hash_dir(&mut self, work: &WorkTree) -> (r: crate::hash::Hash)
        requires
            work.wf(),
            work.nodes@.len() > 0,
        ensures
            r@ == work.root_hash(),
            extends(final(self).store, old(self).store),
            old(self).store.names_distinct() ==> final(self).store.names_distinct(),
            forall|j: int| 0 <= j < work.nodes@.len() ==> final(self).store.has_name(
                hex_of(#[trigger] node_hashes(work.nodes@, work.nodes@.len())[j]),
            ),
            old(self).store.sound() ==> final(self).store.sound(),
            old(self).store.closed() ==> final(self).store.closed() && final(self).store.present(r@)
                && forall|x: Seq<u8>| #[trigger] old(self).store.present(x) ==> final(self).store.present(x),
            final(self).info == old(self).info,
    {
        let mut hashes: Vec<crate::hash::Hash> = Vec::new();
        let mut i: usize = 0;
        assert(extends(self.store, old(self).store)) by {
            assert(self.store.files@.subrange(0, self.store.files@.len() as int) =~= self.store.files@);
        }
        while i < work.nodes.len()
            invariant
                i <= work.nodes@.len(),
                work.wf(),
                crate::store::hash_views(hashes@) == node_hashes(work.nodes@, i as nat),
                extends(self.store, old(self).store),
                old(self).store.names_distinct() ==> self.store.names_distinct(),
                forall|j: int| 0 <= j < i ==> self.store.has_name(hex_of(#[trigger] hashes@[j]@)),
                old(self).store.sound() ==> self.store.sound(),
                old(self).store.closed() ==> self.store.closed() && (forall|j: int|
                    0 <= j < i ==> self.store.present(#[trigger] hashes@[j]@)) && forall|x: Seq<u8>|
                    #[trigger] old(self).store.present(x) ==> self.store.present(x),
                self.info == old(self).info,
            decreases work.nodes@.len() - i,
        {
            let ghost hs = node_hashes(work.nodes@, i as nat);
            proof {
                lemma_node_hashes_len(work.nodes@, i as nat);
            }
            let obj = match &work.nodes[i] {
                WorkNode::File(d) => Object::Blob(copy_bytes(d)),
                WorkNode::Dir(cs) => {
                    assert(node_wf(work.nodes@[i as int], i as int));
                    let mut es: Vec<TreeEntry> = Vec::new();
                    let mut k: usize = 0;
                    while k < cs.len()
                        invariant
                            k <= cs@.len(),
                            node_wf(WorkNode::Dir(*cs), i as int),
                            crate::store::hash_views(hashes@) == hs,
                            hs.len() == i,
                            es@.map_values(|e: TreeEntry| e@) == cs@.map_values(
                                |c: WorkChild| EntryView { name: c.name@, content: hs[c.node as int] },
                            ).subrange(0, k as int),
                        decreases cs@.len() - k,
                    {
                        let c = &cs[k];
                        assert(cs@[k as int].node < i);
                        let content = hashes[c.node];
                        assert(content@ == hs[c.node as int]);
                        let ghost prev = es@.map_values(|e: TreeEntry| e@);
                        let e = TreeEntry { name: copy_bytes(&c.name), content };
                        assert(e@ == cs@.map_values(
                            |c: WorkChild| EntryView { name: c.name@, content: hs[c.node as int] },
                        )[k as int]);
                        es.push(e);
                        assert(es@.map_values(|e: TreeEntry| e@) =~= prev.push(e@));
                        k += 1;
                        assert(es@.map_values(|e: TreeEntry| e@) =~= cs@.map_values(
                            |c: WorkChild| EntryView { name: c.name@, content: hs[c.node as int] },
                        ).subrange(0, k as int));
                    }
                    assert(cs@.map_values(
                        |c: WorkChild| EntryView { name: c.name@, content: hs[c.node as int] },
                    ).subrange(0, k as int) =~= cs@.map_values(
                        |c: WorkChild| EntryView { name: c.name@, content: hs[c.node as int] },
                    ));
                    Object::Tree(es)
                },
            };
            assert(obj@ == node_object(work.nodes@[i as int], hs));
            proof {
                assert(node_wf(work.nodes@[i as int], i as int));
                if let ObjectView::Tree(es) = obj@ {
                    assert forall|k: int| 0 <= k < es.len() implies entry_encodable(#[trigger] es[k]) by {
                        if let WorkNode::Dir(cs) = work.nodes@[i as int] {
                            assert(cs@[k].node < i);
                        }
                    }
                }
            }
            let ghost before = self.store;
            let ghost ov = obj@;
            proof {
                if old(self).store.closed() {
                    assert forall|x: Seq<u8>| #[trigger] ov.refs().contains(x) implies before.present(x) by {
                        if let WorkNode::Dir(cs) = work.nodes@[i as int] {
                            let rs = ov.refs();
                            let j = choose|j: int| 0 <= j < rs.len() && rs[j] == x;
                            let c = cs@[j].node;
                            assert(c < i);
                            assert(x == hs[c as int]);
                            assert(hashes@[c as int]@ == x);
                        }
                    }
                }
            }
            let h = self.store.insert(obj);
            proof {
                lemma_insert_extends(before, self.store, ov, h);
                lemma_extends_trans(old(self).store, before, self.store);
                if before.sound() {
                    crate::store::lemma_insert_keeps_sound(before, self.store, ov, h);
                }
                if old(self).store.closed() {
                    crate::closure::lemma_insert_closed(before, self.store, ov, h);
                }
                if old(self).store.names_distinct() {
                    crate::closure::lemma_insert_distinct(before, self.store, ov, h);
                }
                crate::store::lemma_insert_named(before, self.store, ov, h);
                assert forall|j: int| 0 <= j < i implies self.store.has_name(hex_of(#[trigger] hashes@[j]@)) by {
                    lemma_extends_has_name(before, self.store, hex_of(hashes@[j]@));
                }
                crate::store::lemma_hash_views_push(hashes@, h);
            }
            hashes.push(h);
            i += 1;
        }
        proof {
            lemma_node_hashes_len(work.nodes@, i as nat);
            if old(self).store.closed() {
                assert(self.store.present(hashes@[i - 1]@));
            }
            assert forall|j: int| 0 <= j < work.nodes@.len() implies self.store.has_name(
                hex_of(#[trigger] node_hashes(work.nodes@, work.nodes@.len())[j]),
            ) by {
                assert(crate::store::hash_views(hashes@)[j] == hashes@[j]@);
            }
        }
        let last = hashes.len() - 1;
        hashes[last]
    }
}

// ---------------------------------------------------------------------------
// Rewriting one path.
// ---------------------------------------------------------------------------
/// How rewriting a path ends.
pub enum StageStep {
    /// The new digest of the tree, or `None` where it became empty.
    Done(Option<Seq<u8>>),
    /// A removal names a path that is not staged.
    NotInStage,
    /// A tree has more entries than the encoding can hold.
    TooLarge,
    /// A tree on the path cannot be read from the store.
    Unresolvable,
}

pub open spec fn opt_view(o: Option<crate::hash::Hash>) -> Option<Seq<u8>> {
    match o {
        Some(h) => Some(h@),
        None => None,
    }
}

pub open spec fn has_entry(es: Seq<EntryView>, name: Seq<u8>) -> bool {
    exists|k: int| 0 <= k < es.len() && #[trigger] es[k].name == name
}

/// The first entry of the given name.
pub open spec fn entry_index(es: Seq<EntryView>, name: Seq<u8>) -> int {
    choose|k: int|
        0 <= k < es.len() && #[trigger] es[k].name == name && forall|j: int|
            0 <= j < k ==> (#[trigger] es[j]).name != name
}

proof fn lemma_first_entry_exists(es: Seq<EntryView>, name: Seq<u8>, k: int)
    requires
        0 <= k < es.len(),
        es[k].name == name,
    ensures
        exists|c: int|
            0 <= c < es.len() && #[trigger] es[c].name == name && forall|j: int|
                0 <= j < c ==> (#[trigger] es[j]).name != name,
    decreases k,
{
    if exists|j: int| 0 <= j < k && (#[trigger] es[j]).name == name {
        let j = choose|j: int| 0 <= j < k && (#[trigger] es[j]).name == name;
        lemma_first_entry_exists(es, name, j);
    }
}

/// The first entry of a name that is present is where `entry_index` says.
pub proof fn lemma_entry_index(es: Seq<EntryView>, name: Seq<u8>)
    requires
        has_entry(es, name),
    ensures
        0 <= entry_index(es, name) < es.len(),
        es[entry_index(es, name)].name == name,
        forall|j: int| 0 <= j < entry_index(es, name) ==> (#[trigger] es[j]).name != name,
{
    let k = choose|k: int| 0 <= k < es.len() && #[trigger] es[k].name == name;
    lemma_first_entry_exists(es, name, k);
}

/// The digest of the stored tree with these entries.
pub open spec fn tree_hash(es: Seq<EntryView>) -> Seq<u8> {
    object_hash(canonical(ObjectView::Tree(es)))
}

/// The entries of the tree stored under a digest (none for another kind of
/// object), or `None` where it cannot be read. No digest stands for a fresh
/// empty tree.
pub open spec fn tree_at(s: Store, h: Option<Seq<u8>>) -> Option<Seq<EntryView>> {
    match h {
        None => Some(seq![]),
        Some(h) => {
            let n = hex_of(h);
            if h.len() == 32 && s.has_name(n) {
                let i = choose|i: int| s.first_match(n, i);
                if s.readable_at(i) {
                    Some(
                        match s.object_at(i) {
                            ObjectView::Tree(es) => es,
                            _ => seq![],
                        },
                    )
                } else {
                    None
                }
            } else {
                None
            }
        },
    }
}

/// Puts the new child under `name` in a tree, or removes `name` from it.
pub open spec fn apply_child(
    es: Seq<EntryView>,
    name: Seq<u8>,
    child: Option<Seq<u8>>,
    tree: Option<Seq<u8>>,
) -> StageStep {
    match child {
        Some(ch) => if has_entry(es, name) {
            let k = entry_index(es, name);
            if es[k].content == ch && tree is Some {
                StageStep::Done(tree)
            } else {
                StageStep::Done(Some(tree_hash(es.update(k, EntryView { name, content: ch }))))
            }
        } else if es.len() + 1 >= len_limit() {
            StageStep::TooLarge
        } else {
            StageStep::Done(Some(tree_hash(es.push(EntryView { name, content: ch }))))
        },
        None => if has_entry(es, name) {
            let rest = es.remove(entry_index(es, name));
            if rest.len() == 0 {
                StageStep::Done(None)
            } else {
                StageStep::Done(Some(tree_hash(rest)))
            }
        } else {
            StageStep::NotInStage
        },
    }
}

/// The result of setting the object at `path[i..]` below `tree` to `obj`
/// (or removing it where `obj` is `None`): each level gets a new tree,
/// a subtree left empty by a removal is pruned, and a tree that does not
/// change keeps its digest.
pub open spec fn stage_update(
    s: Store,
    path: Seq<Seq<u8>>,
    i: int,
    obj: Option<Seq<u8>>,
    tree: Option<Seq<u8>>,
) -> StageStep
    decreases path.len() - i,
{
    if i < 0 || i >= path.len() {
        StageStep::Unresolvable
    } else {
        match tree_at(s, tree) {
            None => StageStep::Unresolvable,
            Some(es) => {
                let name = path[i];
                let child = if i + 1 == path.len() {
                    StageStep::Done(obj)
                } else if has_entry(es, name) {
                    stage_update(s, path, i + 1, obj, Some(es[entry_index(es, name)].content))
                } else if obj is Some {
                    stage_update(s, path, i + 1, obj, None)
                } else {
                    StageStep::NotInStage
                };
                match child {
                    StageStep::Done(c) => apply_child(es, name, c, tree),
                    other => other,
                }
            },
        }
    }
}

/// The tree that one level of a rewrite stores, where it stores one.
pub open spec fn level_tree(
    es: Seq<EntryView>,
    name: Seq<u8>,
    child: Option<Seq<u8>>,
    tree: Option<Seq<u8>>,
) -> Option<ObjectView> {
    match child {
        Some(ch) => if has_entry(es, name) {
            let k = entry_index(es, name);
            if es[k].content == ch && tree is Some {
                None
            } else {
                Some(canonical(ObjectView::Tree(es.update(k, EntryView { name, content: ch }))))
            }
        } else if es.len() + 1 >= len_limit() {
            None
        } else {
            Some(canonical(ObjectView::Tree(es.push(EntryView { name, content: ch }))))
        },
        None => if has_entry(es, name) {
            let rest = es.remove(entry_index(es, name));
            if rest.len() == 0 {
                None
            } else {
                Some(canonical(ObjectView::Tree(rest)))
            }
        } else {
            None
        },
    }
}

/// The trees that a rewrite stores, from the leaf up.
pub open spec fn produced(
    s: Store,
    path: Seq<Seq<u8>>,
    i: int,
    obj: Option<Seq<u8>>,
    tree: Option<Seq<u8>>,
) -> Seq<ObjectView>
    decreases path.len() - i,
{
    if i < 0 || i >= path.len() {
        seq![]
    } else {
        match tree_at(s, tree) {
            None => seq![],
            Some(es) => {
                let name = path[i];
                let next = if has_entry(es, name) {
                    Some(es[entry_index(es, name)].content)
                } else {
                    None
                };
                let deeper = i + 1 < path.len() && (has_entry(es, name) || obj is Some);
                let sub = if deeper {
                    produced(s, path, i + 1, obj, next)
                } else {
                    seq![]
                };
                let child = if i + 1 == path.len() {
                    StageStep::Done(obj)
                } else if deeper {
                    stage_update(s, path, i + 1, obj, next)
                } else {
                    StageStep::NotInStage
                };
                match child {
                    StageStep::Done(c) => match level_tree(es, name, c, tree) {
                        Some(t) => sub.push(t),
                        None => sub,
                    },
                    _ => sub,
                }
            },
        }
    }
}

pub open spec fn path_view(path: Seq<Vec<u8>>) -> Seq<Seq<u8>> {
    path.map_values(|c: Vec<u8>| c@)
}

/// What a step gives for the caller: `Ok` with the digest, or the error.
pub open spec fn step_outcome(step: StageStep, r: Result<Option<crate::hash::Hash>, EvsError>) -> bool {
    match step {
        StageStep::Done(d) => r matches Ok(x) && opt_view(x) == d,
        StageStep::NotInStage => r matches Err(EvsError::PathNotInStage),
        StageStep::TooLarge => r matches Err(EvsError::ObjectTooLarge),
        StageStep::Unresolvable => r is Err,
    }
}

fn find_entry(es: &Vec<TreeEntry>, name: &[u8]) -> (r: Option<usize>)
    ensures
        match r {
            Some(k) => has_entry(es@.map_values(|e: TreeEntry| e@), name@) && k == entry_index(
                es@.map_values(|e: TreeEntry| e@),
                name@,
            ),
            None => !has_entry(es@.map_values(|e: TreeEntry| e@), name@),
        },
{
    let ghost v = es@.map_values(|e: TreeEntry| e@);
    let mut k: usize = 0;
    while k < es.len()
        invariant
            k <= es@.len(),
            v == es@.map_values(|e: TreeEntry| e@),
            forall|j: int| 0 <= j < k ==> (#[trigger] v[j]).name != name@,
        decreases es@.len() - k,
    {
        if crate::hash::bytes_eq(es[k].name.as_slice(), name) {
            assert(v[k as int].name == name@);
            let ghost c = entry_index(v, name@);
            assert(c == k) by {
                if c < k {
                    assert(v[c].name != name@);
                }
                if c > k {
                    assert(v[k as int].name == name@);
                }
            }
            return Some(k);
        }
        k += 1;
    }
    None
}

proof fn lemma_extends_refl(s: Store)
    ensures
        extends(s, s),
{
    assert(s.files@.subrange(0, s.files@.len() as int) =~= s.files@);
}

/// The entries of a tree's stored form can be stored again.
pub open spec fn entries_storable(ev: Seq<EntryView>) -> bool {
    &&& ev.len() < len_limit()
    &&& forall|k: int| 0 <= k < ev.len() ==> entry_encodable(#[trigger] ev[k])
    &&& crate::order::names_unique(ev)
}

proof fn lemma_extends_has_name(a: Store, b: Store, n: Seq<u8>)
    requires
        extends(b, a),
        a.has_name(n),
    ensures
        b.has_name(n),
{
    let i = choose|i: int| 0 <= i < a.files@.len() && #[trigger] a.name_at(i) == n;
    assert(b.files@[i] == b.files@.subrange(0, a.files@.len() as int)[i]);
    assert(b.name_at(i) == n);
}

/// Whether a rewrite goes down a level below `i`.
pub open spec fn goes_deeper(s: Store, path: Seq<Seq<u8>>, i: int, obj: Option<Seq<u8>>, tree: Option<Seq<u8>>) -> bool {
    i + 1 < path.len() && (has_entry(tree_at(s, tree).unwrap(), path[i]) || obj is Some)
}

/// What the levels below `i` give.
pub open spec fn child_step(s: Store, path: Seq<Seq<u8>>, i: int, obj: Option<Seq<u8>>, tree: Option<Seq<u8>>) -> StageStep {
    if i + 1 == path.len() {
        StageStep::Done(obj)
    } else if goes_deeper(s, path, i, obj, tree) {
        stage_update(s, path, i + 1, obj, next_tree(s, path, i, tree))
    } else {
        StageStep::NotInStage
    }
}

/// Where the deeper levels' trees and this level's tree are named in the
/// store, every tree that the rewrite stores is.
proof fn lemma_produced_named(
    s0: Store,
    s1: Store,
    s2: Store,
    path: Seq<Seq<u8>>,
    i: int,
    obj: Option<Seq<u8>>,
    tree: Option<Seq<u8>>,
)
    requires
        extends(s2, s1),
        0 <= i < path.len() && tree_at(s0, tree) is Some && goes_deeper(s0, path, i, obj, tree)
            ==> forall|t: ObjectView| #[trigger]
            produced(s0, path, i + 1, obj, next_tree(s0, path, i, tree)).contains(t) ==> s1.has_name(
                hex_of(object_hash(t)),
            ),
        0 <= i < path.len() && tree_at(s0, tree) is Some ==> (child_step(s0, path, i, obj, tree) matches StageStep::Done(c)
            ==> (level_tree(tree_at(s0, tree).unwrap(), path[i], c, tree) matches Some(t) ==> s2.has_name(
            hex_of(object_hash(t)),
        ))),
    ensures
        forall|t: ObjectView| #[trigger]
            produced(s0, path, i, obj, tree).contains(t) ==> s2.has_name(hex_of(object_hash(t))),
{
    assert forall|t: ObjectView| #[trigger] produced(s0, path, i, obj, tree).contains(t) implies s2.has_name(
        hex_of(object_hash(t)),
    ) by {
        let p = produced(s0, path, i, obj, tree);
        let j = choose|j: int| 0 <= j < p.len() && p[j] == t;
        assert(0 <= i < path.len());
        assert(tree_at(s0, tree) is Some);
        let next = next_tree(s0, path, i, tree);
        let sub = if goes_deeper(s0, path, i, obj, tree) {
            produced(s0, path, i + 1, obj, next)
        } else {
            seq![]
        };
        if j < sub.len() {
            assert(p[j] == sub[j]);
            assert(sub.contains(t));
            assert(produced(s0, path, i + 1, obj, next).contains(t));
            lemma_extends_has_name(s1, s2, hex_of(object_hash(t)));
        }
    }
}

impl Repository {
    /// Reads the entries of the tree stored under `tree`.
    fn load_entries(&self, tree: Option<crate::hash::Hash>) -> (r: Result<Vec<TreeEntry>, EvsError>)
        ensures
            match r {
                Ok(es) => tree_at(self.store, opt_view(tree)) == Some(es@.map_values(|e: TreeEntry| e@))
                    && entries_storable(es@.map_values(|e: TreeEntry| e@)) && (self.store.closed() ==> (
                forall|k: int|
                    0 <= k < es@.len() ==> self.store.present(#[trigger] es@[k].content@)) && (
                tree matches Some(t) ==> self.store.present(t@))),
                Err(_) => tree_at(self.store, opt_view(tree)) is None,
            },
    {
        match tree {
            None => {
                let es: Vec<TreeEntry> = Vec::new();
                assert(es@.map_values(|e: TreeEntry| e@) =~= Seq::<EntryView>::empty());
                Ok(es)
            },
            Some(h) => {
                let id = hex_string(h.as_slice());
                let looked = self.store.lookup(id.as_str());
                let ghost n = hex_of(h@);
                proof {
                    crate::hash::lemma_hex_of_hash_is_name(h@);
                    if self.store.has_name(n) {
                        let j = choose|j: int|
                            0 <= j < self.store.files@.len() && #[trigger] self.store.name_at(j) == n;
                        assert(self.store.matches_at(n, j));
                        crate::store::lemma_first_match_exists(self.store, n, j);
                        let c = choose|c: int| self.store.first_match(n, c);
                        assert(self.store.selects(n, c));
                    } else {
                        assert forall|j: int| !#[trigger] self.store.matches_at(n, j) by {
                            if 0 <= j < self.store.files@.len() && self.store.name_at(j) == n {
                                assert(self.store.has_name(n));
                            }
                        }
                    }
                }
                match looked {
                    Ok((_, Object::Tree(es))) => {
                        proof {
                            let c = choose|c: int| self.store.first_match(n, c);
                            crate::codec::lemma_decoded_tree_encodable(self.store.contents_at(c));
                            crate::order::lemma_strictly_sorted_unique(es@.map_values(|e: TreeEntry| e@));
                            if self.store.closed() {
                                crate::closure::lemma_named_present(self.store, h@);
                                assert forall|k: int| 0 <= k < es@.len() implies self.store.present(
                                    #[trigger] es@[k].content@,
                                ) by {
                                    let ev = es@.map_values(|e: TreeEntry| e@);
                                    assert(ev[k].content == es@[k].content@);
                                    assert(self.store.object_at(c).refs()[k] == es@[k].content@);
                                    crate::closure::lemma_stored_refs_present(
                                        self.store,
                                        c,
                                        es@[k].content@,
                                    );
                                }
                            }
                        }
                        Ok(es)
                    },
                    Ok(_) => {
                        let es: Vec<TreeEntry> = Vec::new();
                        assert(es@.map_values(|e: TreeEntry| e@) =~= Seq::<EntryView>::empty());
                        proof {
                            if self.store.closed() {
                                crate::closure::lemma_named_present(self.store, h@);
                            }
                        }
                        Ok(es)
                    },
                    Err(e) => Err(e),
                }
            },
        }
    }

    /// Puts `child` under `name` in the entries and stores the new tree, or
    /// removes `name`.
    fn apply_and_store(
        &mut self,
        es: Vec<TreeEntry>,
        name: &Vec<u8>,
        found: Option<usize>,
        child: Option<crate::hash::Hash>,
        tree: Option<crate::hash::Hash>,
    ) -> (r: Result<Option<crate::hash::Hash>, EvsError>)
        requires
            entries_storable(es@.map_values(|e: TreeEntry| e@)),
            name@.len() < len_limit(),
            match found {
                Some(k) => has_entry(es@.map_values(|e: TreeEntry| e@), name@) && k == entry_index(
                    es@.map_values(|e: TreeEntry| e@),
                    name@,
                ),
                None => !has_entry(es@.map_values(|e: TreeEntry| e@), name@),
            },
            tree is None ==> es@.len() == 0,
        ensures
            step_outcome(
                apply_child(es@.map_values(|e: TreeEntry| e@), name@, opt_view(child), opt_view(tree)),
                r,
            ),
            extends(final(self).store, old(self).store),
            old(self).store.sound() ==> final(self).store.sound(),
            (old(self).store.closed() && (forall|k: int|
                0 <= k < es@.len() ==> old(self).store.present(#[trigger] es@[k].content@)) && (
            child matches Some(c) ==> old(self).store.present(c@)) && (tree matches Some(t)
                ==> old(self).store.present(t@))) ==> (final(self).store.closed() && (r matches Ok(
                Some(h),
            ) ==> final(self).store.present(h@)) && forall|x: Seq<u8>| #[trigger]
                old(self).store.present(x) ==> final(self).store.present(x)),
            level_tree(es@.map_values(|e: TreeEntry| e@), name@, opt_view(child), opt_view(tree)) matches Some(t)
                ==> final(self).store.has_name(hex_of(object_hash(t))),
            r matches Err(EvsError::PathNotInStage) ==> child is None && found is None && final(self).store
                == old(self).store,
            old(self).store.names_distinct() ==> final(self).store.names_distinct(),
            final(self).info == old(self).info,
    {
        proof {
            lemma_extends_refl(self.store);
        }
        let ghost ev = es@.map_values(|e: TreeEntry| e@);
        let ghost es0 = es@;
        proof {
            if found is Some {
                lemma_entry_index(ev, name@);
            }
        }
        let mut es = es;
        match child {
            Some(c) => {
                match found {
                    Some(k) => {
                        assert(ev[k as int].content == es@[k as int].content@);
                        if tree.is_some() && hash_eq(&es[k].content, &c) {
                            return Ok(tree);
                        }
                        let entry = TreeEntry { name: copy_bytes(name), content: c };
                        es.set(k, entry);
                    },
                    None => {
                        if es.len() as u64 >= 0xFFFF_FFFFu64 {
                            return Err(EvsError::ObjectTooLarge);
                        }
                        es.push(TreeEntry { name: copy_bytes(name), content: c });
                    },
                }
            },
            None => {
                match found {
                    Some(k) => {
                        es.remove(k);
                        if es.len() == 0 {
                            proof {
                                assert(es@.map_values(|e: TreeEntry| e@) =~= ev.remove(k as int));
                            }
                            return Ok(None);
                        }
                    },
                    None => {
                        return Err(EvsError::PathNotInStage);
                    },
                }
            },
        }
        let ghost nv = es@.map_values(|e: TreeEntry| e@);
        proof {
            match child {
                Some(c) => match found {
                    Some(k) => {
                        assert(nv =~= ev.update(k as int, EntryView { name: name@, content: c@ }));
                    },
                    None => {
                        assert(nv =~= ev.push(EntryView { name: name@, content: c@ }));
                    },
                },
                None => {
                    assert(nv =~= ev.remove(found.unwrap() as int));
                },
            }
            assert forall|k: int| 0 <= k < nv.len() implies entry_encodable(#[trigger] nv[k]) by {
                match child {
                    Some(c) => match found {
                        Some(f) => {
                            if k != f {
                                assert(nv[k] == ev[k]);
                            }
                        },
                        None => {
                            if k < ev.len() {
                                assert(nv[k] == ev[k]);
                            }
                        },
                    },
                    None => {
                        if k < found.unwrap() {
                            assert(nv[k] == ev[k]);
                        } else {
                            assert(nv[k] == ev[k + 1]);
                        }
                    },
                }
            }
        }
        let ghost s1 = self.store;
        let tree_obj = Object::Tree(es);
        let ghost ov = tree_obj@;
        proof {
            if s1.closed() && (forall|k: int| 0 <= k < es0.len() ==> s1.present(#[trigger] es0[k].content@))
                && (child matches Some(c) ==> s1.present(c@)) {
                assert forall|x: Seq<u8>| #[trigger] ov.refs().contains(x) implies s1.present(x) by {
                    let rs = ov.refs();
                    let j = choose|j: int| 0 <= j < rs.len() && rs[j] == x;
                    assert(rs[j] == nv[j].content);
                    match child {
                        Some(c) => match found {
                            Some(f) => {
                                if j != f {
                                    assert(nv[j] == ev[j]);
                                    assert(ev[j].content == es0[j].content@);
                                }
                            },
                            None => {
                                if j < ev.len() {
                                    assert(nv[j] == ev[j]);
                                    assert(ev[j].content == es0[j].content@);
                                }
                            },
                        },
                        None => {
                            if j < found.unwrap() {
                                assert(nv[j] == ev[j]);
                                assert(ev[j].content == es0[j].content@);
                            } else {
                                assert(nv[j] == ev[j + 1]);
                                assert(ev[j + 1].content == es0[j + 1].content@);
                            }
                        },
                    }
                }
            }
        }
        let h = self.store.insert(tree_obj);
        proof {
            lemma_insert_extends(s1, self.store, ov, h);
            if s1.sound() {
                crate::store::lemma_insert_keeps_sound(s1, self.store, ov, h);
            }
            if s1.closed() && (forall|k: int| 0 <= k < es0.len() ==> s1.present(#[trigger] es0[k].content@))
                && (child matches Some(c) ==> s1.present(c@)) {
                crate::closure::lemma_insert_closed(s1, self.store, ov, h);
            }
            if s1.names_distinct() {
                crate::closure::lemma_insert_distinct(s1, self.store, ov, h);
            }
            assert(level_tree(ev, name@, opt_view(child), opt_view(tree)) == Some(canonical(ov)));
            if s1.has_name(hex_of(h@)) {
                assert(self.store.files@ == s1.files@);
                let j = choose|j: int| 0 <= j < s1.files@.len() && #[trigger] s1.name_at(j) == hex_of(h@);
                assert(self.store.name_at(j) == hex_of(h@));
            } else {
                assert(self.store.name_at(s1.files@.len() as int) == hex_of(h@));
            }
        }
        Ok(Some(h))
    }

    /// Sets the object at `path[i..]` below `tree` to `obj`, or removes it
    /// where `obj` is `None`, storing the new trees bottom-up.
    #[verifier::rlimit(100)]
    fn update_stage(
        &mut self,
        path: &Vec<Vec<u8>>,
        i: usize,
        obj: Option<crate::hash::Hash>,
        tree: Option<crate::hash::Hash>,
    ) -> (r: Result<Option<crate::hash::Hash>, EvsError>)
        requires
            i < path@.len(),
            forall|k: int| 0 <= k < path@.len() ==> (#[trigger] path@[k])@.len() < len_limit(),
        ensures
            step_outcome(
                stage_update(old(self).store, path_view(path@), i as int, opt_view(obj), opt_view(tree)),
                r,
            ),
            extends(final(self).store, old(self).store),
            old(self).store.sound() ==> final(self).store.sound(),
            (old(self).store.closed() && (obj matches Some(h) ==> old(self).store.present(h@))) ==> (
            final(self).store.closed() && (r matches Ok(Some(h)) ==> final(self).store.present(h@))
                && forall|x: Seq<u8>| #[trigger]
                old(self).store.present(x) ==> final(self).store.present(x)),
            forall|t: ObjectView| #[trigger]
                produced(old(self).store, path_view(path@), i as int, opt_view(obj), opt_view(tree)).contains(t)
                    ==> final(self).store.has_name(hex_of(object_hash(t))),
            r matches Err(EvsError::PathNotInStage) ==> final(self).store == old(self).store,
            old(self).store.names_distinct() ==> final(self).store.names_distinct(),
            final(self).info == old(self).info,
        decreases path@.len() - i,
    {
        let ghost s0 = self.store;
        let ghost pv = path_view(path@);
        assert(pv[i as int] == path@[i as int]@);
        proof {
            lemma_extends_refl(self.store);
        }
        let es = match self.load_entries(tree) {
            Ok(es) => es,
            Err(e) => {
                proof {
                    lemma_extends_refl(s0);
                    lemma_produced_named(s0, s0, s0, pv, i as int, opt_view(obj), opt_view(tree));
                }
                return Err(e);
            },
        };
        let ghost ev = es@.map_values(|e: TreeEntry| e@);
        let name = &path[i];
        let found = find_entry(&es, name.as_slice());
        proof {
            if found is Some {
                lemma_entry_index(ev, name@);
            }
        }
        let child: Option<crate::hash::Hash> = if i == path.len() - 1 {
            obj
        } else {
            match found {
                Some(k) => {
                    assert(ev[k as int].content == es@[k as int].content@);
                    match self.update_stage(path, i + 1, obj, Some(es[k].content)) {
                        Ok(c) => c,
                        Err(e) => {
                            proof {
                                lemma_extends_refl(self.store);
                                lemma_produced_named(s0, self.store, self.store, pv, i as int, opt_view(obj), opt_view(tree));
                            }
                            return Err(e);
                        },
                    }
                },
                None => {
                    if obj.is_none() {
                        proof {
                            lemma_extends_refl(s0);
                            lemma_extends_refl(s0);
                    lemma_produced_named(s0, s0, s0, pv, i as int, opt_view(obj), opt_view(tree));
                        }
                        return Err(EvsError::PathNotInStage);
                    }
                    match self.update_stage(path, i + 1, obj, None) {
                        Ok(c) => c,
                        Err(e) => {
                            proof {
                                lemma_extends_refl(self.store);
                                lemma_produced_named(s0, self.store, self.store, pv, i as int, opt_view(obj), opt_view(tree));
                            }
                            return Err(e);
                        },
                    }
                },
            }
        };
        let ghost s1 = self.store;
        assert(tree is None ==> es@.len() == 0) by {
            if tree is None {
                assert(ev.len() == 0);
            }
        }
        proof {
            assert(tree_at(s0, opt_view(tree)) == Some(ev));
            assert(pv[i as int] == name@);
            if let Some(k) = found {
                assert(next_tree(s0, pv, i as int, opt_view(tree)) == Some(ev[k as int].content));
            } else {
                assert(next_tree(s0, pv, i as int, opt_view(tree)) is None);
            }
            assert(child_step(s0, pv, i as int, opt_view(obj), opt_view(tree)) == StageStep::Done(opt_view(child)));
            if let Some(o) = obj {
                if i + 1 < path@.len() {
                    lemma_store_keeps_root(s0, pv, i + 1, o@, next_tree(s0, pv, i as int, opt_view(tree)));
                }
                assert(child is Some);
            }
        }
        let r = self.apply_and_store(es, name, found, child, tree);
        proof {
            lemma_extends_trans(s0, s1, self.store);
            lemma_produced_named(s0, s1, self.store, pv, i as int, opt_view(obj), opt_view(tree));
        }
        r
    }
}

proof fn lemma_tree_at_extends(a: Store, b: Store, h: Option<Seq<u8>>)
    requires
        extends(b, a),
        tree_at(a, h) is Some,
    ensures
        tree_at(b, h) == tree_at(a, h),
{
    if let Some(x) = h {
        let n = hex_of(x);
        crate::hash::lemma_hex_of_hash_is_name(x);
        let j0 = choose|j: int| 0 <= j < a.files@.len() && #[trigger] a.name_at(j) == n;
        assert(a.matches_at(n, j0));
        crate::store::lemma_first_match_exists(a, n, j0);
        let i = choose|i: int| a.first_match(n, i);
        assert(b.files@[i] == b.files@.subrange(0, a.files@.len() as int)[i]);
        assert(b.name_at(i) == a.name_at(i));
        assert forall|j: int| 0 <= j < i implies !#[trigger] b.matches_at(n, j) by {
            assert(b.files@[j] == b.files@.subrange(0, a.files@.len() as int)[j]);
            assert(!a.matches_at(n, j));
        }
        assert(b.first_match(n, i));
        assert(b.has_name(n));
        let c = choose|c: int| b.first_match(n, c);
        if c < i {
            assert(b.matches_at(n, c));
        }
        if c > i {
            assert(b.matches_at(n, i));
        }
        assert(c == i);
        assert(b.data_at(i) == a.data_at(i));
    }
}

/// Adding files to the store does not change a rewrite that could read
/// every tree it needed.
pub proof fn lemma_stage_update_extends(
    a: Store,
    b: Store,
    path: Seq<Seq<u8>>,
    i: int,
    obj: Option<Seq<u8>>,
    tree: Option<Seq<u8>>,
)
    requires
        extends(b, a),
        !(stage_update(a, path, i, obj, tree) is Unresolvable),
    ensures
        stage_update(b, path, i, obj, tree) == stage_update(a, path, i, obj, tree),
        produced(b, path, i, obj, tree) == produced(a, path, i, obj, tree),
    decreases path.len() - i,
{
    if 0 <= i < path.len() {
        lemma_tree_at_extends(a, b, tree);
        let es = tree_at(a, tree).unwrap();
        let name = path[i];
        if i + 1 != path.len() {
            if has_entry(es, name) {
                let next = Some(es[entry_index(es, name)].content);
                if !(stage_update(a, path, i + 1, obj, next) is Unresolvable) {
                    lemma_stage_update_extends(a, b, path, i + 1, obj, next);
                }
            } else if obj is Some {
                if !(stage_update(a, path, i + 1, obj, None::<Seq<u8>>) is Unresolvable) {
                    lemma_stage_update_extends(a, b, path, i + 1, obj, None::<Seq<u8>>);
                }
            }
        }
    }
}

/// The stage after a rewrite: the new root, or the empty tree where the
/// root was pruned; unchanged where the rewrite fails.
pub open spec fn stage_outcome(
    step: StageStep,
    before: Seq<u8>,
    after: Seq<u8>,
    r: Result<(), EvsError>,
) -> bool {
    match step {
        StageStep::Done(d) => r is Ok && after == match d {
            Some(x) => x,
            None => empty_tree_hash(),
        },
        StageStep::NotInStage => r matches Err(EvsError::PathNotInStage) && after == before,
        StageStep::TooLarge => r matches Err(EvsError::ObjectTooLarge) && after == before,
        StageStep::Unresolvable => r is Err ==> after == before,
    }
}

/// A closed store that keeps every object of a checked one, and has
/// the new stage, passes the check too.
proof fn lemma_seeds_ok(after: Repository, before: Repository)
    requires
        before.store.check_ok(before.seeds()) ==> (after.store.closed() && after.store.present(
            after.info.stage_spec()@,
        ) && forall|x: Seq<u8>| #[trigger] before.store.present(x) ==> after.store.present(x)),
        after.info.head_spec() == before.info.head_spec(),
    ensures
        before.store.check_ok(before.seeds()) ==> after.store.check_ok(after.seeds()),
{
    crate::closure::lemma_check_ok_closed(before.store, before.seeds());
    crate::closure::lemma_check_ok_closed(after.store, after.seeds());
    if before.store.check_ok(before.seeds()) {
        assert(before.store.present(before.seeds()[0]));
        assert forall|k: int| 0 <= k < after.seeds().len() implies after.store.present(
            #[trigger] after.seeds()[k],
        ) by {
            if k == 0 {
                assert(after.seeds()[0] == before.seeds()[0]);
            }
        }
    }
}

impl Repository {
    /// Points the stage at a new root; the pointers count as modified only
    /// where it differs from the old one.
    fn move_stage(&mut self, new_stage: crate::hash::Hash)
        ensures
            final(self).info.stage_spec() == new_stage,
            final(self).info.head_spec() == old(self).info.head_spec(),
            final(self).info.modified_spec() == (old(self).info.modified_spec()
                || new_stage@ != old(self).info.stage_spec()@),
            final(self).store == old(self).store,
    {
        let cur = self.info.stage();
        if !hash_eq(&cur, &new_stage) {
            self.info.set_stage(new_stage);
        } else {
            assert(cur == new_stage) by {
                assert(cur@ =~= new_stage@);
                assert forall|k: int| 0 <= k < 32 implies cur[k] == new_stage[k] by {
                    assert(cur@[k] == new_stage@[k]);
                }
            }
        }
    }

    /// Stores the empty tree and returns its digest.
    fn empty_tree(&mut self) -> (r: crate::hash::Hash)
        ensures
            r@ == empty_tree_hash(),
            final(self).store.has_name(hex_of(r@)),
            old(self).store.names_distinct() ==> final(self).store.names_distinct(),
            extends(final(self).store, old(self).store),
            old(self).store.sound() ==> final(self).store.sound(),
            old(self).store.closed() ==> final(self).store.closed() && final(self).store.present(r@)
                && forall|x: Seq<u8>| #[trigger] old(self).store.present(x) ==> final(self).store.present(x),
            final(self).info == old(self).info,
    {
        let e = Object::Tree(Vec::new());
        let ghost ev = e@;
        assert(ev == ObjectView::Tree(seq![])) by {
            assert(ev matches ObjectView::Tree(es) && es =~= seq![]);
        }
        proof {
            crate::repo::lemma_empty_tree_canonical();
        }
        let ghost s0 = self.store;
        let h = self.store.insert(e);
        proof {
            lemma_insert_extends(s0, self.store, ev, h);
            if s0.sound() {
                crate::store::lemma_insert_keeps_sound(s0, self.store, ev, h);
            }
            if s0.closed() {
                crate::closure::lemma_insert_closed(s0, self.store, ev, h);
            }
            crate::store::lemma_insert_named(s0, self.store, ev, h);
            if s0.names_distinct() {
                crate::closure::lemma_insert_distinct(s0, self.store, ev, h);
            }
        }
        h
    }

    /// Moves the stage to the root that a rewrite gave: the empty tree where
    /// the root was pruned; nowhere where the rewrite failed.
    fn adopt(&mut self, res: Result<Option<crate::hash::Hash>, EvsError>) -> (r: Result<(), EvsError>)
        ensures
            final(self).info.head_spec() == old(self).info.head_spec(),
            old(self).store.sound() ==> final(self).store.sound(),
            (old(self).store.closed() && (res matches Ok(Some(h)) ==> old(self).store.present(h@))
                && old(self).store.present(old(self).info.stage_spec()@)) ==> (final(self).store.closed()
                && final(self).store.present(final(self).info.stage_spec()@) && forall|x: Seq<u8>|
                #[trigger] old(self).store.present(x) ==> final(self).store.present(x)),
            extends(final(self).store, old(self).store),
            old(self).store.names_distinct() ==> final(self).store.names_distinct(),
            final(self).info.modified_spec() == (old(self).info.modified_spec()
                || final(self).info.stage_spec()@ != old(self).info.stage_spec()@),
            res matches Ok(Some(h)) ==> r is Ok && final(self).info.stage_spec()@ == h@,
            res matches Ok(None) ==> r is Ok && final(self).info.stage_spec()@ == empty_tree_hash(),
            res matches Err(e) ==> r == Err::<(), EvsError>(e) && final(self).info.stage_spec()
                == old(self).info.stage_spec() && final(self).store == old(self).store,
    {
        proof {
            lemma_extends_refl(self.store);
        }
        match res {
            Ok(Some(new_stage)) => {
                self.move_stage(new_stage);
                Ok(())
            },
            Ok(None) => {
                let e = self.empty_tree();
                self.move_stage(e);
                Ok(())
            },
            Err(e) => Err(e),
        }
    }

    /// Rewrites the stage at path `rel` to hold `obj`, or to lose it where
    /// `obj` is `None`, and moves the stage to the new root.
    fn restage(&mut self, rel: &Vec<Vec<u8>>, obj: Option<crate::hash::Hash>) -> (r: Result<(), EvsError>)
        requires
            rel@.len() > 0,
            forall|k: int| 0 <= k < rel@.len() ==> (#[trigger] rel@[k])@.len() < len_limit(),
        ensures
            final(self).info.head_spec() == old(self).info.head_spec(),
            old(self).store.sound() ==> final(self).store.sound(),
            (old(self).store.closed() && (obj matches Some(h) ==> old(self).store.present(h@))
                && old(self).store.present(old(self).info.stage_spec()@)) ==> (final(self).store.closed()
                && final(self).store.present(final(self).info.stage_spec()@) && forall|x: Seq<u8>|
                #[trigger] old(self).store.present(x) ==> final(self).store.present(x)),
            extends(final(self).store, old(self).store),
            final(self).info.modified_spec() == (old(self).info.modified_spec()
                || final(self).info.stage_spec()@ != old(self).info.stage_spec()@),
            stage_outcome(
                stage_update(old(self).store, path_view(rel@), 0, opt_view(obj), Some(old(self).info.stage_spec()@)),
                old(self).info.stage_spec()@,
                final(self).info.stage_spec()@,
                r,
            ),
            stage_update(old(self).store, path_view(rel@), 0, opt_view(obj), Some(old(self).info.stage_spec()@))
                is Unresolvable ==> r is Err,
            forall|t: ObjectView| #[trigger]
                produced(old(self).store, path_view(rel@), 0, opt_view(obj), Some(old(self).info.stage_spec()@)).contains(t)
                    ==> final(self).store.has_name(hex_of(object_hash(t))),
            r matches Err(EvsError::PathNotInStage) ==> final(self).store == old(self).store,
            old(self).store.names_distinct() ==> final(self).store.names_distinct(),
    {
        let stage = self.info.stage();
        let res = self.update_stage(rel, 0, obj, Some(stage));
        let ghost after_update = self.store;
        let r = self.adopt(res);
        proof {
            lemma_extends_trans(old(self).store, after_update, self.store);
            assert forall|t: ObjectView| #[trigger]
                produced(old(self).store, path_view(rel@), 0, opt_view(obj), Some(old(self).info.stage_spec()@)).contains(t)
                implies self.store.has_name(hex_of(object_hash(t))) by {
                lemma_extends_has_name(after_update, self.store, hex_of(object_hash(t)));
            }
        }
        r
    }

    /// What `add` does: the new stage, the objects it keeps, and the trees
    /// it names.
    pub open spec fn add_outcome(
        before: Repository,
        after: Repository,
        rel: Seq<Vec<u8>>,
        work: WorkTree,
        r: Result<(), EvsError>,
    ) -> bool {
        let step = stage_update(
            before.store,
            path_view(rel),
            0,
            Some(work.root_hash()),
            Some(before.info.stage_spec()@),
        );
        &&& after.info.head_spec() == before.info.head_spec()
        &&& before.store.sound() ==> after.store.sound()
        &&& before.store.check_ok(before.seeds()) ==> after.store.check_ok(after.seeds())
        &&& before.store.names_distinct() ==> after.store.names_distinct()
        &&& extends(after.store, before.store)
        &&& after.info.modified_spec() == (before.info.modified_spec() || after.info.stage_spec()@
            != before.info.stage_spec()@)
        &&& after.store.has_name(hex_of(work.root_hash()))
        &&& rel.len() == 0 ==> r is Ok && after.info.stage_spec()@ == work.root_hash()
        &&& rel.len() > 0 ==> stage_outcome(
            step,
            before.info.stage_spec()@,
            after.info.stage_spec()@,
            r,
        )
        &&& rel.len() > 0 && !(step is Unresolvable) ==> forall|t: ObjectView| #[trigger]
            produced(before.store, path_view(rel), 0, Some(work.root_hash()), Some(before.info.stage_spec()@)).contains(t)
                ==> after.store.has_name(hex_of(object_hash(t)))
    }

    /// Stages a snapshot of the workspace path `rel` (given by its
    /// components): the whole workspace where `rel` is empty.
    #[verifier::rlimit(100)]
    pub fn add(&mut self, rel: &Vec<Vec<u8>>, work: &WorkTree) -> (r: Result<(), EvsError>)
        requires
            work.wf(),
            work.nodes@.len() > 0,
            forall|k: int| 0 <= k < rel@.len() ==> (#[trigger] rel@[k])@.len() < len_limit(),
        ensures
            Repository::add_outcome(*old(self), *final(self), rel@, *work, r),
    {
        proof {
            crate::closure::lemma_check_ok_closed(old(self).store, old(self).seeds());
        }
        let h = self.hash_dir(work);
        let ghost mid = self.store;
        if rel.len() == 0 {
            self.move_stage(h);
            proof {
                lemma_seeds_ok(*self, *old(self));
                lemma_extends_refl(mid);
                lemma_root_named(mid, self.store, *work);
            }
            return Ok(());
        }
        let r = self.restage(rel, Some(h));
        proof {
            lemma_root_named(mid, self.store, *work);
            lemma_seeds_ok(*self, *old(self));
            lemma_extends_trans(old(self).store, mid, self.store);
            let step = stage_update(
                old(self).store,
                path_view(rel@),
                0,
                Some(work.root_hash()),
                Some(old(self).info.stage_spec()@),
            );
            assert(path_view(rel@).len() == rel@.len());
            if !(step is Unresolvable) {
                lemma_stage_update_extends(
                    old(self).store,
                    mid,
                    path_view(rel@),
                    0,
                    Some(work.root_hash()),
                    Some(old(self).info.stage_spec()@),
                );
            }
        }
        r
    }

    /// What `sub` does: the new stage, the objects it keeps, and the trees
    /// it names.
    pub open spec fn sub_outcome(before: Repository, after: Repository, rel: Seq<Vec<u8>>, r: Result<(), EvsError>) -> bool {
        let step = stage_update(before.store, path_view(rel), 0, None, Some(before.info.stage_spec()@));
        &&& after.info.head_spec() == before.info.head_spec()
        &&& before.store.sound() ==> after.store.sound()
        &&& before.store.check_ok(before.seeds()) ==> after.store.check_ok(after.seeds())
        &&& before.store.names_distinct() ==> after.store.names_distinct()
        &&& extends(after.store, before.store)
        &&& after.info.modified_spec() == (before.info.modified_spec() || after.info.stage_spec()@
            != before.info.stage_spec()@)
        &&& rel.len() == 0 ==> r is Ok && after.info.stage_spec()@ == empty_tree_hash()
            && after.store.has_name(hex_of(empty_tree_hash()))
        &&& r matches Err(EvsError::PathNotInStage) ==> after.store == before.store
        &&& rel.len() > 0 ==> stage_outcome(step, before.info.stage_spec()@, after.info.stage_spec()@, r)
        &&& rel.len() > 0 && step is Unresolvable ==> r is Err
        &&& rel.len() > 0 ==> forall|t: ObjectView| #[trigger]
            produced(before.store, path_view(rel), 0, None, Some(before.info.stage_spec()@)).contains(t)
                ==> after.store.has_name(hex_of(object_hash(t)))
    }

    /// Unstages the workspace path `rel` (given by its components): resets
    /// the stage to the empty tree where `rel` is empty.
    #[verifier::rlimit(40)]
    pub fn sub(&mut self, rel: &Vec<Vec<u8>>) -> (r: Result<(), EvsError>)
        requires
            forall|k: int| 0 <= k < rel@.len() ==> (#[trigger] rel@[k])@.len() < len_limit(),
        ensures
            Repository::sub_outcome(*old(self), *final(self), rel@, r),
    {
        proof {
            crate::closure::lemma_check_ok_closed(old(self).store, old(self).seeds());
        }
        if rel.len() == 0 {
            let e = self.empty_tree();
            self.move_stage(e);
            proof {
                lemma_seeds_ok(*self, *old(self));
            }
            return Ok(());
        }
        let r = self.restage(rel, None);
        proof {
            lemma_seeds_ok(*self, *old(self));
        }
        r
    }

}

// ---------------------------------------------------------------------------
// Doing the same rewrite twice.
// ---------------------------------------------------------------------------
/// The entries that a readable tree has never share a name.
proof fn lemma_tree_at_unique(s: Store, t: Option<Seq<u8>>)
    requires
        tree_at(s, t) is Some,
    ensures
        crate::order::names_unique(tree_at(s, t).unwrap()),
{
    if let Some(h) = t {
        let n = hex_of(h);
        let i = choose|i: int| s.first_match(n, i);
        if let ObjectView::Tree(es) = s.object_at(i) {
            crate::codec::lemma_decoded_tree_sorted(s.contents_at(i));
            crate::order::lemma_strictly_sorted_unique(es);
        }
    }
}

/// In the stored form of entries with unique names, the entry of a name
/// is the one it had.
proof fn lemma_entry_in_canonical(es: Seq<EntryView>, e: EntryView)
    requires
        crate::order::names_unique(es),
        es.contains(e),
    ensures
        has_entry(crate::order::canonical_entries(es), e.name),
        crate::order::canonical_entries(es)[entry_index(crate::order::canonical_entries(es), e.name)]
            == e,
{
    let s = crate::order::canonical_entries(es);
    crate::order::lemma_entry_order_total();
    es.lemma_sort_by_ensures(crate::order::entry_order());
    crate::order::lemma_canonical_strictly_sorted(es);
    vstd::seq_lib::to_multiset_contains(es, e);
    vstd::seq_lib::to_multiset_contains(s, e);
    let j = choose|j: int| 0 <= j < s.len() && s[j] == e;
    assert(s[j].name == e.name);
    lemma_entry_index(s, e.name);
    let k = entry_index(s, e.name);
    if k != j {
        if k < j {
            assert(s[k].name != s[j].name);
        } else {
            assert(s[j].name != s[k].name);
        }
    }
}

/// A name of a sound store is the name of a 32-byte digest.
proof fn lemma_named_len(s: Store, x: Seq<u8>)
    requires
        s.sound(),
        s.has_name(hex_of(x)),
    ensures
        x.len() == 32,
{
    let i = choose|i: int| 0 <= i < s.files@.len() && #[trigger] s.name_at(i) == hex_of(x);
    assert(s.readable_at(i));
    assert(hex_of(x).len() == 2 * x.len());
}

/// A stored tree of a name that collides with nothing reads back as itself.
proof fn lemma_tree_at_stored(s: Store, t: ObjectView)
    requires
        s.sound(),
        s.has_name(hex_of(object_hash(t))),
        s.no_collision_with(t),
    ensures
        tree_at(s, Some(object_hash(t))) == Some(
            match t {
                ObjectView::Tree(es) => es,
                _ => seq![],
            },
        ),
{
    let x = object_hash(t);
    lemma_named_len(s, x);
    crate::hash::lemma_hex_of_hash_is_name(x);
    crate::store::lemma_named(s, hex_of(x));
    let i = s.index_named(hex_of(x));
    assert(s.readable_at(i));
    crate::closure::lemma_hash_at_named(s, i, x);
}

/// The entries below `tree` at level `i`, and the entry to follow.
pub open spec fn next_tree(s: Store, path: Seq<Seq<u8>>, i: int, tree: Option<Seq<u8>>) -> Option<Seq<u8>> {
    let es = tree_at(s, tree).unwrap();
    if has_entry(es, path[i]) {
        Some(es[entry_index(es, path[i])].content)
    } else {
        None
    }
}

/// The new child that a rewrite storing `obj` puts at level `i`.
pub open spec fn first_child(s: Store, path: Seq<Seq<u8>>, i: int, obj: Seq<u8>, tree: Option<Seq<u8>>) -> Seq<u8> {
    if i + 1 == path.len() {
        obj
    } else {
        match stage_update(s, path, i + 1, Some(obj), next_tree(s, path, i, tree)) {
            StageStep::Done(Some(x)) => x,
            _ => obj,
        }
    }
}

/// A rewrite that stores an object never prunes.
proof fn lemma_store_keeps_root(s: Store, path: Seq<Seq<u8>>, i: int, obj: Seq<u8>, tree: Option<Seq<u8>>)
    ensures
        stage_update(s, path, i, Some(obj), tree) matches StageStep::Done(d) ==> d is Some,
    decreases path.len() - i,
{
    if 0 <= i < path.len() && tree_at(s, tree) is Some && i + 1 < path.len() {
        lemma_store_keeps_root(s, path, i + 1, obj, next_tree(s, path, i, tree));
    }
}

proof fn lemma_first_run_child(s0: Store, path: Seq<Seq<u8>>, i: int, obj: Seq<u8>, tree: Option<Seq<u8>>, r: Seq<u8>)
    requires
        stage_update(s0, path, i, Some(obj), tree) == StageStep::Done(Some(r)),
    ensures
        0 <= i < path.len(),
        tree_at(s0, tree) is Some,
        i + 1 < path.len() ==> stage_update(s0, path, i + 1, Some(obj), next_tree(s0, path, i, tree))
            == StageStep::Done(Some(first_child(s0, path, i, obj, tree))),
        apply_child(
            tree_at(s0, tree).unwrap(),
            path[i],
            Some(first_child(s0, path, i, obj, tree)),
            tree,
        ) == StageStep::Done(Some(r)),
{
    if i + 1 < path.len() {
        lemma_store_keeps_root(s0, path, i + 1, obj, next_tree(s0, path, i, tree));
    }
}

proof fn lemma_first_run_result(es: Seq<EntryView>, name: Seq<u8>, c: Seq<u8>, tree: Option<Seq<u8>>, r: Seq<u8>)
    requires
        apply_child(es, name, Some(c), tree) == StageStep::Done(Some(r)),
    ensures
        match level_tree(es, name, Some(c), tree) {
            None => tree == Some(r) && has_entry(es, name) && es[entry_index(es, name)].content == c,
            Some(t) => r == object_hash(t),
        },
{
}

proof fn lemma_first_run_produced(s0: Store, path: Seq<Seq<u8>>, i: int, obj: Seq<u8>, tree: Option<Seq<u8>>)
    requires
        0 <= i < path.len(),
        tree_at(s0, tree) is Some,
        i + 1 < path.len() ==> stage_update(s0, path, i + 1, Some(obj), next_tree(s0, path, i, tree))
            == StageStep::Done(Some(first_child(s0, path, i, obj, tree))),
    ensures
        ({
            let sub = if i + 1 < path.len() {
                produced(s0, path, i + 1, Some(obj), next_tree(s0, path, i, tree))
            } else {
                seq![]
            };
            &&& level_tree(
                tree_at(s0, tree).unwrap(),
                path[i],
                Some(first_child(s0, path, i, obj, tree)),
                tree,
            ) matches Some(t) ==> produced(s0, path, i, Some(obj), tree) == sub.push(t)
            &&& forall|t: ObjectView| #[trigger] sub.contains(t) ==> produced(s0, path, i, Some(obj), tree).contains(t)
        }),
        i + 1 < path.len() ==> forall|t: ObjectView| #[trigger]
            produced(s0, path, i + 1, Some(obj), next_tree(s0, path, i, tree)).contains(t)
                ==> produced(s0, path, i, Some(obj), tree).contains(t),
{
    let sub = if i + 1 < path.len() {
        produced(s0, path, i + 1, Some(obj), next_tree(s0, path, i, tree))
    } else {
        seq![]
    };
    let lt = level_tree(
        tree_at(s0, tree).unwrap(),
        path[i],
        Some(first_child(s0, path, i, obj, tree)),
        tree,
    );
    if let Some(t) = lt {
        assert forall|x: ObjectView| #[trigger] sub.contains(x) implies sub.push(t).contains(x) by {
            let j = choose|j: int| 0 <= j < sub.len() && sub[j] == x;
            assert(sub.push(t)[j] == x);
        }
    }
}

proof fn lemma_second_run_level(s1: Store, path: Seq<Seq<u8>>, i: int, obj: Seq<u8>, r: Seq<u8>, c: Seq<u8>)
    requires
        0 <= i < path.len(),
        tree_at(s1, Some(r)) is Some,
        has_entry(tree_at(s1, Some(r)).unwrap(), path[i]),
        tree_at(s1, Some(r)).unwrap()[entry_index(tree_at(s1, Some(r)).unwrap(), path[i])].content == c,
        i + 1 == path.len() ==> c == obj,
        i + 1 < path.len() ==> stage_update(s1, path, i + 1, Some(obj), Some(c)) == StageStep::Done(Some(c)),
    ensures
        stage_update(s1, path, i, Some(obj), Some(r)) == StageStep::Done(Some(r)),
{
}

proof fn lemma_update_unique(es: Seq<EntryView>, name: Seq<u8>, c: Seq<u8>)
    requires
        crate::order::names_unique(es),
    ensures
        ({
            let e = EntryView { name, content: c };
            let es2 = if has_entry(es, name) {
                es.update(entry_index(es, name), e)
            } else {
                es.push(e)
            };
            crate::order::names_unique(es2) && es2.contains(e)
        }),
{
    let e = EntryView { name, content: c };
    if has_entry(es, name) {
        lemma_entry_index(es, name);
        let k = entry_index(es, name);
        let es2 = es.update(k, e);
        assert(es2[k] == e);
        assert forall|a: int, b: int| 0 <= a < b < es2.len() implies #[trigger] es2[a].name
            != #[trigger] es2[b].name by {
            assert(es[a].name != es[b].name);
        }
    } else {
        let es2 = es.push(e);
        assert(es2[es.len() as int] == e);
        assert forall|a: int, b: int| 0 <= a < b < es2.len() implies #[trigger] es2[a].name
            != #[trigger] es2[b].name by {
            if b == es.len() {
                assert(es2[a] == es[a]);
            } else {
                assert(es[a].name != es[b].name);
            }
        }
    }
}

/// Doing a rewrite that stores `obj` again, on the root that the first one
/// gave and in a store that holds every tree the first one stored, gives
/// that root back.
#[verifier::rlimit(100)]
pub proof fn lemma_rerun(
    s0: Store,
    s1: Store,
    path: Seq<Seq<u8>>,
    i: int,
    obj: Seq<u8>,
    tree: Option<Seq<u8>>,
    r: Seq<u8>,
)
    requires
        stage_update(s0, path, i, Some(obj), tree) == StageStep::Done(Some(r)),
        extends(s1, s0),
        s1.sound(),
        forall|t: ObjectView| #[trigger]
            produced(s0, path, i, Some(obj), tree).contains(t) ==> s1.has_name(
                hex_of(object_hash(t)),
            ) && s1.no_collision_with(t),
    ensures
        stage_update(s1, path, i, Some(obj), Some(r)) == StageStep::Done(Some(r)),
    decreases path.len() - i,
{
    lemma_first_run_child(s0, path, i, obj, tree, r);
    let es = tree_at(s0, tree).unwrap();
    let name = path[i];
    let c = first_child(s0, path, i, obj, tree);
    lemma_first_run_result(es, name, c, tree, r);
    lemma_first_run_produced(s0, path, i, obj, tree);
    let next = next_tree(s0, path, i, tree);
    lemma_tree_at_unique(s0, tree);
    if i + 1 < path.len() {
        lemma_rerun(s0, s1, path, i + 1, obj, next, c);
    }
    match level_tree(es, name, Some(c), tree) {
        None => {
            lemma_tree_at_extends(s0, s1, tree);
        },
        Some(t) => {
            let prod = produced(s0, path, i, Some(obj), tree);
            assert(prod.contains(t)) by {
                let sub = if i + 1 < path.len() {
                    produced(s0, path, i + 1, Some(obj), next)
                } else {
                    seq![]
                };
                assert(prod == sub.push(t));
                assert(prod[sub.len() as int] == t);
            }
            lemma_tree_at_stored(s1, t);
            lemma_update_unique(es, name, c);
            let e = EntryView { name, content: c };
            let es2 = if has_entry(es, name) {
                es.update(entry_index(es, name), e)
            } else {
                es.push(e)
            };
            assert(t == canonical(ObjectView::Tree(es2)));
            lemma_entry_in_canonical(es2, e);
        },
    }
    lemma_second_run_level(s1, path, i, obj, r, c);
}

/// The root of a stored snapshot keeps its name in every later store.
proof fn lemma_root_named(mid: Store, after: Store, work: WorkTree)
    requires
        work.nodes@.len() > 0,
        forall|j: int| 0 <= j < work.nodes@.len() ==> mid.has_name(
            hex_of(#[trigger] node_hashes(work.nodes@, work.nodes@.len())[j]),
        ),
        extends(after, mid),
    ensures
        after.has_name(hex_of(work.root_hash())),
{
    lemma_node_hashes_len(work.nodes@, work.nodes@.len());
    let j = work.nodes@.len() - 1;
    assert(mid.has_name(hex_of(node_hashes(work.nodes@, work.nodes@.len())[j])));
    lemma_extends_has_name(mid, after, hex_of(work.root_hash()));
}

/// In a closed store a rewrite from a present root can read every tree it
/// needs.
proof fn lemma_closed_resolvable(
    s: Store,
    path: Seq<Seq<u8>>,
    i: int,
    obj: Option<Seq<u8>>,
    tree: Option<Seq<u8>>,
)
    requires
        s.closed(),
        0 <= i < path.len(),
        tree matches Some(t) ==> s.present(t),
    ensures
        !(stage_update(s, path, i, obj, tree) is Unresolvable),
    decreases path.len() - i,
{
    if let Some(t) = tree {
        let j = choose|j: int| 0 <= j < s.hashes().len() && s.hashes()[j] == t;
        assert(s.readable_at(j));
        assert(s.name_at(j) == hex_of(t));
        lemma_named_len(s, t);
        crate::hash::lemma_hex_of_hash_is_name(t);
        crate::store::lemma_named(s, hex_of(t));
        let f = choose|f: int| s.first_match(hex_of(t), f);
        assert(s.readable_at(f));
    }
    let es = tree_at(s, tree).unwrap();
    let name = path[i];
    if i + 1 < path.len() && has_entry(es, name) {
        lemma_entry_index(es, name);
        let k = entry_index(es, name);
        if let Some(t) = tree {
            let f = choose|f: int| s.first_match(hex_of(t), f);
            if let ObjectView::Tree(xs) = s.object_at(f) {
                assert(s.object_at(f).refs()[k] == es[k].content);
                crate::closure::lemma_stored_refs_present(s, f, es[k].content);
            }
        }
        lemma_closed_resolvable(s, path, i + 1, obj, Some(es[k].content));
    } else if i + 1 < path.len() && obj is Some {
        lemma_closed_resolvable(s, path, i + 1, obj, None);
    }
}

/// Staging the same snapshot at the same path a second time leaves the
/// stage as the first time left it. This holds for a repository that passed
/// its check, unless a tree that the first time stored has the SHA-256
/// digest of a different object already in the store.
pub proof fn lemma_add_twice(
    r0: Repository,
    r1: Repository,
    r2: Repository,
    rel: Seq<Vec<u8>>,
    work: WorkTree,
    res1: Result<(), EvsError>,
    res2: Result<(), EvsError>,
)
    requires
        r0.store.check_ok(r0.seeds()),
        rel.len() > 0,
        Repository::add_outcome(r0, r1, rel, work, res1),
        res1 is Ok,
        Repository::add_outcome(r1, r2, rel, work, res2),
        forall|t: ObjectView| #[trigger]
            produced(r0.store, path_view(rel), 0, Some(work.root_hash()), Some(r0.info.stage_spec()@)).contains(t)
                ==> r1.store.no_collision_with(t),
    ensures
        res2 is Ok,
        r2.info.stage_spec()@ == r1.info.stage_spec()@,
{
    let p = path_view(rel);
    assert(p.len() == rel.len());
    let c = work.root_hash();
    let s0 = r0.store;
    let s1 = r1.store;
    crate::closure::lemma_check_ok_closed(s0, r0.seeds());
    assert(s0.present(r0.seeds()[1]));
    lemma_closed_resolvable(s0, p, 0, Some(c), Some(r0.info.stage_spec()@));
    lemma_store_keeps_root(s0, p, 0, c, Some(r0.info.stage_spec()@));
    let first = r1.info.stage_spec()@;
    assert(stage_update(s0, p, 0, Some(c), Some(r0.info.stage_spec()@)) == StageStep::Done(Some(first)));
    lemma_rerun(s0, s1, p, 0, c, Some(r0.info.stage_spec()@), first);
}

/// Removing a name's only entry leaves a stored form without that name.
proof fn lemma_removed_absent(es: Seq<EntryView>, name: Seq<u8>)
    requires
        crate::order::names_unique(es),
        has_entry(es, name),
    ensures
        !has_entry(crate::order::canonical_entries(es.remove(entry_index(es, name))), name),
{
    lemma_entry_index(es, name);
    let k = entry_index(es, name);
    let rest = es.remove(k);
    let c = crate::order::canonical_entries(rest);
    crate::order::lemma_entry_order_total();
    rest.lemma_sort_by_ensures(crate::order::entry_order());
    if has_entry(c, name) {
        let j = choose|j: int| 0 <= j < c.len() && #[trigger] c[j].name == name;
        assert(c.contains(c[j]));
        vstd::seq_lib::to_multiset_contains(c, c[j]);
        vstd::seq_lib::to_multiset_contains(rest, c[j]);
        let m = choose|m: int| 0 <= m < rest.len() && rest[m] == c[j];
        if m < k {
            assert(rest[m] == es[m]);
            assert(es[m].name != es[k].name);
        } else {
            assert(rest[m] == es[m + 1]);
            assert(es[k].name != es[m + 1].name);
        }
    }
}

/// Doing a removal again, on the root that the first one gave and in a
/// store that holds every tree the first one stored, finds nothing to
/// remove.
#[verifier::rlimit(100)]
pub proof fn lemma_reremove(
    s0: Store,
    s1: Store,
    path: Seq<Seq<u8>>,
    i: int,
    tree: Option<Seq<u8>>,
    r: Seq<u8>,
)
    requires
        stage_update(s0, path, i, None, tree) == StageStep::Done(Some(r)),
        extends(s1, s0),
        s1.sound(),
        forall|t: ObjectView| #[trigger]
            produced(s0, path, i, None, tree).contains(t) ==> s1.has_name(hex_of(object_hash(t)))
                && s1.no_collision_with(t),
    ensures
        stage_update(s1, path, i, None, Some(r)) == StageStep::NotInStage,
    decreases path.len() - i,
{
    assert(0 <= i < path.len());
    let es = tree_at(s0, tree).unwrap();
    let name = path[i];
    lemma_tree_at_unique(s0, tree);
    let next = next_tree(s0, path, i, tree);
    let cs = child_step(s0, path, i, None, tree);
    assert(has_entry(es, name));
    lemma_entry_index(es, name);
    let k = entry_index(es, name);
    let c = cs->Done_0;
    let sub = if goes_deeper(s0, path, i, None, tree) {
        produced(s0, path, i + 1, None, next)
    } else {
        seq![]
    };
    let prod = produced(s0, path, i, None, tree);
    assert forall|t: ObjectView| #[trigger] sub.contains(t) implies prod.contains(t) by {
        if let Some(lt) = level_tree(es, name, c, tree) {
            let j = choose|j: int| 0 <= j < sub.len() && sub[j] == t;
            assert(sub.push(lt)[j] == t);
        }
    }
    match level_tree(es, name, c, tree) {
        None => {
            // The tree was left as it was.
            lemma_tree_at_extends(s0, s1, tree);
            if i + 1 < path.len() {
                lemma_reremove(s0, s1, path, i + 1, next, c->Some_0);
            }
        },
        Some(t) => {
            assert(prod == sub.push(t));
            assert(prod[sub.len() as int] == t);
            assert(prod.contains(t));
            lemma_tree_at_stored(s1, t);
            match c {
                Some(ch) => {
                    let e = EntryView { name, content: ch };
                    lemma_update_unique(es, name, ch);
                    lemma_entry_in_canonical(es.update(k, e), e);
                    if i + 1 < path.len() {
                        lemma_reremove(s0, s1, path, i + 1, next, ch);
                    }
                },
                None => {
                    lemma_removed_absent(es, name);
                },
            }
        },
    }
}

/// Nothing can be removed below a stored empty tree.
proof fn lemma_empty_root_absent(s1: Store, path: Seq<Seq<u8>>)
    requires
        s1.sound(),
        s1.present(empty_tree_hash()),
        s1.no_collision_with(ObjectView::Tree(seq![])),
        path.len() > 0,
    ensures
        stage_update(s1, path, 0, None, Some(empty_tree_hash())) == StageStep::NotInStage,
{
    let e = empty_tree_hash();
    let j = choose|j: int| 0 <= j < s1.hashes().len() && s1.hashes()[j] == e;
    assert(s1.readable_at(j));
    assert(s1.name_at(j) == hex_of(e));
    lemma_tree_at_stored(s1, ObjectView::Tree(seq![]));
    assert(!has_entry(Seq::<EntryView>::empty(), path[0]));
}

/// A removal done again on the stage that the first one left finds nothing
/// to remove.
proof fn lemma_reremove_root(
    s0: Store,
    s1: Store,
    p: Seq<Seq<u8>>,
    stage0: Seq<u8>,
    stage1: Seq<u8>,
    d: Option<Seq<u8>>,
)
    requires
        p.len() > 0,
        stage_update(s0, p, 0, None, Some(stage0)) == StageStep::Done(d),
        stage1 == match d {
            Some(x) => x,
            None => empty_tree_hash(),
        },
        extends(s1, s0),
        s1.sound(),
        s1.present(stage1),
        forall|t: ObjectView| #[trigger]
            produced(s0, p, 0, None, Some(stage0)).contains(t) ==> s1.has_name(hex_of(object_hash(t)))
                && s1.no_collision_with(t),
        s1.no_collision_with(ObjectView::Tree(seq![])),
    ensures
        stage_update(s1, p, 0, None, Some(stage1)) == StageStep::NotInStage,
{
    match d {
        Some(x) => {
            lemma_reremove(s0, s1, p, 0, Some(stage0), x);
        },
        None => {
            lemma_empty_root_absent(s1, p);
        },
    }
}

/// A repository that passes its check has a closed store holding its stage.
proof fn lemma_checked_stage(r: Repository)
    requires
        r.store.check_ok(r.seeds()),
    ensures
        r.store.closed(),
        r.store.present(r.info.stage_spec()@),
{
    crate::closure::lemma_check_ok_closed(r.store, r.seeds());
    assert(r.store.present(r.seeds()[1]));
}

#[verifier::rlimit(100)]
proof fn lemma_sub_first(r0: Repository, r1: Repository, rel: Seq<Vec<u8>>, res1: Result<(), EvsError>)
    requires
        r0.store.check_ok(r0.seeds()),
        rel.len() > 0,
        Repository::sub_outcome(r0, r1, rel, res1),
        res1 is Ok,
    ensures
        stage_update(r0.store, path_view(rel), 0, None, Some(r0.info.stage_spec()@)) is Done,
        r1.info.stage_spec()@ == match stage_update(
            r0.store,
            path_view(rel),
            0,
            None,
            Some(r0.info.stage_spec()@),
        )->Done_0 {
            Some(x) => x,
            None => empty_tree_hash(),
        },
        extends(r1.store, r0.store),
        r1.store.sound(),
        r1.store.present(r1.info.stage_spec()@),
        forall|t: ObjectView| #[trigger]
            produced(r0.store, path_view(rel), 0, None, Some(r0.info.stage_spec()@)).contains(t)
                ==> r1.store.has_name(hex_of(object_hash(t))),
{
    assert(path_view(rel).len() == rel.len());
    lemma_checked_stage(r0);
    lemma_closed_resolvable(r0.store, path_view(rel), 0, None, Some(r0.info.stage_spec()@));
    lemma_checked_stage(r1);
}

proof fn lemma_sub_second(r1: Repository, r2: Repository, rel: Seq<Vec<u8>>, res2: Result<(), EvsError>)
    requires
        rel.len() > 0,
        Repository::sub_outcome(r1, r2, rel, res2),
        stage_update(r1.store, path_view(rel), 0, None, Some(r1.info.stage_spec()@)) == StageStep::NotInStage,
    ensures
        res2 matches Err(EvsError::PathNotInStage),
{
}

/// Unstaging the same path a second time fails: the first time removed
/// it. This holds for a repository that passed its check, unless a tree that
/// the first time stored, or the empty tree, has the SHA-256 digest of a
/// different object in the store.
pub proof fn lemma_sub_twice(
    r0: Repository,
    r1: Repository,
    r2: Repository,
    rel: Seq<Vec<u8>>,
    res1: Result<(), EvsError>,
    res2: Result<(), EvsError>,
)
    requires
        r0.store.check_ok(r0.seeds()),
        rel.len() > 0,
        Repository::sub_outcome(r0, r1, rel, res1),
        res1 is Ok,
        Repository::sub_outcome(r1, r2, rel, res2),
        forall|t: ObjectView| #[trigger]
            produced(r0.store, path_view(rel), 0, None, Some(r0.info.stage_spec()@)).contains(t)
                ==> r1.store.no_collision_with(t),
        r1.store.no_collision_with(ObjectView::Tree(seq![])),
    ensures
        res2 matches Err(EvsError::PathNotInStage),
{
    lemma_sub_first(r0, r1, rel, res1);
    let step = stage_update(r0.store, path_view(rel), 0, None, Some(r0.info.stage_spec()@));
    lemma_reremove_root(
        r0.store,
        r1.store,
        path_view(rel),
        r0.info.stage_spec()@,
        r1.info.stage_spec()@,
        step->Done_0,
    );
    lemma_sub_second(r1, r2, rel, res2);
}

} // verus!
