//! The repository: a store together with the head and stage pointers.
use vstd::prelude::*;
use vstd::utf8::encode_utf8;
use crate::codec::{encodable, len_limit};
use crate::error::EvsError;
use crate::hash::hash_eq;
use crate::objects::{Commit, CommitView, Object, ObjectView, Timestamp};
use crate::store::{canonical, hash_views, object_hash, CheckReport, Store};

verus! {

/// The digest of the empty tree.
pub open spec fn empty_tree_hash() -> Seq<u8> {
    object_hash(ObjectView::Tree(seq![]))
}

/// The digest of the root of history.
pub open spec fn null_hash() -> Seq<u8> {
    object_hash(ObjectView::Null)
}

pub proof fn lemma_empty_tree_canonical()
    ensures
        canonical(ObjectView::Tree(seq![])) == ObjectView::Tree(seq![]),
{
    let e = Seq::<crate::objects::EntryView>::empty();
    crate::order::lemma_entry_order_total();
    e.lemma_sort_by_ensures(crate::order::entry_order());
    vstd::seq_lib::to_multiset_len(e);
    vstd::seq_lib::to_multiset_len(crate::order::canonical_entries(e));
    assert(crate::order::canonical_entries(e) =~= e);
}

/// The head and stage pointers, and whether they changed since loading.
#[derive(Debug)]
pub struct RepositoryInfo {
    head: crate::hash::Hash,
    stage: crate::hash::Hash,
    modified: bool,
}

impl RepositoryInfo {
    pub closed spec fn head_spec(&self) -> crate::hash::Hash {
        self.head
    }

    pub closed spec fn stage_spec(&self) -> crate::hash::Hash {
        self.stage
    }

    pub closed spec fn modified_spec(&self) -> bool {
        self.modified
    }

    /// Pointers as loaded, not yet modified.
    pub fn new(head: crate::hash::Hash, stage: crate::hash::Hash) -> (r: RepositoryInfo)
        ensures
            r.head_spec() == head,
            r.stage_spec() == stage,
            !r.modified_spec(),
    {
        RepositoryInfo { head, stage, modified: false }
    }

    pub fn head(&self) -> (r: crate::hash::Hash)
        ensures
            r == self.head_spec(),
    {
        self.head
    }

    pub fn set_head(&mut self, new_head: crate::hash::Hash)
        ensures
            final(self).head_spec() == new_head,
            final(self).stage_spec() == old(self).stage_spec(),
            final(self).modified_spec(),
    {
        self.head = new_head;
        self.modified = true;
    }

    pub fn stage(&self) -> (r: crate::hash::Hash)
        ensures
            r == self.stage_spec(),
    {
        self.stage
    }

    pub fn set_stage(&mut self, new_stage: crate::hash::Hash)
        ensures
            final(self).stage_spec() == new_stage,
            final(self).head_spec() == old(self).head_spec(),
            final(self).modified_spec(),
    {
        self.stage = new_stage;
        self.modified = true;
    }

    /// Whether the pointers must be written back.
    pub fn modified(&self) -> (r: bool)
        ensures
            r == self.modified_spec(),
    {
        self.modified
    }
}

/// A store and the pointers into it.
#[derive(Debug)]
pub struct Repository {
    pub store: Store,
    pub info: RepositoryInfo,
}

impl Store {
    /// Every file reads back, and every required digest is present.
    pub open spec fn check_ok(self, seeds: Seq<Seq<u8>>) -> bool {
        self.sound() && forall|k: int|
            0 <= k < self.required(seeds).len() ==> self.hashes().contains(
                #[trigger] self.required(seeds)[k],
            )
    }
}

proof fn lemma_first_unreadable_exists(s: Store, i: int)
    requires
        0 <= i < s.files@.len(),
        !s.readable_at(i),
    ensures
        exists|k: int| #[trigger] s.first_unreadable(k),
    decreases i,
{
    if exists|j: int| 0 <= j < i && !#[trigger] s.readable_at(j) {
        let j = choose|j: int| 0 <= j < i && !#[trigger] s.readable_at(j);
        lemma_first_unreadable_exists(s, j);
    } else {
        assert(s.first_unreadable(i));
    }
}

proof fn lemma_first_missing_exists(req: Seq<Seq<u8>>, have: Seq<Seq<u8>>, k: int)
    requires
        0 <= k < req.len(),
        !have.contains(req[k]),
    ensures
        exists|m: int| #[trigger] crate::store::first_missing(req, have, m),
    decreases k,
{
    if exists|j: int| 0 <= j < k && !have.contains(#[trigger] req[j]) {
        let j = choose|j: int| 0 <= j < k && !have.contains(#[trigger] req[j]);
        lemma_first_missing_exists(req, have, j);
    } else {
        assert(crate::store::first_missing(req, have, k));
    }
}

/// `check` succeeds exactly when every file reads back and nothing
/// required is missing.
pub proof fn lemma_check_ok(s: Store, seeds: Seq<Seq<u8>>, r: Result<CheckReport, EvsError>)
    requires
        s.check_outcome(seeds, r),
    ensures
        r is Ok <==> s.check_ok(seeds),
{
    if !s.sound() {
        let i = choose|i: int| 0 <= i < s.files@.len() && !#[trigger] s.readable_at(i);
        lemma_first_unreadable_exists(s, i);
    } else if !s.check_ok(seeds) {
        let k = choose|k: int|
            0 <= k < s.required(seeds).len() && !s.hashes().contains(#[trigger] s.required(seeds)[k]);
        lemma_first_missing_exists(s.required(seeds), s.hashes(), k);
    }
}

impl Repository {
    pub open spec fn seeds(self) -> Seq<Seq<u8>> {
        seq![self.info.head_spec()@, self.info.stage_spec()@]
    }

    /// A new repository: a store holding the root of history and the empty
    /// tree, with head at the first and stage at the second.
    pub fn create() -> (r: Repository)
        ensures
            r.info.head_spec()@ == null_hash(),
            r.info.stage_spec()@ == empty_tree_hash(),
            !r.info.modified_spec(),
            r.store.sound(),
            r.store.has_name(crate::hash::hex_of(r.info.head_spec()@)),
            r.store.has_name(crate::hash::hex_of(r.info.stage_spec()@)),
            r.store.files@.len() <= 2,
            forall|i: int|
                0 <= i < r.store.files@.len() ==> #[trigger] r.store.name_at(i) == crate::hash::hex_of(
                    r.info.head_spec()@,
                ) || r.store.name_at(i) == crate::hash::hex_of(r.info.stage_spec()@),
            r.store.names_distinct(),
            r.store.removed@.len() == 0,
            r.store.check_ok(r.seeds()),
    {
        let mut store = Store::new(Vec::new());
        let ghost s0 = store;
        proof {
            assert(s0.references() =~= Seq::<Seq<u8>>::empty());
            assert(s0.closed());
        }
        let root = store.insert(Object::Null);
        let ghost s1 = store;
        proof {
            crate::store::lemma_insert_keeps_sound(s0, s1, ObjectView::Null, root);
            crate::closure::lemma_insert_closed(s0, s1, ObjectView::Null, root);
            crate::closure::lemma_insert_distinct(s0, s1, ObjectView::Null, root);
        }
        let empty_obj = Object::Tree(Vec::new());
        let ghost empty = empty_obj@;
        assert(empty == ObjectView::Tree(seq![])) by {
            assert(empty matches ObjectView::Tree(es) && es =~= seq![]);
        }
        let empty_stage = store.insert(empty_obj);
        proof {
            crate::store::lemma_insert_keeps_sound(s1, store, empty, empty_stage);
            crate::closure::lemma_insert_closed(s1, store, empty, empty_stage);
            crate::closure::lemma_insert_distinct(s1, store, empty, empty_stage);
            assert forall|i: int| 0 <= i < store.files@.len() implies #[trigger] store.name_at(i)
                == crate::hash::hex_of(root@) || store.name_at(i) == crate::hash::hex_of(empty_stage@) by {
                if i == 0 {
                    assert(store.files@[0] == store.files@.subrange(0, 1)[0]);
                }
            }
            lemma_empty_tree_canonical();
            assert(!s0.has_name(crate::hash::hex_of(root@)));
            assert(s1.name_at(0) == crate::hash::hex_of(root@));
            if !s1.has_name(crate::hash::hex_of(empty_stage@)) {
                assert(store.files@[0] == store.files@.subrange(0, 1)[0]);
                assert(store.name_at(0) == s1.name_at(0));
                assert(store.name_at(1) == crate::hash::hex_of(empty_stage@));
            } else {
                let i = choose|i: int|
                    0 <= i < s1.files@.len() && #[trigger] s1.name_at(i) == crate::hash::hex_of(
                        empty_stage@,
                    );
                assert(store.name_at(i) == s1.name_at(i));
                assert(store.name_at(0) == s1.name_at(0));
            }
        }
        let r = Repository { store, info: RepositoryInfo::new(root, empty_stage) };
        proof {
            crate::closure::lemma_check_ok_closed(r.store, r.seeds());
            assert forall|k: int| 0 <= k < r.seeds().len() implies r.store.present(
                #[trigger] r.seeds()[k],
            ) by {}
        }
        r
    }

    /// A repository over a loaded store and pointers.
    pub fn open(store: Store, info: RepositoryInfo) -> (r: Repository)
        ensures
            r.store == store,
            r.info == info,
    {
        Repository { store, info }
    }

    /// Checks the whole store, requiring the head and the stage.
    pub fn check(&self) -> (r: Result<(), EvsError>)
        ensures
            r is Ok <==> self.store.check_ok(self.seeds()),
    {
        let seeds = vec![self.info.head(), self.info.stage()];
        let res = self.store.check(&seeds);
        proof {
            assert(hash_views(seeds@) =~= self.seeds());
            lemma_check_ok(self.store, self.seeds(), res);
        }
        match res {
            Ok(_) => Ok(()),
            Err(e) => Err(e),
        }
    }

    /// Records the stage as a new commit on top of head, and moves head to it.
    pub fn commit(&mut self, message: String, name: String, email: String, time: Timestamp) -> (r:
        crate::hash::Hash)
        requires
            encode_utf8(message@).len() < len_limit(),
            encode_utf8(name@).len() < len_limit(),
            encode_utf8(email@).len() < len_limit(),
        ensures
            r@ == object_hash(
                ObjectView::Commit(
                    CommitView {
                        parent: old(self).info.head_spec()@,
                        name: name@,
                        email: email@,
                        tree: old(self).info.stage_spec()@,
                        msg: message@,
                        secs: time.secs,
                        nanos: time.nanos,
                    },
                ),
            ),
            final(self).info.head_spec() == r,
            final(self).info.stage_spec() == old(self).info.stage_spec(),
            final(self).info.modified_spec(),
            final(self).store.has_name(crate::hash::hex_of(r@)),
            old(self).store.sound() ==> final(self).store.sound(),
            old(self).store.names_distinct() ==> final(self).store.names_distinct(),
            old(self).store.check_ok(old(self).seeds()) ==> final(self).store.check_ok(final(self).seeds()),
    {
        let commit = Object::Commit(
            Commit {
                parent: self.info.head(),
                name,
                email,
                tree: self.info.stage(),
                msg: message,
                date: time,
            },
        );
        let ghost before = self.store;
        let ghost o = commit@;
        let h = self.store.insert(commit);
        proof {
            if before.sound() {
                crate::store::lemma_insert_keeps_sound(before, self.store, o, h);
            }
            crate::store::lemma_insert_named(before, self.store, o, h);
            if before.names_distinct() {
                crate::closure::lemma_insert_distinct(before, self.store, o, h);
            }
            crate::closure::lemma_check_ok_closed(before, old(self).seeds());
            if before.check_ok(old(self).seeds()) {
                assert(before.present(old(self).seeds()[0]));
                assert(before.present(old(self).seeds()[1]));
                assert forall|x: Seq<u8>| #[trigger] o.refs().contains(x) implies before.present(x) by {
                    let j = choose|j: int| 0 <= j < o.refs().len() && o.refs()[j] == x;
                }
                crate::closure::lemma_insert_closed(before, self.store, o, h);
            }
        }
        self.info.set_head(h);
        proof {
            crate::closure::lemma_check_ok_closed(self.store, self.seeds());
            if before.check_ok(old(self).seeds()) {
                assert forall|k: int| 0 <= k < self.seeds().len() implies self.store.present(
                    #[trigger] self.seeds()[k],
                ) by {
                    if k == 1 {
                        assert(self.seeds()[1] == old(self).seeds()[1]);
                    }
                }
            }
        }
        h
    }
}

} // verus!
