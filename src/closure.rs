//! Referential closure of the store: every object that a stored object
//! refers to is stored too.
use vstd::prelude::*;
use crate::codec::encodable;
use crate::hash::hex_of;
use crate::objects::{EntryView, ObjectView};
use crate::store::{canonical, Store};

verus! {

impl Store {
    /// Some stored object has this digest.
    pub open spec fn present(self, h: Seq<u8>) -> bool {
        self.hashes().contains(h)
    }

    /// Every file reads back, and every reference of a stored object is
    /// present.
    pub open spec fn closed(self) -> bool {
        &&& self.sound()
        &&& forall|x: Seq<u8>| #[trigger] self.references().contains(x) ==> self.present(x)
    }
}

pub proof fn lemma_refs_upto_contains(s: Store, k: nat, x: Seq<u8>)
    requires
        k <= s.files@.len(),
    ensures
        s.refs_upto(k).contains(x) <==> exists|i: int|
            0 <= i < k && #[trigger] s.object_at(i).refs().contains(x),
    decreases k,
{
    if k > 0 {
        lemma_refs_upto_contains(s, (k - 1) as nat, x);
        let a = s.refs_upto((k - 1) as nat);
        let b = s.object_at(k - 1).refs();
        if (a + b).contains(x) {
            let j = choose|j: int| 0 <= j < (a + b).len() && (a + b)[j] == x;
            if j < a.len() {
                assert(a[j] == x);
            } else {
                assert(b[j - a.len()] == x);
            }
        }
        if a.contains(x) {
            let j = choose|j: int| 0 <= j < a.len() && a[j] == x;
            assert((a + b)[j] == x);
        }
        if b.contains(x) {
            let j = choose|j: int| 0 <= j < b.len() && b[j] == x;
            assert((a + b)[a.len() + j] == x);
        }
    }
}

/// The references of the stored form are references of the object.
pub proof fn lemma_canonical_refs(o: ObjectView, x: Seq<u8>)
    requires
        canonical(o).refs().contains(x),
    ensures
        o.refs().contains(x),
{
    if let ObjectView::Tree(es) = o {
        let s = crate::order::canonical_entries(es);
        crate::order::lemma_entry_order_total();
        es.lemma_sort_by_ensures(crate::order::entry_order());
        let rs = s.map_values(|e: EntryView| e.content);
        let j = choose|j: int| 0 <= j < rs.len() && rs[j] == x;
        assert(s.contains(s[j]));
        let i = choose|i: int| 0 <= i < es.len() && es[i] == s[j];
        assert(o.refs()[i] == x);
    }
}

/// A file of a readable name holds the object of that digest.
pub proof fn lemma_named_present(s: Store, h: Seq<u8>)
    requires
        s.sound(),
        h.len() == 32,
        s.has_name(hex_of(h)),
    ensures
        s.present(h),
        s.hash_at(s.index_named(hex_of(h))) == h,
{
    crate::hash::lemma_hex_of_hash_is_name(h);
    crate::store::lemma_named(s, hex_of(h));
    let i = s.index_named(hex_of(h));
    assert(s.readable_at(i));
    crate::hash::lemma_hex_of_injective(s.hash_at(i), h);
    assert(s.hashes()[i] == h);
}

proof fn lemma_prefix_same(before: Store, after: Store, i: int)
    requires
        after.files@.len() >= before.files@.len(),
        after.files@.subrange(0, before.files@.len() as int) == before.files@,
        0 <= i < before.files@.len(),
    ensures
        after.files@[i] == before.files@[i],
        after.hash_at(i) == before.hash_at(i),
        after.object_at(i) == before.object_at(i),
        after.readable_at(i) == before.readable_at(i),
{
    assert(after.files@[i] == after.files@.subrange(0, before.files@.len() as int)[i]);
}

proof fn lemma_refs_upto_prefix(before: Store, after: Store, k: nat)
    requires
        after.files@.len() >= before.files@.len(),
        after.files@.subrange(0, before.files@.len() as int) == before.files@,
        k <= before.files@.len(),
    ensures
        after.refs_upto(k) == before.refs_upto(k),
    decreases k,
{
    if k > 0 {
        lemma_refs_upto_prefix(before, after, (k - 1) as nat);
        lemma_prefix_same(before, after, k - 1);
    }
}

/// Storing an object whose references are present keeps the store closed,
/// makes the object present, and keeps every present object.
pub proof fn lemma_insert_closed(before: Store, after: Store, o: ObjectView, h: crate::hash::Hash)
    requires
        before.closed(),
        crate::store::storable(o),
        Store::insert_outcome(before, after, o, h),
        forall|x: Seq<u8>| #[trigger] o.refs().contains(x) ==> before.present(x),
    ensures
        after.closed(),
        after.present(h@),
        forall|x: Seq<u8>| #[trigger] before.present(x) ==> after.present(x),
{
    crate::store::lemma_insert_keeps_sound(before, after, o, h);
    let n = before.files@.len();
    if before.has_name(hex_of(h@)) {
        assert(after.files@ == before.files@);
        assert(after.hashes() =~= before.hashes());
        assert(after.references() == before.references()) by {
            assert(after.files@.subrange(0, n as int) =~= before.files@);
            lemma_refs_upto_prefix(before, after, n);
        }
        lemma_named_present(before, h@);
    } else {
        crate::store::lemma_insert_new_file(before, after, o, h);
        assert forall|i: int| 0 <= i < n implies after.hashes()[i] == before.hashes()[i] by {
            lemma_prefix_same(before, after, i);
        }
        assert(after.hashes() =~= before.hashes().push(h@));
        lemma_refs_upto_prefix(before, after, n);
        assert(after.references() == before.references() + canonical(o).refs());
        assert(after.hashes()[n as int] == h@);
        assert forall|x: Seq<u8>| #[trigger] before.present(x) implies after.present(x) by {
            let j = choose|j: int| 0 <= j < before.hashes().len() && before.hashes()[j] == x;
            assert(after.hashes()[j] == x);
        }
        assert forall|x: Seq<u8>| #[trigger] after.references().contains(x) implies after.present(x) by {
            let a = before.references();
            let b = canonical(o).refs();
            let j = choose|j: int| 0 <= j < (a + b).len() && (a + b)[j] == x;
            if j < a.len() {
                assert(a[j] == x);
                assert(a.contains(x));
            } else {
                assert(b[j - a.len()] == x);
                assert(b.contains(x));
                lemma_canonical_refs(o, x);
            }
        }
    }
}

/// A check of the given seeds succeeds exactly on a closed store in which
/// every seed is present.
pub proof fn lemma_check_ok_closed(s: Store, seeds: Seq<Seq<u8>>)
    ensures
        s.check_ok(seeds) <==> (s.closed() && forall|k: int|
            0 <= k < seeds.len() ==> s.present(#[trigger] seeds[k])),
{
    let req = s.required(seeds);
    if s.check_ok(seeds) {
        assert forall|x: Seq<u8>| #[trigger] s.references().contains(x) implies s.present(x) by {
            let j = choose|j: int| 0 <= j < s.references().len() && s.references()[j] == x;
            assert(req[seeds.len() + j] == x);
        }
        assert forall|k: int| 0 <= k < seeds.len() implies s.present(#[trigger] seeds[k]) by {
            assert(req[k] == seeds[k]);
        }
    }
    if s.closed() && forall|k: int| 0 <= k < seeds.len() ==> s.present(#[trigger] seeds[k]) {
        assert forall|k: int| 0 <= k < req.len() implies s.hashes().contains(#[trigger] req[k]) by {
            if k < seeds.len() {
                assert(req[k] == seeds[k]);
            } else {
                assert(req[k] == s.references()[k - seeds.len()]);
                assert(s.references().contains(req[k]));
            }
        }
    }
}

/// The contents of a stored tree's entries are present in a closed store.
pub proof fn lemma_stored_refs_present(s: Store, i: int, x: Seq<u8>)
    requires
        s.closed(),
        0 <= i < s.files@.len(),
        s.object_at(i).refs().contains(x),
    ensures
        s.present(x),
{
    lemma_refs_upto_contains(s, s.files@.len(), x);
    assert(s.references() == s.refs_upto(s.files@.len()));
    assert(s.references().contains(x));
}

impl Store {
    /// No two files share a name, as in a directory.
    pub open spec fn names_distinct(self) -> bool {
        forall|i: int, j: int|
            0 <= i < j < self.files@.len() ==> #[trigger] self.name_at(i) != #[trigger] self.name_at(j)
    }
}

/// In a sound store the file of a digest's name holds that digest.
pub proof fn lemma_hash_at_named(s: Store, i: int, h: Seq<u8>)
    requires
        s.sound(),
        0 <= i < s.files@.len(),
        h.len() == 32,
        s.name_at(i) == hex_of(h),
    ensures
        s.hash_at(i) == h,
{
    assert(s.readable_at(i));
    crate::hash::lemma_hex_of_injective(s.hash_at(i), h);
}

/// Removing the file of digest `h` from a sound store with distinct names
/// removes exactly `h` from the present digests.
pub proof fn lemma_remove_step(a: Store, b: Store, h: Seq<u8>, i: int)
    requires
        a.sound(),
        a.names_distinct(),
        h.len() == 32,
        a.first_match(hex_of(h), i),
        b.files@ == a.files@.remove(i),
    ensures
        b.sound(),
        b.names_distinct(),
        forall|x: Seq<u8>| #[trigger] b.present(x) <==> (a.present(x) && x != h),
        forall|j: int| 0 <= j < b.files@.len() ==> a.files@.contains(#[trigger] b.files@[j]),
{
    crate::hash::lemma_hex_of_hash_is_name(h);
    assert(a.name_at(i) == hex_of(h));
    lemma_hash_at_named(a, i, h);
    let n = a.files@.len();
    assert forall|j: int| 0 <= j < b.files@.len() implies #[trigger] b.files@[j] == (if j < i {
        a.files@[j]
    } else {
        a.files@[j + 1]
    }) by {}
    assert forall|j: int| 0 <= j < b.files@.len() implies #[trigger] b.readable_at(j) by {
        if j < i {
            assert(a.readable_at(j));
        } else {
            assert(a.readable_at(j + 1));
        }
    }
    assert forall|j: int, k: int| 0 <= j < k < b.files@.len() implies #[trigger] b.name_at(j)
        != #[trigger] b.name_at(k) by {
        let jj = if j < i { j } else { j + 1 };
        let kk = if k < i { k } else { k + 1 };
        assert(b.name_at(j) == a.name_at(jj));
        assert(b.name_at(k) == a.name_at(kk));
    }
    assert forall|j: int| 0 <= j < b.files@.len() implies a.files@.contains(#[trigger] b.files@[j]) by {
        if j < i {
            assert(a.files@[j] == b.files@[j]);
        } else {
            assert(a.files@[j + 1] == b.files@[j]);
        }
    }
    assert forall|x: Seq<u8>| #[trigger] b.present(x) <==> (a.present(x) && x != h) by {
        if b.present(x) {
            let j = choose|j: int| 0 <= j < b.hashes().len() && b.hashes()[j] == x;
            let jj = if j < i { j } else { j + 1 };
            assert(b.hash_at(j) == a.hash_at(jj));
            assert(a.hashes()[jj] == x);
            if x == h {
                assert(a.readable_at(jj));
                assert(a.name_at(jj) == hex_of(h));
                if jj < i {
                    assert(a.name_at(jj) != a.name_at(i));
                } else {
                    assert(a.name_at(i) != a.name_at(jj));
                }
            }
        }
        if a.present(x) && x != h {
            let jj = choose|jj: int| 0 <= jj < a.hashes().len() && a.hashes()[jj] == x;
            assert(jj != i);
            let j = if jj < i { jj } else { jj - 1 };
            assert(b.hash_at(j) == a.hash_at(jj));
            assert(b.hashes()[j] == x);
        }
    }
}

/// A store whose files all come from a checked store, and which keeps
/// every required object, passes the same check.
pub proof fn lemma_subset_check_ok(a: Store, b: Store, seeds: Seq<Seq<u8>>)
    requires
        a.check_ok(seeds),
        b.sound(),
        forall|j: int| 0 <= j < b.files@.len() ==> a.files@.contains(#[trigger] b.files@[j]),
        forall|x: Seq<u8>| #[trigger] a.required(seeds).contains(x) && a.present(x) ==> b.present(x),
    ensures
        b.check_ok(seeds),
{
    lemma_check_ok_closed(a, seeds);
    lemma_check_ok_closed(b, seeds);
    assert forall|x: Seq<u8>| #[trigger] b.references().contains(x) implies b.present(x) by {
        lemma_refs_upto_contains(b, b.files@.len(), x);
        let i = choose|i: int| 0 <= i < b.files@.len() && #[trigger] b.object_at(i).refs().contains(x);
        let j = choose|j: int| 0 <= j < a.files@.len() && a.files@[j] == b.files@[i];
        assert(a.object_at(j) == b.object_at(i));
        lemma_refs_upto_contains(a, a.files@.len(), x);
        assert(a.references().contains(x));
        let k = choose|k: int| 0 <= k < a.references().len() && a.references()[k] == x;
        assert(a.required(seeds)[seeds.len() + k] == x);
        assert(a.required(seeds).contains(x));
    }
    assert forall|k: int| 0 <= k < seeds.len() implies b.present(#[trigger] seeds[k]) by {
        assert(a.required(seeds)[k] == seeds[k]);
        assert(a.required(seeds).contains(seeds[k]));
    }
}

impl Store {
    /// Some stored object of digest `a` refers to `b`.
    pub open spec fn refers(self, a: Seq<u8>, b: Seq<u8>) -> bool {
        exists|i: int|
            #![trigger self.object_at(i).refs().contains(b), self.hash_at(i)]
            0 <= i < self.files@.len() && self.hash_at(i) == a && self.object_at(i).refs().contains(b)
    }

    /// A chain of references that starts at a seed.
    pub open spec fn ref_chain(self, seeds: Seq<Seq<u8>>, p: Seq<Seq<u8>>) -> bool {
        &&& p.len() > 0
        &&& seeds.contains(p[0])
        &&& forall|j: int| 0 <= j < p.len() - 1 ==> self.refers(#[trigger] p[j], p[j + 1])
    }

    /// `h` can be reached from a seed by following references.
    pub open spec fn reachable(self, seeds: Seq<Seq<u8>>, h: Seq<u8>) -> bool {
        exists|p: Seq<Seq<u8>>| #[trigger] self.ref_chain(seeds, p) && p.last() == h
    }
}

/// A seed is reachable.
pub proof fn lemma_seed_reachable(s: Store, seeds: Seq<Seq<u8>>, h: Seq<u8>)
    requires
        seeds.contains(h),
    ensures
        s.reachable(seeds, h),
{
    let p = seq![h];
    assert(s.ref_chain(seeds, p));
}

/// What a reachable object refers to is reachable.
pub proof fn lemma_step_reachable(s: Store, seeds: Seq<Seq<u8>>, a: Seq<u8>, b: Seq<u8>)
    requires
        s.reachable(seeds, a),
        s.refers(a, b),
    ensures
        s.reachable(seeds, b),
{
    let p = choose|p: Seq<Seq<u8>>| #[trigger] s.ref_chain(seeds, p) && p.last() == a;
    let q = p.push(b);
    assert forall|j: int| 0 <= j < q.len() - 1 implies s.refers(#[trigger] q[j], q[j + 1]) by {
        if j < p.len() - 1 {
            assert(q[j] == p[j] && q[j + 1] == p[j + 1]);
        } else {
            assert(q[j] == a && q[j + 1] == b);
        }
    }
    assert(s.ref_chain(seeds, q));
    assert(q.last() == b);
}

/// Every reachable digest lies in a set that holds the seeds and is closed
/// under references.
pub proof fn lemma_reachable_in_closed_set(s: Store, seeds: Seq<Seq<u8>>, w: Seq<Seq<u8>>, h: Seq<u8>)
    requires
        forall|x: Seq<u8>| #[trigger] seeds.contains(x) ==> w.contains(x),
        forall|a: Seq<u8>, b: Seq<u8>| #[trigger] w.contains(a) && #[trigger] s.refers(a, b) ==> w.contains(b),
        s.reachable(seeds, h),
    ensures
        w.contains(h),
{
    let p = choose|p: Seq<Seq<u8>>| #[trigger] s.ref_chain(seeds, p) && p.last() == h;
    assert forall|j: int| 0 <= j < p.len() implies w.contains(#[trigger] p[j]) by {
        lemma_chain_prefix_in(s, seeds, w, p, j);
    }
    assert(w.contains(p[p.len() - 1]));
}

proof fn lemma_chain_prefix_in(s: Store, seeds: Seq<Seq<u8>>, w: Seq<Seq<u8>>, p: Seq<Seq<u8>>, j: int)
    requires
        forall|x: Seq<u8>| #[trigger] seeds.contains(x) ==> w.contains(x),
        forall|a: Seq<u8>, b: Seq<u8>| #[trigger] w.contains(a) && #[trigger] s.refers(a, b) ==> w.contains(b),
        s.ref_chain(seeds, p),
        0 <= j < p.len(),
    ensures
        w.contains(p[j]),
    decreases j,
{
    if j > 0 {
        lemma_chain_prefix_in(s, seeds, w, p, j - 1);
        assert(s.refers(p[j - 1], p[j]));
    }
}

/// A store that keeps exactly the reachable objects of a checked store
/// passes the same check.
pub proof fn lemma_reachable_part_check_ok(a: Store, b: Store, seeds: Seq<Seq<u8>>)
    requires
        a.check_ok(seeds),
        b.sound(),
        forall|j: int| 0 <= j < b.files@.len() ==> a.files@.contains(#[trigger] b.files@[j]),
        forall|x: Seq<u8>| #[trigger] b.present(x) <==> (a.present(x) && a.reachable(seeds, x)),
    ensures
        b.check_ok(seeds),
{
    lemma_check_ok_closed(a, seeds);
    lemma_check_ok_closed(b, seeds);
    assert forall|x: Seq<u8>| #[trigger] b.references().contains(x) implies b.present(x) by {
        lemma_refs_upto_contains(b, b.files@.len(), x);
        let i = choose|i: int| 0 <= i < b.files@.len() && #[trigger] b.object_at(i).refs().contains(x);
        let j = choose|j: int| 0 <= j < a.files@.len() && a.files@[j] == b.files@[i];
        assert(a.object_at(j) == b.object_at(i));
        assert(a.hash_at(j) == b.hash_at(i));
        assert(b.readable_at(i));
        assert(b.hashes()[i] == b.hash_at(i));
        assert(b.present(b.hash_at(i)));
        assert(a.refers(a.hash_at(j), x));
        lemma_step_reachable(a, seeds, a.hash_at(j), x);
        lemma_stored_refs_present(a, j, x);
    }
    assert forall|k: int| 0 <= k < seeds.len() implies b.present(#[trigger] seeds[k]) by {
        assert(seeds.contains(seeds[k]));
        lemma_seed_reachable(a, seeds, seeds[k]);
    }
}

/// Storing an object keeps the names of the store distinct.
pub proof fn lemma_insert_distinct(before: Store, after: Store, o: ObjectView, h: crate::hash::Hash)
    requires
        Store::insert_outcome(before, after, o, h),
        before.names_distinct(),
    ensures
        after.names_distinct(),
{
    let n = before.files@.len();
    if before.has_name(hex_of(h@)) {
        assert forall|i: int, j: int| 0 <= i < j < after.files@.len() implies #[trigger] after.name_at(i)
            != #[trigger] after.name_at(j) by {
            assert(after.name_at(i) == before.name_at(i) && after.name_at(j) == before.name_at(j));
        }
    } else {
        assert forall|i: int, j: int| 0 <= i < j < after.files@.len() implies #[trigger] after.name_at(i)
            != #[trigger] after.name_at(j) by {
            lemma_prefix_same(before, after, i);
            if j < n {
                lemma_prefix_same(before, after, j);
            } else {
                assert(after.name_at(j) == hex_of(h@));
                assert(before.name_at(i) != hex_of(h@));
            }
        }
    }
}

} // verus!
