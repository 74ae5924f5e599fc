//! Garbage collection: removing every object that head and stage cannot
//! reach.
use vstd::prelude::*;
use crate::error::EvsError;
use crate::hash::{hash_eq, hex_of};
use crate::objects::Object;
use crate::repo::Repository;
use crate::store::{contains_hash, hash_views, push_refs, Store};

verus! {

/// A duplicate-free sequence drawn from `bound` is no longer than it.
proof fn lemma_len_bound(w: Seq<Seq<u8>>, bound: Seq<Seq<u8>>)
    requires
        w.no_duplicates(),
        forall|x: Seq<u8>| #[trigger] w.contains(x) ==> bound.contains(x),
    ensures
        w.len() <= bound.len(),
{
    w.unique_seq_to_set();
    bound.lemma_cardinality_of_set();
    assert(w.to_set().subset_of(bound.to_set()));
    vstd::set_lib::lemma_len_subset(w.to_set(), bound.to_set());
}

/// Appends the digests of `refs` that `w` lacks.
fn push_new(w: &mut Vec<crate::hash::Hash>, refs: &Vec<crate::hash::Hash>)
    requires
        hash_views(old(w)@).no_duplicates(),
    ensures
        hash_views(final(w)@).no_duplicates(),
        final(w)@.len() >= old(w)@.len(),
        final(w)@.subrange(0, old(w)@.len() as int) == old(w)@,
        forall|x: Seq<u8>| #[trigger] hash_views(refs@).contains(x) ==> hash_views(final(w)@).contains(x),
        forall|x: Seq<u8>| #[trigger]
            hash_views(final(w)@).contains(x) ==> hash_views(old(w)@).contains(x) || hash_views(
                refs@,
            ).contains(x),
{
    let mut i: usize = 0;
    while i < refs.len()
        invariant
            i <= refs@.len(),
            hash_views(w@).no_duplicates(),
            w@.len() >= old(w)@.len(),
            w@.subrange(0, old(w)@.len() as int) == old(w)@,
            forall|x: Seq<u8>| #[trigger]
                hash_views(refs@).subrange(0, i as int).contains(x) ==> hash_views(w@).contains(x),
            forall|x: Seq<u8>| #[trigger]
                hash_views(w@).contains(x) ==> hash_views(old(w)@).contains(x) || hash_views(
                    refs@,
                ).contains(x),
        decreases refs@.len() - i,
    {
        let h = refs[i];
        let ghost before = hash_views(w@);
        assert(hash_views(refs@)[i as int] == h@);
        proof {
            crate::store::lemma_push_contains(before, h@);
            crate::store::lemma_push_contains(hash_views(refs@).subrange(0, i as int), h@);
            assert(hash_views(refs@).subrange(0, i + 1) =~= hash_views(refs@).subrange(0, i as int).push(h@));
            assert(hash_views(refs@).contains(h@));
        }
        if !contains_hash(w, &h) {
            proof {
                crate::store::lemma_hash_views_push(w@, h);
                crate::store::lemma_push_no_duplicates(before, h@);
            }
            w.push(h);
            assert(w@.subrange(0, old(w)@.len() as int) =~= old(w)@);
        }
        i += 1;
    }
    assert(hash_views(refs@).subrange(0, i as int) =~= hash_views(refs@));
}

impl Store {
    /// Reads back the object of every file of a sound store.
    fn read_objects(&self) -> (r: Vec<Object>)
        requires
            self.sound(),
        ensures
            r@.len() == self.files@.len(),
            forall|i: int| 0 <= i < r@.len() ==> (#[trigger] r@[i])@ == self.object_at(i),
    {
        let mut objs: Vec<Object> = Vec::new();
        let mut i: usize = 0;
        while i < self.files.len()
            invariant
                i <= self.files@.len(),
                self.sound(),
                objs@.len() == i,
                forall|j: int| 0 <= j < i ==> (#[trigger] objs@[j])@ == self.object_at(j),
            decreases self.files@.len() - i,
        {
            assert(self.readable_at(i as int));
            match self.read_file(i) {
                Ok((_, o)) => {
                    objs.push(o);
                },
                Err(_) => {
                    proof {
                        assert(false);
                    }
                },
            }
            i += 1;
        }
        objs
    }
}

/// One step of the worklist keeps its invariant.
proof fn lemma_grow(
    s: Store,
    sv: Seq<Seq<u8>>,
    bound: Seq<Seq<u8>>,
    w0: Seq<crate::hash::Hash>,
    w1: Seq<crate::hash::Hash>,
    av: Seq<u8>,
    k: int,
)
    requires
        bound == sv + s.references(),
        0 <= k < w0.len(),
        hash_views(w0)[k] == av,
        w1.len() >= w0.len(),
        w1.subrange(0, w0.len() as int) == w0,
        hash_views(w1).no_duplicates(),
        forall|b: Seq<u8>| #[trigger] s.refers(av, b) ==> hash_views(w1).contains(b),
        forall|x: Seq<u8>| #[trigger] hash_views(w1).contains(x) ==> hash_views(w0).contains(x) || s.refers(av, x),
        forall|x: Seq<u8>| #[trigger] sv.contains(x) ==> hash_views(w0).contains(x),
        forall|x: Seq<u8>| #[trigger] hash_views(w0).contains(x) ==> s.reachable(sv, x) && bound.contains(x),
        forall|a: Seq<u8>, b: Seq<u8>| #[trigger]
            hash_views(w0).subrange(0, k).contains(a) && #[trigger] s.refers(a, b) ==> hash_views(w0).contains(b),
    ensures
        w1.len() <= bound.len(),
        forall|x: Seq<u8>| #[trigger] sv.contains(x) ==> hash_views(w1).contains(x),
        forall|x: Seq<u8>| #[trigger] hash_views(w1).contains(x) ==> s.reachable(sv, x) && bound.contains(x),
        forall|a: Seq<u8>, b: Seq<u8>| #[trigger]
            hash_views(w1).subrange(0, k + 1).contains(a) && #[trigger] s.refers(a, b) ==> hash_views(w1).contains(b),
{
    let v0 = hash_views(w0);
    let v1 = hash_views(w1);
    assert forall|j: int| 0 <= j < w0.len() implies v1[j] == v0[j] by {
        assert(w1[j] == w1.subrange(0, w0.len() as int)[j]);
    }
    assert forall|x: Seq<u8>| #[trigger] v0.contains(x) implies v1.contains(x) by {
        let j = choose|j: int| 0 <= j < v0.len() && v0[j] == x;
        assert(v1[j] == x);
    }
    assert forall|x: Seq<u8>| #[trigger] v1.contains(x) implies s.reachable(sv, x) && bound.contains(x) by {
        if !v0.contains(x) {
            assert(v0.contains(av)) by {
                assert(v0[k] == av);
            }
            crate::closure::lemma_step_reachable(s, sv, av, x);
            let jj = choose|jj: int|
                #![trigger s.object_at(jj).refs().contains(x), s.hash_at(jj)]
                0 <= jj < s.files@.len() && s.hash_at(jj) == av && s.object_at(jj).refs().contains(x);
            crate::closure::lemma_refs_upto_contains(s, s.files@.len(), x);
            assert(s.references().contains(x));
            let m = choose|m: int| 0 <= m < s.references().len() && s.references()[m] == x;
            assert(bound[sv.len() + m] == x);
        }
    }
    lemma_len_bound(v1, bound);
    assert(v1.subrange(0, k + 1) =~= v0.subrange(0, k).push(av));
    crate::store::lemma_push_contains(v0.subrange(0, k), av);
    assert forall|a: Seq<u8>, b: Seq<u8>| #[trigger] v1.subrange(0, k + 1).contains(a) && #[trigger] s.refers(a, b)
        implies v1.contains(b) by {
        if a != av {
            assert(v0.subrange(0, k).contains(a));
            assert(v0.contains(b));
        }
    }
}

impl Repository {
    /// Appends to `w` what the objects of digest `a` refer to.
    fn expand(
        &self,
        found: &Vec<crate::hash::Hash>,
        objs: &Vec<Object>,
        w: &mut Vec<crate::hash::Hash>,
        a: crate::hash::Hash,
    )
        requires
            hash_views(found@) == self.store.hashes(),
            objs@.len() == self.store.files@.len(),
            forall|i: int| 0 <= i < objs@.len() ==> (#[trigger] objs@[i])@ == self.store.object_at(i),
            hash_views(old(w)@).no_duplicates(),
        ensures
            hash_views(final(w)@).no_duplicates(),
            final(w)@.len() >= old(w)@.len(),
            final(w)@.subrange(0, old(w)@.len() as int) == old(w)@,
            forall|b: Seq<u8>| #[trigger] self.store.refers(a@, b) ==> hash_views(final(w)@).contains(b),
            forall|x: Seq<u8>| #[trigger]
                hash_views(final(w)@).contains(x) ==> hash_views(old(w)@).contains(x) || self.store.refers(a@, x),
    {
        let ghost s = self.store;
        let mut i: usize = 0;
        assert(found@.len() == objs@.len()) by {
            assert(hash_views(found@).len() == found@.len());
        }
        while i < objs.len()
            invariant
                i <= objs@.len(),
                found@.len() == objs@.len(),
                hash_views(found@) == s.hashes(),
                objs@.len() == s.files@.len(),
                forall|j: int| 0 <= j < objs@.len() ==> (#[trigger] objs@[j])@ == s.object_at(j),
                hash_views(w@).no_duplicates(),
                w@.len() >= old(w)@.len(),
                w@.subrange(0, old(w)@.len() as int) == old(w)@,
                forall|j: int, b: Seq<u8>|
                    0 <= j < i && s.hash_at(j) == a@ && #[trigger] s.object_at(j).refs().contains(b)
                        ==> hash_views(w@).contains(b),
                forall|x: Seq<u8>| #[trigger]
                    hash_views(w@).contains(x) ==> hash_views(old(w)@).contains(x) || s.refers(a@, x),
            decreases objs@.len() - i,
        {
            assert(hash_views(found@)[i as int] == s.hash_at(i as int));
            if hash_eq(&found[i], &a) {
                let mut refs: Vec<crate::hash::Hash> = Vec::new();
                push_refs(&mut refs, &objs[i]);
                assert(hash_views(refs@) =~= s.object_at(i as int).refs());
                let ghost wbefore = w@;
                push_new(w, &refs);
                proof {
                    assert(w@.subrange(0, old(w)@.len() as int) =~= old(w)@) by {
                        assert forall|j: int| 0 <= j < old(w)@.len() implies w@[j] == old(w)@[j] by {
                            assert(w@[j] == w@.subrange(0, wbefore.len() as int)[j]);
                            assert(wbefore[j] == wbefore.subrange(0, old(w)@.len() as int)[j]);
                        }
                    }
                    assert forall|x: Seq<u8>| #[trigger] hash_views(wbefore).contains(x) implies hash_views(w@).contains(x) by {
                        let j = choose|j: int| 0 <= j < wbefore.len() && hash_views(wbefore)[j] == x;
                        assert(w@[j] == w@.subrange(0, wbefore.len() as int)[j]);
                        assert(hash_views(w@)[j] == x);
                    }
                    assert forall|x: Seq<u8>| #[trigger] hash_views(w@).contains(x) implies hash_views(old(w)@).contains(x) || s.refers(a@, x) by {
                        if !hash_views(wbefore).contains(x) {
                            assert(s.object_at(i as int).refs().contains(x));
                        }
                    }
                }
            }
            i += 1;
        }
        proof {
            assert forall|b: Seq<u8>| #[trigger] s.refers(a@, b) implies hash_views(w@).contains(b) by {
                let j = choose|j: int|
                    #![trigger s.object_at(j).refs().contains(b), s.hash_at(j)]
                    0 <= j < s.files@.len() && s.hash_at(j) == a@ && s.object_at(j).refs().contains(b);
            }
        }
    }

    /// The digests that head and stage reach through references, given
    /// the digest and the object of every file.
    fn reach(&self, found: &Vec<crate::hash::Hash>, objs: &Vec<Object>) -> (w: Vec<crate::hash::Hash>)
        requires
            self.store.sound(),
            hash_views(found@) == self.store.hashes(),
            objs@.len() == self.store.files@.len(),
            forall|i: int| 0 <= i < objs@.len() ==> (#[trigger] objs@[i])@ == self.store.object_at(i),
        ensures
            forall|x: Seq<u8>| #[trigger]
                hash_views(w@).contains(x) <==> self.store.reachable(self.seeds(), x),
    {
        let ghost s = self.store;
        let ghost sv = self.seeds();
        let ghost bound = sv + s.references();
        let head = self.info.head();
        let stage = self.info.stage();
        let mut w: Vec<crate::hash::Hash> = Vec::new();
        w.push(head);
        if !hash_eq(&head, &stage) {
            w.push(stage);
        }
        proof {
            let wv = hash_views(w@);
            assert(sv[0] == head@ && sv[1] == stage@);
            assert(wv[0] == head@);
            if wv.len() == 2 {
                assert(wv[1] == stage@);
            }
            assert forall|x: Seq<u8>| #[trigger] sv.contains(x) implies wv.contains(x) by {
                let j = choose|j: int| 0 <= j < sv.len() && sv[j] == x;
                if j == 1 && wv.len() == 2 {
                    assert(wv[1] == x);
                } else {
                    assert(wv[0] == x);
                }
            }
            assert forall|x: Seq<u8>| #[trigger] wv.contains(x) implies s.reachable(sv, x) && bound.contains(x) by {
                let j = choose|j: int| 0 <= j < wv.len() && wv[j] == x;
                assert(sv.contains(x)) by {
                    if j == 0 {
                        assert(sv[0] == x);
                    } else {
                        assert(sv[1] == x);
                    }
                }
                crate::closure::lemma_seed_reachable(s, sv, x);
                let m = choose|m: int| 0 <= m < sv.len() && sv[m] == x;
                assert(bound[m] == x);
            }
            assert(wv.no_duplicates());
            lemma_len_bound(wv, bound);
        }
        let mut k: usize = 0;
        while k < w.len()
            invariant
                s == self.store,
                sv == self.seeds(),
                bound == sv + s.references(),
                s.sound(),
                hash_views(found@) == s.hashes(),
                objs@.len() == s.files@.len(),
                forall|i: int| 0 <= i < objs@.len() ==> (#[trigger] objs@[i])@ == s.object_at(i),
                k <= w@.len() <= bound.len(),
                hash_views(w@).no_duplicates(),
                forall|x: Seq<u8>| #[trigger] sv.contains(x) ==> hash_views(w@).contains(x),
                forall|x: Seq<u8>| #[trigger]
                    hash_views(w@).contains(x) ==> s.reachable(sv, x) && bound.contains(x),
                forall|a: Seq<u8>, b: Seq<u8>| #[trigger]
                    hash_views(w@).subrange(0, k as int).contains(a) && #[trigger] s.refers(a, b)
                        ==> hash_views(w@).contains(b),
            decreases bound.len() - k,
        {
            let a = w[k];
            let ghost av = a@;
            let ghost w0 = w@;
            assert(hash_views(w@)[k as int] == av);
            assert(hash_views(w@).contains(av));
            self.expand(found, objs, &mut w, a);
            proof {
                lemma_grow(s, sv, bound, w0, w@, av, k as int);
            }
            k += 1;
        }
        proof {
            let wv = hash_views(w@);
            assert(wv.subrange(0, k as int) =~= wv);
            assert forall|x: Seq<u8>| s.reachable(sv, x) implies #[trigger] wv.contains(x) by {
                crate::closure::lemma_reachable_in_closed_set(s, sv, wv, x);
            }
        }
        w
    }
}

impl Repository {
    /// Removes every object that head and stage cannot reach through
    /// references, and returns their digests.
    pub fn gc(&mut self) -> (r: Result<Vec<crate::hash::Hash>, EvsError>)
        ensures
            r is Ok <==> old(self).store.check_ok(old(self).seeds()),
            final(self).info == old(self).info,
            r matches Ok(v) ==> hash_views(v@).no_duplicates() && forall|h: Seq<u8>| #[trigger]
                hash_views(v@).contains(h) <==> (old(self).store.present(h)
                    && !old(self).store.reachable(old(self).seeds(), h)),
            old(self).store.check_ok(old(self).seeds()) && old(self).store.names_distinct() ==> {
                &&& final(self).store.check_ok(final(self).seeds())
                &&& final(self).store.names_distinct()
                &&& forall|x: Seq<u8>| #[trigger]
                    final(self).store.present(x) <==> (old(self).store.present(x)
                        && old(self).store.reachable(old(self).seeds(), x))
                &&& r matches Ok(v) && forall|h: Seq<u8>| #[trigger]
                    hash_views(v@).contains(h) ==> !final(self).store.has_name(hex_of(h))
            },
    {
        let seeds = vec![self.info.head(), self.info.stage()];
        let res = self.store.check(&seeds);
        proof {
            assert(hash_views(seeds@) =~= self.seeds());
            crate::repo::lemma_check_ok(self.store, self.seeds(), res);
        }
        let report = match res {
            Ok(rep) => rep,
            Err(e) => {
                return Err(e);
            },
        };
        let ghost s0 = self.store;
        let ghost sv = self.seeds();
        let objs = self.store.read_objects();
        let w = self.reach(&report.found, &objs);
        // The digests of the files that nothing reaches, each once.
        let ghost have = s0.hashes();
        let mut unreachable: Vec<crate::hash::Hash> = Vec::new();
        let mut f: usize = 0;
        while f < report.found.len()
            invariant
                f <= report.found@.len(),
                hash_views(report.found@) == have,
                forall|x: Seq<u8>| #[trigger] hash_views(w@).contains(x) <==> s0.reachable(sv, x),
                hash_views(unreachable@).no_duplicates(),
                forall|h: Seq<u8>| #[trigger]
                    hash_views(unreachable@).contains(h) <==> (have.subrange(0, f as int).contains(h)
                        && !hash_views(w@).contains(h)),
            decreases report.found@.len() - f,
        {
            let h = report.found[f];
            assert(h@ == have[f as int]);
            let ghost before = hash_views(unreachable@);
            proof {
                crate::store::lemma_push_contains(before, h@);
                crate::store::lemma_push_contains(have.subrange(0, f as int), h@);
                assert(have.subrange(0, f + 1) =~= have.subrange(0, f as int).push(h@));
            }
            if !contains_hash(&w, &h) && !contains_hash(&unreachable, &h) {
                proof {
                    crate::store::lemma_hash_views_push(unreachable@, h);
                    crate::store::lemma_push_no_duplicates(before, h@);
                }
                unreachable.push(h);
            }
            f += 1;
        }
        assert(have.subrange(0, f as int) =~= have);
        let ghost u = hash_views(unreachable@);
        let ghost cond = s0.check_ok(sv) && s0.names_distinct();
        let mut i: usize = 0;
        while i < unreachable.len()
            invariant
                i <= unreachable@.len(),
                self.info == old(self).info,
                s0 == old(self).store,
                sv == old(self).seeds(),
                u == hash_views(unreachable@),
                u.no_duplicates(),
                forall|h: Seq<u8>| #[trigger] u.contains(h) <==> (s0.present(h) && !s0.reachable(sv, h)),
                cond == (s0.check_ok(sv) && s0.names_distinct()),
                cond ==> {
                    &&& self.store.sound()
                    &&& self.store.names_distinct()
                    &&& forall|x: Seq<u8>| #[trigger]
                        self.store.present(x) <==> (s0.present(x) && !u.subrange(0, i as int).contains(x))
                    &&& forall|j: int|
                        0 <= j < self.store.files@.len() ==> s0.files@.contains(#[trigger] self.store.files@[j])
                },
            decreases unreachable@.len() - i,
        {
            let h = unreachable[i];
            let ghost before = self.store;
            proof {
                assert(u[i as int] == h@);
                crate::store::lemma_push_contains(u.subrange(0, i as int), h@);
                assert(u.subrange(0, i + 1) =~= u.subrange(0, i as int).push(h@));
                if cond {
                    assert(u.contains(h@));
                    assert(!u.subrange(0, i as int).contains(h@)) by {
                        if u.subrange(0, i as int).contains(h@) {
                            let j = choose|j: int| 0 <= j < i && u.subrange(0, i as int)[j] == h@;
                            assert(u[j] == u[i as int]);
                        }
                    }
                    assert(before.present(h@));
                    let j = choose|j: int| 0 <= j < before.hashes().len() && before.hashes()[j] == h@;
                    assert(before.readable_at(j));
                    assert(before.name_at(j) == hex_of(h@));
                    crate::hash::lemma_hex_of_hash_is_name(h@);
                    assert(before.matches_at(hex_of(h@), j));
                    crate::store::lemma_first_match_exists(before, hex_of(h@), j);
                }
            }
            let _ = self.store.remove(h);
            proof {
                if cond {
                    let n = hex_of(h@);
                    let f = choose|f: int| #[trigger] before.first_match(n, f);
                    crate::closure::lemma_remove_step(before, self.store, h@, f);
                    assert forall|j: int| 0 <= j < self.store.files@.len() implies s0.files@.contains(
                        #[trigger] self.store.files@[j],
                    ) by {
                        assert(before.files@.contains(self.store.files@[j]));
                        let k = choose|k: int| 0 <= k < before.files@.len() && before.files@[k] == self.store.files@[j];
                        assert(s0.files@.contains(before.files@[k]));
                    }
                }
            }
            i += 1;
        }
        proof {
            assert(u.subrange(0, i as int) =~= u);
            if cond {
                crate::closure::lemma_reachable_part_check_ok(s0, self.store, sv);
                assert forall|h: Seq<u8>| #[trigger] u.contains(h) implies !self.store.has_name(hex_of(h)) by {
                    let j = choose|j: int| 0 <= j < u.len() && u[j] == h;
                    assert(h.len() == 32);
                    if self.store.has_name(hex_of(h)) {
                        crate::closure::lemma_named_present(self.store, h);
                    }
                }
            }
        }
        Ok(unreachable)
    }
}

} // verus!
