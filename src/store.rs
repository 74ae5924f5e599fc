//! The content-addressed object store.
//!
//! The store holds its files as name/content pairs: each name is the hex
//! SHA-256 digest of an object's canonical encoding and each content is that
//! encoding, gzip-compressed. Files created since the store was loaded are
//! marked `fresh`, and the names of removed files are kept in `removed`, so
//! that the directory on disk can be brought up to date.
use vstd::prelude::*;
use vstd::utf8::{encode_utf8, is_ascii_chars};
use crate::codec::{decode, decode_object, encodable, encode, encode_object};
use crate::error::{CorruptState, EvsError};
use crate::external::{gunzip, gunzip_of, gzip, sha256, sha256_of, string_from_utf8};
use crate::hash::{bytes_eq, hex_bytes, hex_of, is_hex_name, lemma_hex_of_hash_is_name};
use crate::objects::{Object, ObjectView, TreeEntry};
use crate::order::{canonical_entries, sort_entries};

verus! {

/// One file of the store directory.
#[derive(Debug)]
pub struct StoreFile {
    pub name: Vec<u8>,
    pub data: Vec<u8>,
    pub fresh: bool,
}

#[derive(Debug)]
pub struct Store {
    pub files: Vec<StoreFile>,
    pub removed: Vec<Vec<u8>>,
}

/// Which file an identifier names.
#[derive(Debug)]
pub enum Selection {
    Missing,
    Ambiguous(usize),
    Found(usize),
}

/// The digest that names an object.
pub open spec fn object_hash(o: ObjectView) -> Seq<u8> {
    sha256_of(encode(o))
}

/// An object that can be stored: encodable, and a tree's names unique.
pub open spec fn storable(o: ObjectView) -> bool {
    encodable(o) && (o matches ObjectView::Tree(es) ==> crate::order::names_unique(es))
}

/// The form in which an object is stored: a tree's entries sorted.
pub open spec fn canonical(o: ObjectView) -> ObjectView {
    match o {
        ObjectView::Tree(es) => ObjectView::Tree(canonical_entries(es)),
        _ => o,
    }
}

/// A full name selects the file of that name; a shorter identifier selects
/// the files whose names start with it.
pub open spec fn id_matches(name: Seq<u8>, id: Seq<u8>) -> bool {
    if id.len() == 64 {
        name == id
    } else {
        id.len() < 64 && id.is_prefix_of(name)
    }
}

/// A store file that reads back as an object: a hex name, a valid gzip
/// stream, a digest that agrees with the name and a canonical encoding.
pub open spec fn readable(name: Seq<u8>, data: Seq<u8>) -> bool {
    &&& is_hex_name(name)
    &&& gunzip_of(data) is Some
    &&& hex_of(sha256_of(gunzip_of(data).unwrap())) == name
    &&& decode(gunzip_of(data).unwrap()) is Some
}

/// The error that reading an unreadable file reports.
pub open spec fn file_error(name: Seq<u8>, data: Seq<u8>, e: EvsError) -> bool {
    if !is_hex_name(name) {
        e matches EvsError::CorruptStateDetected(CorruptState::InvalidObjectName(n)) && n@ == name
    } else {
        match gunzip_of(data) {
            None => e matches EvsError::CorruptStateDetected(CorruptState::InvalidCompression(n))
                && n@ == name,
            Some(d) => if hex_of(sha256_of(d)) != name {
                e matches EvsError::CorruptStateDetected(CorruptState::HashMismatch(n, h)) && n@
                    == name && h@ == sha256_of(d)
            } else {
                e matches EvsError::CorruptStateDetected(CorruptState::InvalidObjectContent(h))
                    && h@ == sha256_of(d)
            },
        }
    }
}

/// What reading a file gives: its digest and object, or the error.
pub open spec fn read_outcome(
    name: Seq<u8>,
    data: Seq<u8>,
    r: Result<(crate::hash::Hash, Object), EvsError>,
) -> bool {
    if readable(name, data) {
        r matches Ok((h, o)) && h@ == sha256_of(gunzip_of(data).unwrap()) && o@ == decode(
            gunzip_of(data).unwrap(),
        ).unwrap()
    } else {
        r matches Err(e) && file_error(name, data, e)
    }
}

fn is_prefix(p: &[u8], s: &[u8]) -> (r: bool)
    ensures
        r == p@.is_prefix_of(s@),
{
    if p.len() > s.len() {
        return false;
    }
    let mut i: usize = 0;
    while i < p.len()
        invariant
            i <= p@.len() <= s@.len(),
            p@.subrange(0, i as int) == s@.subrange(0, i as int),
        decreases p@.len() - i,
    {
        if p[i] != s[i] {
            return false;
        }
        i += 1;
        assert(p@.subrange(0, i as int) =~= p@.subrange(0, i - 1).push(p@[i - 1]));
        assert(s@.subrange(0, i as int) =~= s@.subrange(0, i - 1).push(s@[i - 1]));
    }
    assert(p@ =~= p@.subrange(0, i as int));
    true
}

fn id_matches_exec(name: &[u8], id: &[u8]) -> (r: bool)
    ensures
        r == id_matches(name@, id@),
{
    if id.len() == 64 {
        bytes_eq(name, id)
    } else {
        id.len() < 64 && is_prefix(id, name)
    }
}

proof fn lemma_hex_name_text(n: Seq<u8>)
    requires
        is_hex_name(n),
    ensures
        vstd::utf8::valid_utf8(n),
        encode_utf8(vstd::utf8::decode_utf8(n)) == n,
{
    let t = n.map_values(|b: u8| b as char);
    assert forall|i: int| 0 <= i < t.len() implies '\0' <= #[trigger] t[i] <= '\u{7f}' by {}
    vstd::utf8::is_ascii_chars_encode_utf8(t);
    assert(encode_utf8(t) =~= n);
    vstd::utf8::encode_utf8_valid_utf8(t);
    vstd::utf8::decode_utf8_encode_utf8(n);
}

impl Store {
    /// A store holding the given files.
    pub fn new(files: Vec<StoreFile>) -> (r: Store)
        ensures
            r.files@ == files@,
            r.removed@.len() == 0,
    {
        Store { files, removed: Vec::new() }
    }

    pub open spec fn name_at(self, i: int) -> Seq<u8> {
        self.files@[i].name@
    }

    pub open spec fn data_at(self, i: int) -> Seq<u8> {
        self.files@[i].data@
    }

    pub open spec fn has_name(self, n: Seq<u8>) -> bool {
        exists|i: int| 0 <= i < self.files@.len() && #[trigger] self.name_at(i) == n
    }

    pub open spec fn matches_at(self, id: Seq<u8>, i: int) -> bool {
        0 <= i < self.files@.len() && id_matches(self.name_at(i), id)
    }

    pub open spec fn no_match(self, id: Seq<u8>) -> bool {
        forall|i: int| !#[trigger] self.matches_at(id, i)
    }

    pub open spec fn first_match(self, id: Seq<u8>, i: int) -> bool {
        self.matches_at(id, i) && forall|j: int| 0 <= j < i ==> !#[trigger] self.matches_at(id, j)
    }

    /// `id` names file `i`: the first file of a full name, or the only file
    /// whose name starts with a shorter identifier.
    pub open spec fn selects(self, id: Seq<u8>, i: int) -> bool {
        self.first_match(id, i) && (id.len() == 64 || forall|j: int|
            i < j ==> !#[trigger] self.matches_at(id, j))
    }

    /// A shorter identifier that starts two or more names; `i` is the first.
    pub open spec fn ambiguous(self, id: Seq<u8>, i: int) -> bool {
        &&& id.len() < 64
        &&& self.first_match(id, i)
        &&& exists|j: int| i < j && #[trigger] self.matches_at(id, j)
    }

    /// Finds the file that an identifier names.
    pub fn select(&self, id: &[u8]) -> (r: Selection)
        ensures
            match r {
                Selection::Missing => self.no_match(id@),
                Selection::Found(i) => self.selects(id@, i as int),
                Selection::Ambiguous(i) => self.ambiguous(id@, i as int),
            },
    {
        let mut first: Option<usize> = None;
        let mut i: usize = 0;
        while i < self.files.len()
            invariant
                i <= self.files@.len(),
                match first {
                    None => forall|j: int| 0 <= j < i ==> !#[trigger] self.matches_at(id@, j),
                    Some(f) => f < i && self.first_match(id@, f as int) && forall|j: int|
                        f < j < i ==> !#[trigger] self.matches_at(id@, j),
                },
                first is Some ==> id@.len() < 64,
            decreases self.files@.len() - i,
        {
            if id_matches_exec(self.files[i].name.as_slice(), id) {
                if id.len() == 64 {
                    return Selection::Found(i);
                }
                match first {
                    Some(f) => {
                        assert(self.matches_at(id@, i as int));
                        return Selection::Ambiguous(f);
                    },
                    None => {
                        first = Some(i);
                    },
                }
            }
            i += 1;
        }
        match first {
            Some(f) => Selection::Found(f),
            None => Selection::Missing,
        }
    }

    /// Reads file `i` back: checks its name, decompresses it, checks its
    /// digest against the name and decodes it.
    pub fn read_file(&self, i: usize) -> (r: Result<(crate::hash::Hash, Object), EvsError>)
        requires
            i < self.files@.len(),
        ensures
            read_outcome(self.name_at(i as int), self.data_at(i as int), r),
    {
        let file = &self.files[i];
        if file.name.len() != 64 || !is_hex_text(file.name.as_slice()) {
            return Err(
                EvsError::CorruptStateDetected(CorruptState::InvalidObjectName(copy_bytes(&file.name))),
            );
        }
        let decompressed = match gunzip(file.data.as_slice()) {
            Some(d) => d,
            None => {
                return Err(
                    EvsError::CorruptStateDetected(
                        CorruptState::InvalidCompression(copy_bytes(&file.name)),
                    ),
                );
            },
        };
        let digest = sha256(decompressed.as_slice());
        let real_hex = hex_bytes(digest.as_slice());
        if !bytes_eq(real_hex.as_slice(), file.name.as_slice()) {
            return Err(
                EvsError::CorruptStateDetected(
                    CorruptState::HashMismatch(copy_bytes(&file.name), copy_bytes_of(digest.as_slice())),
                ),
            );
        }
        match decode_object(decompressed.as_slice()) {
            Some(o) => Ok((digest, o)),
            None => Err(EvsError::CorruptStateDetected(CorruptState::InvalidObjectContent(digest))),
        }
    }
}

fn is_hex_text(s: &[u8]) -> (r: bool)
    requires
        s@.len() == 64,
    ensures
        r == is_hex_name(s@),
{
    let mut i: usize = 0;
    while i < s.len()
        invariant
            i <= s@.len() == 64,
            forall|j: int| 0 <= j < i ==> crate::hash::is_hex_char(#[trigger] s@[j]),
        decreases s@.len() - i,
    {
        let c = s[i];
        if !((48 <= c && c <= 57) || (97 <= c && c <= 102)) {
            return false;
        }
        i += 1;
    }
    true
}

fn copy_bytes_of(b: &[u8]) -> (r: Vec<u8>)
    ensures
        r@ == b@,
{
    let mut r: Vec<u8> = Vec::new();
    let mut i: usize = 0;
    while i < b.len()
        invariant
            i <= b@.len(),
            r@ == b@.subrange(0, i as int),
        decreases b@.len() - i,
    {
        r.push(b[i]);
        i += 1;
        assert(r@ =~= b@.subrange(0, i as int));
    }
    assert(b@ =~= b@.subrange(0, i as int));
    r
}

pub fn copy_bytes(b: &Vec<u8>) -> (r: Vec<u8>)
    ensures
        r@ == b@,
{
    copy_bytes_of(b.as_slice())
}

pub proof fn lemma_canonical_well_formed(o: ObjectView)
    requires
        storable(o),
    ensures
        crate::codec::well_formed(canonical(o)),
{
    if let ObjectView::Tree(es) = o {
        let s = canonical_entries(es);
        crate::order::lemma_entry_order_total();
        es.lemma_sort_by_ensures(crate::order::entry_order());
        crate::order::lemma_canonical_strictly_sorted(es);
        vstd::seq_lib::to_multiset_len(es);
        vstd::seq_lib::to_multiset_len(s);
        assert forall|i: int| 0 <= i < s.len() implies crate::codec::entry_encodable(#[trigger] s[i]) by {
            assert(s.contains(s[i]));
            let j = choose|j: int| 0 <= j < es.len() && es[j] == s[i];
            assert(crate::codec::entry_encodable(es[j]));
        }
    }
}

/// Puts an object in its stored form: a tree's entries sorted.
pub fn canonicalize(obj: Object) -> (r: Object)
    ensures
        r@ == canonical(obj@),
{
    match obj {
        Object::Tree(es) => Object::Tree(sort_entries(es)),
        other => other,
    }
}

impl Store {
    /// What `insert` does: the digest of the stored form, and a new file
    /// unless one of that name is already present.
    pub open spec fn insert_outcome(
        before: Store,
        after: Store,
        o: ObjectView,
        r: crate::hash::Hash,
    ) -> bool {
        &&& r@ == object_hash(canonical(o))
        &&& after.removed@ == before.removed@
        &&& before.has_name(hex_of(r@)) ==> after.files@ == before.files@
        &&& !before.has_name(hex_of(r@)) ==> {
            &&& after.files@.len() == before.files@.len() + 1
            &&& after.files@.subrange(0, before.files@.len() as int) == before.files@
            &&& after.name_at(before.files@.len() as int) == hex_of(r@)
            &&& gunzip_of(after.data_at(before.files@.len() as int)) == Some(encode(canonical(o)))
            &&& after.files@[before.files@.len() as int].fresh
        }
    }

    /// What `lookup` gives for an identifier.
    pub open spec fn lookup_outcome(
        self,
        id: Seq<char>,
        r: Result<(crate::hash::Hash, Object), EvsError>,
    ) -> bool {
        &&& self.no_match(encode_utf8(id)) ==> (r matches Err(EvsError::ObjectNotInStore(s)) && s@
            == id)
        &&& forall|i: int| #[trigger]
            self.ambiguous(encode_utf8(id), i) ==> (r matches Err(EvsError::AmbiguousObject(s, n))
                && s@ == id && n@ == self.name_at(i))
        &&& forall|i: int| #[trigger]
            self.selects(encode_utf8(id), i) ==> read_outcome(self.name_at(i), self.data_at(i), r)
    }

    /// Stores an object and returns its digest. A tree's entries are sorted
    /// first; an object already present is not written again.
    pub fn insert(&mut self, obj: Object) -> (r: crate::hash::Hash)
        requires
            storable(obj@),
        ensures
            Store::insert_outcome(*old(self), *final(self), obj@, r),
    {
        proof {
            lemma_canonical_well_formed(obj@);
        }
        let obj = canonicalize(obj);
        let data = encode_object(&obj);
        let hash = sha256(data.as_slice());
        let name = hex_bytes(hash.as_slice());
        match self.select(name.as_slice()) {
            Selection::Missing => {
                proof {
                    assert(name@.len() == 64);
                    if self.has_name(name@) {
                        let i = choose|i: int|
                            0 <= i < self.files@.len() && #[trigger] self.name_at(i) == name@;
                        assert(self.matches_at(name@, i));
                    }
                }
            },
            _ => {
                proof {
                    let i = choose|i: int| self.first_match(name@, i);
                    assert(self.name_at(i) == name@);
                }
                return hash;
            },
        }
        let compressed = gzip(data.as_slice());
        self.files.push(StoreFile { name, data: compressed, fresh: true });
        assert(self.files@.subrange(0, old(self).files@.len() as int) =~= old(self).files@);
        hash
    }

    /// Looks up an object by its full hex name or by a unique prefix of it,
    /// and reads it back.
    pub fn lookup(&self, id: &str) -> (r: Result<(crate::hash::Hash, Object), EvsError>)
        ensures
            self.lookup_outcome(id@, r),
    {
        let idb = id.as_bytes();
        match self.select(idb) {
            Selection::Missing => Err(EvsError::ObjectNotInStore(id.to_owned())),
            Selection::Ambiguous(i) => Err(
                EvsError::AmbiguousObject(id.to_owned(), copy_bytes(&self.files[i].name)),
            ),
            Selection::Found(i) => self.read_file(i),
        }
    }

    /// Resolves a full hex name or a unique prefix to the full name of a
    /// stored object.
    pub fn resolve_rest(&self, reference: String) -> (r: Result<String, EvsError>)
        ensures
            self.no_match(encode_utf8(reference@)) ==> (r matches Err(
                EvsError::ObjectNotInStore(s),
            ) && s@ == reference@),
            forall|i: int| #[trigger]
                self.ambiguous(encode_utf8(reference@), i) ==> (r matches Err(
                    EvsError::AmbiguousObject(s, n),
                ) && s@ == reference@ && n@ == self.name_at(i)),
            forall|i: int| #[trigger]
                self.selects(encode_utf8(reference@), i) ==> if is_hex_name(self.name_at(i)) {
                    r matches Ok(s) && encode_utf8(s@) == self.name_at(i)
                } else {
                    r matches Err(EvsError::CorruptStateDetected(CorruptState::InvalidObjectName(n)))
                        && n@ == self.name_at(i)
                },
    {
        let idb = reference.as_str().as_bytes();
        match self.select(idb) {
            Selection::Missing => Err(EvsError::ObjectNotInStore(reference)),
            Selection::Ambiguous(i) => Err(
                EvsError::AmbiguousObject(reference, copy_bytes(&self.files[i].name)),
            ),
            Selection::Found(i) => {
                let name = &self.files[i].name;
                if name.len() != 64 || !is_hex_text(name.as_slice()) {
                    return Err(
                        EvsError::CorruptStateDetected(
                            CorruptState::InvalidObjectName(copy_bytes(name)),
                        ),
                    );
                }
                proof {
                    lemma_hex_name_text(name@);
                }
                match string_from_utf8(copy_bytes(name)) {
                    Some(s) => Ok(s),
                    None => {
                        proof {
                            assert(false);
                        }
                        Err(EvsError::ObjectNotInStore(reference))
                    },
                }
            },
        }
    }
}

/// What a full check of the store reports.
#[derive(Debug)]
pub struct CheckReport {
    /// The digest of every object, in the order of the files.
    pub found: Vec<crate::hash::Hash>,
    /// The objects that neither the seeds nor any stored object refer to.
    pub unreferenced: Vec<crate::hash::Hash>,
}

pub open spec fn hash_views(v: Seq<crate::hash::Hash>) -> Seq<Seq<u8>> {
    v.map_values(|h: crate::hash::Hash| h@)
}

/// `req[k]` is the first required digest that no object has.
pub open spec fn first_missing(req: Seq<Seq<u8>>, have: Seq<Seq<u8>>, k: int) -> bool {
    &&& 0 <= k < req.len()
    &&& !have.contains(req[k])
    &&& forall|j: int| 0 <= j < k ==> have.contains(#[trigger] req[j])
}

/// The required digests that no object has.
pub open spec fn missing_set(req: Seq<Seq<u8>>, have: Seq<Seq<u8>>) -> Set<Seq<u8>> {
    req.to_set().filter(|h: Seq<u8>| !have.contains(h))
}

impl Store {
    pub open spec fn readable_at(self, i: int) -> bool {
        readable(self.name_at(i), self.data_at(i))
    }

    /// Every file reads back as an object (content addressing holds).
    pub open spec fn sound(self) -> bool {
        forall|i: int| 0 <= i < self.files@.len() ==> #[trigger] self.readable_at(i)
    }

    pub open spec fn contents_at(self, i: int) -> Seq<u8> {
        gunzip_of(self.data_at(i)).unwrap()
    }

    pub open spec fn hash_at(self, i: int) -> Seq<u8> {
        sha256_of(self.contents_at(i))
    }

    pub open spec fn object_at(self, i: int) -> ObjectView {
        decode(self.contents_at(i)).unwrap()
    }

    /// The digest of every object, in the order of the files.
    pub open spec fn hashes(self) -> Seq<Seq<u8>> {
        Seq::new(self.files@.len(), |i: int| self.hash_at(i))
    }

    pub open spec fn refs_upto(self, k: nat) -> Seq<Seq<u8>>
        decreases k,
    {
        if k == 0 {
            seq![]
        } else {
            self.refs_upto((k - 1) as nat) + self.object_at(k - 1).refs()
        }
    }

    /// Every reference that a stored object makes, in the order of the files.
    pub open spec fn references(self) -> Seq<Seq<u8>> {
        self.refs_upto(self.files@.len())
    }

    /// The seeds and every reference of a stored object.
    pub open spec fn required(self, seeds: Seq<Seq<u8>>) -> Seq<Seq<u8>> {
        seeds + self.references()
    }

    pub open spec fn first_unreadable(self, i: int) -> bool {
        &&& 0 <= i < self.files@.len()
        &&& !self.readable_at(i)
        &&& forall|j: int| 0 <= j < i ==> #[trigger] self.readable_at(j)
    }

    /// What `check` reports for the given seeds.
    pub open spec fn check_outcome(self, seeds: Seq<Seq<u8>>, r: Result<CheckReport, EvsError>) -> bool {
        &&& forall|i: int| #[trigger]
            self.first_unreadable(i) ==> (r matches Err(e) && file_error(
                self.name_at(i),
                self.data_at(i),
                e,
            ))
        &&& self.sound() ==> forall|k: int| #[trigger]
            first_missing(self.required(seeds), self.hashes(), k) ==> (r matches Err(
                EvsError::CorruptStateDetected(CorruptState::MissingObjects(h, n)),
            ) && h@ == self.required(seeds)[k] && n + 1 == missing_set(
                self.required(seeds),
                self.hashes(),
            ).len())
        &&& (self.sound() && forall|k: int|
            0 <= k < self.required(seeds).len() ==> self.hashes().contains(
                #[trigger] self.required(seeds)[k],
            )) ==> (r matches Ok(rep) && hash_views(rep.found@) == self.hashes() && hash_views(
            rep.unreferenced@,
        ).no_duplicates() && forall|h: Seq<u8>| #[trigger]
            hash_views(rep.unreferenced@).contains(h) <==> (self.hashes().contains(h)
                && !self.required(seeds).contains(h)))
    }
}

pub proof fn lemma_hash_views_push(v: Seq<crate::hash::Hash>, h: crate::hash::Hash)
    ensures
        hash_views(v.push(h)) == hash_views(v).push(h@),
{
    assert(hash_views(v.push(h)) =~= hash_views(v).push(h@));
}

pub proof fn lemma_push_contains(s: Seq<Seq<u8>>, y: Seq<u8>)
    ensures
        forall|x: Seq<u8>| #[trigger] s.push(y).contains(x) <==> (s.contains(x) || x == y),
{
    assert forall|x: Seq<u8>| #[trigger] s.push(y).contains(x) <==> (s.contains(x) || x == y) by {
        if s.contains(x) {
            let j = choose|j: int| 0 <= j < s.len() && #[trigger] s[j] == x;
            assert(s.push(y)[j] == x);
        }
        if x == y {
            assert(s.push(y)[s.len() as int] == x);
        }
        if s.push(y).contains(x) && x != y {
            let j = choose|j: int| 0 <= j < s.len() + 1 && #[trigger] s.push(y)[j] == x;
            assert(s[j] == x);
        }
    }
}

pub proof fn lemma_push_no_duplicates(s: Seq<Seq<u8>>, y: Seq<u8>)
    requires
        s.no_duplicates(),
        !s.contains(y),
    ensures
        s.push(y).no_duplicates(),
{
    let t = s.push(y);
    assert forall|i: int, j: int| 0 <= i < t.len() && 0 <= j < t.len() && i != j implies t[i] != t[j] by {
        if i < s.len() && j < s.len() {
            assert(t[i] == s[i] && t[j] == s[j]);
        } else if i < s.len() {
            assert(t[i] == s[i]);
        } else if j < s.len() {
            assert(t[j] == s[j]);
        }
    }
}

pub fn contains_hash(v: &Vec<crate::hash::Hash>, h: &crate::hash::Hash) -> (r: bool)
    ensures
        r == hash_views(v@).contains(h@),
{
    let mut i: usize = 0;
    while i < v.len()
        invariant
            i <= v@.len(),
            forall|j: int| 0 <= j < i ==> #[trigger] v@[j]@ != h@,
        decreases v@.len() - i,
    {
        if bytes_eq(v[i].as_slice(), h.as_slice()) {
            assert(hash_views(v@)[i as int] == h@);
            return true;
        }
        i += 1;
    }
    false
}

pub fn push_refs(req: &mut Vec<crate::hash::Hash>, o: &Object)
    ensures
        hash_views(final(req)@) == hash_views(old(req)@) + o@.refs(),
{
    match o {
        Object::Tree(es) => {
            let mut i: usize = 0;
            while i < es.len()
                invariant
                    i <= es@.len(),
                    hash_views(req@) == hash_views(old(req)@) + es@.map_values(|e: TreeEntry| e@).map_values(
                        |e: crate::objects::EntryView| e.content,
                    ).subrange(0, i as int),
                decreases es@.len() - i,
            {
                proof {
                    lemma_hash_views_push(req@, es@[i as int].content);
                }
                req.push(es[i].content);
                i += 1;
                assert(hash_views(req@) =~= hash_views(old(req)@) + es@.map_values(|e: TreeEntry| e@).map_values(
                    |e: crate::objects::EntryView| e.content,
                ).subrange(0, i as int));
            }
            assert(es@.map_values(|e: TreeEntry| e@).map_values(
                |e: crate::objects::EntryView| e.content,
            ).subrange(0, i as int) =~= o@.refs());
        },
        Object::Commit(c) => {
            proof {
                lemma_hash_views_push(req@, c.tree);
                lemma_hash_views_push(req@.push(c.tree), c.parent);
            }
            req.push(c.tree);
            req.push(c.parent);
            assert(hash_views(req@) =~= hash_views(old(req)@) + o@.refs());
        },
        _ => {
            assert(hash_views(req@) =~= hash_views(old(req)@) + o@.refs());
        },
    }
}

impl Store {
    /// Reads back every file in order, collecting digests and references.
    fn read_all(&self, req: &mut Vec<crate::hash::Hash>) -> (r: Result<Vec<crate::hash::Hash>, EvsError>)
        ensures
            match r {
                Ok(found) => self.sound() && hash_views(found@) == self.hashes() && hash_views(
                    final(req)@,
                ) == hash_views(old(req)@) + self.references(),
                Err(e) => exists|i: int|
                    #![trigger self.first_unreadable(i)]
                    self.first_unreadable(i) && file_error(self.name_at(i), self.data_at(i), e),
            },
    {
        let ghost start = hash_views(req@);
        assert(self.refs_upto(0) =~= Seq::<Seq<u8>>::empty());
        assert(hash_views(req@) =~= start + self.refs_upto(0));
        let mut found: Vec<crate::hash::Hash> = Vec::new();
        let mut i: usize = 0;
        while i < self.files.len()
            invariant
                i <= self.files@.len(),
                hash_views(found@) == self.hashes().subrange(0, i as int),
                hash_views(req@) == start + self.refs_upto(i as nat),
                forall|j: int| 0 <= j < i ==> #[trigger] self.readable_at(j),
            decreases self.files@.len() - i,
        {
            let res = self.read_file(i);
            match res {
                Ok((h, o)) => {
                    assert(self.readable_at(i as int));
                    proof {
                        lemma_hash_views_push(found@, h);
                    }
                    found.push(h);
                    push_refs(req, &o);
                    assert(hash_views(found@) =~= self.hashes().subrange(0, i + 1));
                    assert(hash_views(req@) =~= start + self.refs_upto((i + 1) as nat));
                },
                Err(e) => {
                    assert(self.first_unreadable(i as int));
                    return Err(e);
                },
            }
            i += 1;
        }
        assert(self.hashes().subrange(0, i as int) =~= self.hashes());
        Ok(found)
    }

    /// Reads back every file, and checks that the seeds and everything that
    /// a stored object refers to are present.
    pub fn check(&self, required: &Vec<crate::hash::Hash>) -> (r: Result<CheckReport, EvsError>)
        ensures
            self.check_outcome(hash_views(required@), r),
    {
        let ghost seeds = hash_views(required@);
        let mut req: Vec<crate::hash::Hash> = Vec::new();
        let mut s: usize = 0;
        while s < required.len()
            invariant
                s <= required@.len(),
                hash_views(req@) == seeds.subrange(0, s as int),
                seeds == hash_views(required@),
            decreases required@.len() - s,
        {
            proof {
                lemma_hash_views_push(req@, required@[s as int]);
            }
            req.push(required[s]);
            s += 1;
            assert(hash_views(req@) =~= seeds.subrange(0, s as int));
        }
        assert(seeds.subrange(0, s as int) =~= seeds);
        let found = match self.read_all(&mut req) {
            Ok(f) => f,
            Err(e) => {
                return Err(e);
            },
        };

        let ghost req_all = seeds + self.references();
        let ghost have = self.hashes();
        let mut first: Option<crate::hash::Hash> = None;
        let ghost mut first_k: int = 0;
        let mut distinct: Vec<crate::hash::Hash> = Vec::new();
        let mut k: usize = 0;
        while k < req.len()
            invariant
                k <= req@.len(),
                hash_views(req@) == req_all,
                hash_views(found@) == have,
                first is None ==> forall|j: int| 0 <= j < k ==> have.contains(#[trigger] req_all[j]),
                first matches Some(h) ==> first_missing(req_all, have, first_k) && h@ == req_all[first_k],
                hash_views(distinct@).no_duplicates(),
                forall|h: Seq<u8>| #[trigger]
                    hash_views(distinct@).contains(h) <==> (req_all.subrange(0, k as int).contains(h)
                        && !have.contains(h)),
            decreases req@.len() - k,
        {
            let h = req[k];
            assert(h@ == req_all[k as int]);
            let ghost before = hash_views(distinct@);
            proof {
                lemma_push_contains(before, h@);
                lemma_push_contains(req_all.subrange(0, k as int), h@);
            }
            if !contains_hash(&found, &h) {
                if first.is_none() {
                    first = Some(h);
                    proof {
                        first_k = k as int;
                    }
                }
                if !contains_hash(&distinct, &h) {
                    proof {
                        lemma_hash_views_push(distinct@, h);
                        lemma_push_no_duplicates(hash_views(distinct@), h@);
                    }
                    distinct.push(h);
                }
            }
            proof {
                let dv = hash_views(distinct@);
                assert(req_all.subrange(0, k + 1) =~= req_all.subrange(0, k as int).push(h@));
                assert forall|x: Seq<u8>| #[trigger] dv.contains(x) <==> (req_all.subrange(0, k + 1).contains(x)
                    && !have.contains(x)) by {
                    if req_all.subrange(0, k + 1).contains(x) && !have.contains(x) && x != h@ {
                        let j = choose|j: int| 0 <= j < k + 1 && #[trigger] req_all.subrange(0, k + 1)[j] == x;
                        assert(req_all.subrange(0, k as int)[j] == x);
                    }
                    if req_all.subrange(0, k as int).contains(x) {
                        let j = choose|j: int| 0 <= j < k && #[trigger] req_all.subrange(0, k as int)[j] == x;
                        assert(req_all.subrange(0, k + 1)[j] == x);
                    }
                }
            }
            k += 1;
        }
        assert(req_all.subrange(0, k as int) =~= req_all);
        proof {
            let dv = hash_views(distinct@);
            assert(dv.to_set() =~= missing_set(req_all, have));
            dv.unique_seq_to_set();
        }
        match first {
            Some(h) => {
                assert(req_all.subrange(0, first_k + 1).contains(h@)) by {
                    assert(req_all.subrange(0, first_k + 1)[first_k] == h@);
                }
                assert(hash_views(distinct@).contains(h@));
                proof {
                    assert forall|kk: int| #[trigger] first_missing(req_all, have, kk) implies kk
                        == first_k by {
                        if kk < first_k {
                            assert(have.contains(req_all[kk]));
                        }
                        if kk > first_k {
                            assert(have.contains(req_all[first_k]));
                        }
                    }
                    assert(req_all == self.required(seeds));
                    assert(!self.hashes().contains(self.required(seeds)[first_k]));
                    assert forall|i: int| !#[trigger] self.first_unreadable(i) by {
                        if 0 <= i < self.files@.len() {
                            assert(self.readable_at(i));
                        }
                    }
                }
                return Err(
                    EvsError::CorruptStateDetected(CorruptState::MissingObjects(h, distinct.len() - 1)),
                );
            },
            None => {},
        }
        let mut unreferenced: Vec<crate::hash::Hash> = Vec::new();
        let mut f: usize = 0;
        while f < found.len()
            invariant
                f <= found@.len(),
                hash_views(req@) == req_all,
                hash_views(found@) == have,
                hash_views(unreferenced@).no_duplicates(),
                forall|h: Seq<u8>| #[trigger]
                    hash_views(unreferenced@).contains(h) <==> (have.subrange(0, f as int).contains(h)
                        && !req_all.contains(h)),
            decreases found@.len() - f,
        {
            let h = found[f];
            assert(h@ == have[f as int]);
            let ghost before = hash_views(unreferenced@);
            proof {
                lemma_push_contains(before, h@);
                lemma_push_contains(have.subrange(0, f as int), h@);
            }
            if !contains_hash(&req, &h) && !contains_hash(&unreferenced, &h) {
                proof {
                    lemma_hash_views_push(unreferenced@, h);
                    lemma_push_no_duplicates(hash_views(unreferenced@), h@);
                }
                unreferenced.push(h);
            }
            proof {
                let uv = hash_views(unreferenced@);
                assert(have.subrange(0, f + 1) =~= have.subrange(0, f as int).push(h@));
                assert forall|x: Seq<u8>| #[trigger] uv.contains(x) <==> (have.subrange(0, f + 1).contains(x)
                    && !req_all.contains(x)) by {
                    if have.subrange(0, f + 1).contains(x) && x != h@ {
                        let j = choose|j: int| 0 <= j < f + 1 && #[trigger] have.subrange(0, f + 1)[j] == x;
                        assert(have.subrange(0, f as int)[j] == x);
                    }
                    if have.subrange(0, f as int).contains(x) {
                        let j = choose|j: int| 0 <= j < f && #[trigger] have.subrange(0, f as int)[j] == x;
                        assert(have.subrange(0, f + 1)[j] == x);
                    }
                }
            }
            f += 1;
        }
        assert(have.subrange(0, f as int) =~= have);
        Ok(CheckReport { found, unreferenced })
    }

    /// Removes the file of the given digest, and records its name.
    pub fn remove(&mut self, hash: crate::hash::Hash) -> (r: Result<(), EvsError>)
        ensures
            !old(self).has_name(hex_of(hash@)) ==> (r matches Err(EvsError::ObjectNotInStore(s))
                && encode_utf8(s@) == hex_of(hash@) && *final(self) == *old(self)),
            forall|i: int| #[trigger]
                old(self).first_match(hex_of(hash@), i) ==> (r is Ok && final(self).files@
                    == old(self).files@.remove(i) && final(self).removed@.len()
                    == old(self).removed@.len() + 1 && final(self).removed@.last()@ == hex_of(hash@)
                    && final(self).removed@.drop_last() == old(self).removed@),
    {
        let name = hex_bytes(hash.as_slice());
        match self.select(name.as_slice()) {
            Selection::Found(i) => {
                self.files.remove(i);
                self.removed.push(name);
                Ok(())
            },
            _ => {
                proof {
                    assert(name@.len() == 64);
                    if self.has_name(name@) {
                        let i = choose|i: int|
                            0 <= i < self.files@.len() && #[trigger] self.name_at(i) == name@;
                        assert(self.matches_at(name@, i));
                    }
                }
                proof {
                    lemma_hex_of_hash_is_name(hash@);
                    lemma_hex_name_text(name@);
                }
                match string_from_utf8(name) {
                    Some(s) => Err(EvsError::ObjectNotInStore(s)),
                    None => {
                        proof {
                            assert(false);
                        }
                        Err(EvsError::ObjectNotInStore(String::new()))
                    },
                }
            },
        }
    }
}

// ---------------------------------------------------------------------------
// Laws of the store.
// ---------------------------------------------------------------------------
impl Store {
    /// No stored object other than `o` has the digest of `o`.
    pub open spec fn no_collision_with(self, o: ObjectView) -> bool {
        forall|i: int|
            0 <= i < self.files@.len() && #[trigger] self.hash_at(i) == object_hash(o)
                ==> self.object_at(i) == o
    }
}

pub proof fn lemma_insert_new_file(before: Store, after: Store, o: ObjectView, h: crate::hash::Hash)
    requires
        storable(o),
        Store::insert_outcome(before, after, o, h),
        !before.has_name(hex_of(h@)),
    ensures
        after.readable_at(before.files@.len() as int),
        after.hash_at(before.files@.len() as int) == h@,
        after.object_at(before.files@.len() as int) == canonical(o),
{
    lemma_canonical_well_formed(o);
    crate::codec::lemma_decode_encode(canonical(o));
    lemma_hex_of_hash_is_name(h@);
}

/// After storing an object, a file carries its digest's name.
pub proof fn lemma_insert_named(before: Store, after: Store, o: ObjectView, h: crate::hash::Hash)
    requires
        Store::insert_outcome(before, after, o, h),
    ensures
        after.has_name(hex_of(h@)),
{
    if before.has_name(hex_of(h@)) {
        let j = choose|j: int| 0 <= j < before.files@.len() && #[trigger] before.name_at(j) == hex_of(h@);
        assert(after.name_at(j) == before.name_at(j));
    } else {
        assert(after.name_at(before.files@.len() as int) == hex_of(h@));
    }
}

/// Storing an object keeps every file of the store readable.
pub proof fn lemma_insert_keeps_sound(before: Store, after: Store, o: ObjectView, h: crate::hash::Hash)
    requires
        before.sound(),
        storable(o),
        Store::insert_outcome(before, after, o, h),
    ensures
        after.sound(),
{
    if !before.has_name(hex_of(h@)) {
        lemma_insert_new_file(before, after, o, h);
        assert forall|i: int| 0 <= i < after.files@.len() implies #[trigger] after.readable_at(i) by {
            if i < before.files@.len() {
                assert(after.files@[i] == after.files@.subrange(0, before.files@.len() as int)[i]);
                assert(before.readable_at(i));
            }
        }
    } else {
        assert(after.files@ == before.files@);
        assert forall|i: int| 0 <= i < after.files@.len() implies #[trigger] after.readable_at(i) by {
            assert(before.readable_at(i));
            assert(after.name_at(i) == before.name_at(i));
            assert(after.data_at(i) == before.data_at(i));
        }
    }
}

pub proof fn lemma_first_match_exists(s: Store, id: Seq<u8>, i: int)
    requires
        s.matches_at(id, i),
    ensures
        exists|k: int| k <= i && #[trigger] s.first_match(id, k),
    decreases i,
{
    if exists|j: int| 0 <= j < i && #[trigger] s.matches_at(id, j) {
        let j = choose|j: int| 0 <= j < i && #[trigger] s.matches_at(id, j);
        lemma_first_match_exists(s, id, j);
    } else {
        assert(s.first_match(id, i));
    }
}

/// An object stored and then looked up by its full hex name is found, under
/// the digest that storing returned.
pub proof fn lemma_insert_then_lookup_digest(
    before: Store,
    after: Store,
    o: ObjectView,
    h: crate::hash::Hash,
    id: Seq<char>,
    r: Result<(crate::hash::Hash, Object), EvsError>,
)
    requires
        before.sound(),
        storable(o),
        Store::insert_outcome(before, after, o, h),
        encode_utf8(id) == hex_of(h@),
        after.lookup_outcome(id, r),
    ensures
        r matches Ok((h2, _)) && h2@ == h@,
{
    let n = hex_of(h@);
    lemma_hex_of_hash_is_name(h@);
    lemma_insert_keeps_sound(before, after, o, h);
    lemma_insert_named(before, after, o, h);
    let j = choose|j: int| 0 <= j < after.files@.len() && #[trigger] after.name_at(j) == n;
    assert(after.matches_at(n, j));
    lemma_first_match_exists(after, n, j);
    let k = choose|k: int| k <= j && #[trigger] after.first_match(n, k);
    assert(after.selects(n, k));
    assert(after.readable_at(k));
    crate::hash::lemma_hex_of_injective(after.hash_at(k), h@);
}

/// An object stored and then looked up by its full hex name comes back, in
/// its stored form and with the digest that storing returned, unless the
/// store already held a different object of the same digest.
pub proof fn lemma_insert_then_lookup(
    before: Store,
    after: Store,
    o: ObjectView,
    h: crate::hash::Hash,
    id: Seq<char>,
    r: Result<(crate::hash::Hash, Object), EvsError>,
)
    requires
        before.sound(),
        storable(o),
        before.no_collision_with(canonical(o)),
        Store::insert_outcome(before, after, o, h),
        encode_utf8(id) == hex_of(h@),
        after.lookup_outcome(id, r),
    ensures
        r matches Ok((h2, o2)) && h2@ == h@ && o2@ == canonical(o),
{
    let n = hex_of(h@);
    lemma_hex_of_hash_is_name(h@);
    if before.has_name(n) {
        let i = choose|i: int| 0 <= i < before.files@.len() && #[trigger] before.name_at(i) == n;
        assert(before.matches_at(n, i));
        lemma_first_match_exists(before, n, i);
        let k = choose|k: int| k <= i && #[trigger] before.first_match(n, k);
        assert(after.files@ == before.files@);
        assert(n.len() == 64);
        assert forall|j: int| #[trigger] after.matches_at(n, j) <==> before.matches_at(n, j) by {
            if 0 <= j < after.files@.len() {
                assert(after.name_at(j) == before.name_at(j));
            }
        }
        assert(after.first_match(n, k));
        assert(after.selects(n, k));
        assert(after.name_at(k) == before.name_at(k));
        assert(after.data_at(k) == before.data_at(k));
        assert(before.readable_at(k));
        crate::hash::lemma_hex_of_injective(before.hash_at(k), h@);
    } else {
        let k = before.files@.len() as int;
        lemma_insert_new_file(before, after, o, h);
        assert forall|j: int| 0 <= j < k implies !#[trigger] after.matches_at(n, j) by {
            assert(after.files@[j] == after.files@.subrange(0, k)[j]);
            assert(before.name_at(j) != n);
        }
        assert(after.selects(n, k));
    }
}

/// A prefix of one stored name that starts no other name looks up that
/// object's digest.
pub proof fn lemma_unique_prefix_lookup(
    s: Store,
    i: int,
    p: Seq<char>,
    r: Result<(crate::hash::Hash, Object), EvsError>,
)
    requires
        s.sound(),
        0 <= i < s.files@.len(),
        encode_utf8(p).is_prefix_of(s.name_at(i)),
        forall|j: int|
            0 <= j < s.files@.len() && j != i ==> !encode_utf8(p).is_prefix_of(#[trigger] s.name_at(j)),
        s.lookup_outcome(p, r),
    ensures
        r matches Ok((h, o)) && h@ == s.hash_at(i) && hex_of(h@) == s.name_at(i),
{
    let id = encode_utf8(p);
    assert(s.readable_at(i));
    if id.len() == 64 {
        assert(id =~= s.name_at(i));
    }
    assert(s.matches_at(id, i));
    assert forall|j: int| j != i implies !#[trigger] s.matches_at(id, j) by {
        if 0 <= j < s.files@.len() && id.len() == 64 && s.name_at(j) == id {
            assert(id.is_prefix_of(s.name_at(j)));
        }
    }
    assert(s.selects(id, i));
}

/// A prefix that starts two different stored names is ambiguous.
pub proof fn lemma_shared_prefix_ambiguous(
    s: Store,
    i: int,
    j: int,
    p: Seq<char>,
    r: Result<(crate::hash::Hash, Object), EvsError>,
)
    requires
        s.sound(),
        0 <= i < s.files@.len(),
        0 <= j < s.files@.len(),
        s.name_at(i) != s.name_at(j),
        encode_utf8(p).is_prefix_of(s.name_at(i)),
        encode_utf8(p).is_prefix_of(s.name_at(j)),
        s.lookup_outcome(p, r),
    ensures
        r matches Err(EvsError::AmbiguousObject(q, _)) && q@ == p,
{
    let id = encode_utf8(p);
    assert(s.readable_at(i) && s.readable_at(j));
    if id.len() == 64 {
        assert(id =~= s.name_at(i));
        assert(id =~= s.name_at(j));
    }
    assert(id.len() < 64);
    assert(s.matches_at(id, i) && s.matches_at(id, j));
    let lo = if i < j { i } else { j };
    let hi = if i < j { j } else { i };
    lemma_first_match_exists(s, id, lo);
    let k = choose|k: int| k <= lo && #[trigger] s.first_match(id, k);
    assert(k < hi && s.matches_at(id, hi));
    assert(s.ambiguous(id, k));
}

/// The digest of a stored tree does not depend on the order of its entries.
pub proof fn lemma_tree_hash_order_free(es1: Seq<crate::objects::EntryView>, es2: Seq<crate::objects::EntryView>)
    requires
        es1.to_multiset() == es2.to_multiset(),
    ensures
        object_hash(canonical(ObjectView::Tree(es1))) == object_hash(canonical(ObjectView::Tree(es2))),
{
    crate::order::lemma_entry_order_total();
    es1.lemma_sort_by_ensures(crate::order::entry_order());
    crate::order::lemma_canonical_unique(canonical_entries(es1), es2);
}

impl Store {
    /// A full 64-byte name that some file has.
    pub open spec fn named(self, n: Seq<u8>) -> bool {
        n.len() == 64 && self.has_name(n)
    }

    /// The first file of a name.
    pub open spec fn index_named(self, n: Seq<u8>) -> int {
        choose|i: int| self.first_match(n, i)
    }
}

/// A full name selects its first file.
pub proof fn lemma_named(s: Store, n: Seq<u8>)
    requires
        s.named(n),
    ensures
        s.first_match(n, s.index_named(n)),
        s.selects(n, s.index_named(n)),
        0 <= s.index_named(n) < s.files@.len(),
{
    let j = choose|j: int| 0 <= j < s.files@.len() && #[trigger] s.name_at(j) == n;
    assert(s.matches_at(n, j));
    lemma_first_match_exists(s, n, j);
}

/// A full name that no file has matches nothing.
pub proof fn lemma_not_named(s: Store, n: Seq<u8>)
    requires
        n.len() == 64,
        !s.has_name(n),
    ensures
        s.no_match(n),
{
    assert forall|j: int| !#[trigger] s.matches_at(n, j) by {
        if 0 <= j < s.files@.len() && s.name_at(j) == n {
            assert(s.has_name(n));
        }
    }
}

} // verus!
