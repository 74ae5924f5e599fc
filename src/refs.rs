//! References: `HEAD`, full or partial hex names, and `~N` ancestors.
use vstd::prelude::*;
use vstd::utf8::encode_utf8;
use crate::error::EvsError;
use crate::hash::{hex_of, hex_string};
use crate::objects::{Commit, Object, ObjectView};
use crate::repo::Repository;
use crate::store::{lemma_named, lemma_not_named, read_outcome, Store};

verus! {

pub const TILDE: u8 = 0x7e;
pub const PLUS: u8 = 0x2b;

pub open spec fn is_digit(c: u8) -> bool {
    48 <= c <= 57
}

pub open spec fn all_digits(d: Seq<u8>) -> bool {
    forall|i: int| 0 <= i < d.len() ==> is_digit(#[trigger] d[i])
}

/// The value of a string of decimal digits.
pub open spec fn digits_value(s: Seq<u8>) -> nat
    decreases s.len(),
{
    if s.len() == 0 {
        0
    } else {
        digits_value(s.drop_last()) * 10 + (s.last() - 48) as nat
    }
}

/// A non-negative decimal integer, with an optional leading `+`, that fits
/// a `usize`.
pub open spec fn parse_count(s: Seq<u8>) -> Option<usize> {
    let d = if s.len() > 0 && s[0] == PLUS {
        s.drop_first()
    } else {
        s
    };
    if d.len() > 0 && all_digits(d) && digits_value(d) <= usize::MAX {
        Some(digits_value(d) as usize)
    } else {
        None
    }
}

/// Parses a count of ancestors.
pub fn parse_count_exec(s: &[u8]) -> (r: Option<usize>)
    ensures
        r == parse_count(s@),
{
    let start: usize = if s.len() > 0 && s[0] == PLUS {
        1
    } else {
        0
    };
    let ghost d = if s@.len() > 0 && s@[0] == PLUS {
        s@.drop_first()
    } else {
        s@
    };
    assert(d =~= s@.subrange(start as int, s@.len() as int));
    assert(parse_count(s@) == (if d.len() > 0 && all_digits(d) && digits_value(d) <= usize::MAX {
        Some(digits_value(d) as usize)
    } else {
        None
    }));
    if start >= s.len() {
        return None;
    }
    let mut v: usize = 0;
    let mut i: usize = start;
    while i < s.len()
        invariant
            start <= i <= s@.len(),
            d == s@.subrange(start as int, s@.len() as int),
            parse_count(s@) == (if d.len() > 0 && all_digits(d) && digits_value(d) <= usize::MAX {
                Some(digits_value(d) as usize)
            } else {
                None
            }),
            forall|j: int| start <= j < i ==> is_digit(#[trigger] s@[j]),
            v as nat == digits_value(s@.subrange(start as int, i as int)),
        decreases s@.len() - i,
    {
        let c = s[i];
        assert(s@.subrange(start as int, i + 1).drop_last() =~= s@.subrange(start as int, i as int));
        if c < 48 || c > 57 {
            assert(d[(i - start) as int] == s@[i as int]);
            assert(!is_digit(d[(i - start) as int]));
            assert(!all_digits(d));
            return None;
        }
        let digit = (c - 48) as usize;
        if v > (usize::MAX - digit) / 10 {
            assert(digits_value(s@.subrange(start as int, i + 1)) > usize::MAX) by (nonlinear_arith)
                requires
                    v > (usize::MAX - digit) / 10,
                    digits_value(s@.subrange(start as int, i + 1)) == v * 10 + digit,
            ;
            proof {
                lemma_digits_grow(d, (i + 1 - start) as int);
                assert(d.subrange(0, (i + 1 - start) as int) =~= s@.subrange(start as int, i + 1));
                assert(digits_value(d) > usize::MAX);
            }
            return None;
        }
        assert(v * 10 + digit <= usize::MAX) by (nonlinear_arith)
            requires
                v <= (usize::MAX - digit) / 10,
                digit <= 9,
        ;
        v = v * 10 + digit;
        i += 1;
    }
    assert(s@.subrange(start as int, i as int) =~= d);
    Some(v)
}

/// A longer run of digits is worth at least as much as its prefix.
proof fn lemma_digits_grow(d: Seq<u8>, k: int)
    requires
        0 <= k <= d.len(),
    ensures
        digits_value(d) >= digits_value(d.subrange(0, k)),
    decreases d.len() - k,
{
    if k < d.len() {
        lemma_digits_grow(d, k + 1);
        assert(d.subrange(0, k + 1).drop_last() =~= d.subrange(0, k));
        assert(digits_value(d.subrange(0, k + 1)) >= digits_value(d.subrange(0, k))) by (nonlinear_arith)
            requires
                digits_value(d.subrange(0, k + 1)) == digits_value(d.subrange(0, k)) * 10 + (d.subrange(
                    0,
                    k + 1,
                ).last() - 48) as nat,
        ;
    } else {
        assert(d.subrange(0, k) =~= d);
    }
}

/// The bytes of the word `HEAD`.
pub open spec fn head_word() -> Seq<u8> {
    seq![72u8, 69u8, 65u8, 68u8]
}

/// `k` is the first `~` of `b`.
pub open spec fn tilde_at(b: Seq<u8>, k: int) -> bool {
    0 <= k < b.len() && b[k] == TILDE && forall|j: int| 0 <= j < k ==> #[trigger] b[j] != TILDE
}

pub open spec fn has_tilde(b: Seq<u8>) -> bool {
    exists|k: int| 0 <= k < b.len() && #[trigger] b[k] == TILDE
}

/// The part of a reference before its first `~`.
pub open spec fn ref_base(b: Seq<u8>) -> Seq<u8> {
    if has_tilde(b) {
        b.subrange(0, choose|k: int| tilde_at(b, k))
    } else {
        b
    }
}

/// How many parents a reference walks back: the number after its first
/// `~`, or none; `None` where that number does not parse.
pub open spec fn ref_count(b: Seq<u8>) -> Option<usize> {
    if has_tilde(b) {
        let k = choose|k: int| tilde_at(b, k);
        parse_count(b.subrange(k + 1, b.len() as int))
    } else {
        Some(0)
    }
}

/// What a reference's base stands for: the head's name for `HEAD`, itself
/// otherwise.
pub open spec fn ref_start(b: Seq<u8>, head: Seq<u8>) -> Seq<u8> {
    if ref_base(b) == head_word() {
        hex_of(head)
    } else {
        ref_base(b)
    }
}

/// Where walking parents back from a full name ends.
pub enum Walk {
    Reached(Seq<u8>),
    NoPrevious,
    NotCommit(Seq<u8>),
    Unreadable,
}

pub open spec fn walk_back(s: Store, name: Seq<u8>, n: nat) -> Walk
    decreases n,
{
    if n == 0 {
        Walk::Reached(name)
    } else if s.named(name) && s.readable_at(s.index_named(name)) {
        match s.object_at(s.index_named(name)) {
            ObjectView::Commit(c) => walk_back(s, hex_of(c.parent), (n - 1) as nat),
            ObjectView::Null => Walk::NoPrevious,
            _ => Walk::NotCommit(s.hash_at(s.index_named(name))),
        }
    } else {
        Walk::Unreadable
    }
}

pub open spec fn walk_outcome(w: Walk, r: Result<String, EvsError>) -> bool {
    match w {
        Walk::Reached(x) => r matches Ok(t) && encode_utf8(t@) == x,
        Walk::NoPrevious => r matches Err(EvsError::NoPreviousCommit),
        Walk::NotCommit(h) => r matches Err(EvsError::NotACommit(x)) && x@ == h,
        Walk::Unreadable => r is Err,
    }
}

/// The full name that a reference resolves to, where resolution succeeds.
pub open spec fn resolved_name(s: Store, b: Seq<u8>, head: Seq<u8>) -> Option<Seq<u8>> {
    let id = ref_start(b, head);
    match ref_count(b) {
        None => None,
        Some(n) => if exists|i: int| s.selects(id, i) && crate::hash::is_hex_name(s.name_at(i)) {
            let i = choose|i: int| s.selects(id, i) && crate::hash::is_hex_name(s.name_at(i));
            match walk_back(s, s.name_at(i), n as nat) {
                Walk::Reached(x) => Some(x),
                _ => None,
            }
        } else {
            None
        },
    }
}

proof fn lemma_selects_unique(s: Store, id: Seq<u8>, i: int, j: int)
    requires
        s.first_match(id, i),
        s.first_match(id, j),
    ensures
        i == j,
{
    if i < j {
        assert(s.matches_at(id, i));
    }
    if j < i {
        assert(s.matches_at(id, j));
    }
}

/// Looks up a full name of 64 bytes.
fn lookup_full(s: &Store, name: &String) -> (r: Result<(crate::hash::Hash, Object), EvsError>)
    requires
        encode_utf8(name@).len() == 64,
    ensures
        s.named(encode_utf8(name@)) ==> read_outcome(
            s.name_at(s.index_named(encode_utf8(name@))),
            s.data_at(s.index_named(encode_utf8(name@))),
            r,
        ),
        !s.named(encode_utf8(name@)) ==> r matches Err(EvsError::ObjectNotInStore(_)),
{
    let r = s.lookup(name.as_str());
    proof {
        let n = encode_utf8(name@);
        if s.named(n) {
            lemma_named(*s, n);
        } else {
            lemma_not_named(*s, n);
        }
    }
    r
}

impl Repository {
    /// Which error resolving a reference gives: a count that does not
    /// parse, a base that names nothing or more than one object, a bad name,
    /// or a failed walk back.
    pub open spec fn resolve_errors(self, reference: Seq<char>, r: Result<String, EvsError>) -> bool {
        &&& ref_count(encode_utf8(reference)) is None ==> (r matches Err(EvsError::IntegerParseError))
        &&& (ref_count(encode_utf8(reference)) matches Some(n) ==> {
            let id = ref_start(encode_utf8(reference), self.info.head_spec()@);
            &&& self.store.no_match(id) ==> (r matches Err(EvsError::ObjectNotInStore(_)))
            &&& forall|i: int| #[trigger]
                self.store.ambiguous(id, i) ==> (r matches Err(EvsError::AmbiguousObject(_, _)))
            &&& forall|i: int| #[trigger]
                self.store.selects(id, i) ==> if crate::hash::is_hex_name(self.store.name_at(i)) {
                    walk_outcome(walk_back(self.store, self.store.name_at(i), n as nat), r)
                } else {
                    (r matches Err(EvsError::CorruptStateDetected(_)))
                }
        })
    }
}

impl Repository {
    /// Splits a reference at its first `~` and finds its base and count.
    fn split_reference(reference: &str) -> (r: (String, Option<usize>))
        ensures
            encode_utf8(r.0@) == ref_base(encode_utf8(reference@)),
            r.1 == ref_count(encode_utf8(reference@)),
    {
        let b = reference.as_bytes();
        let mut k: usize = 0;
        while k < b.len() && b[k] != TILDE
            invariant
                k <= b@.len(),
                forall|j: int| 0 <= j < k ==> #[trigger] b@[j] != TILDE,
            decreases b@.len() - k,
        {
            k += 1;
        }
        if k == b.len() {
            assert(!has_tilde(b@));
            return (reference.to_owned(), Some(0));
        }
        assert(tilde_at(b@, k as int));
        assert(has_tilde(b@));
        let ghost c = choose|c: int| tilde_at(b@, c);
        assert(c == k) by {
            if c < k {
                assert(b@[c] != TILDE);
            }
            if c > k {
                assert(b@[k as int] != TILDE);
            }
        }
        proof {
            vstd::utf8::encode_utf8_valid_utf8(reference@);
            vstd::utf8::is_char_boundary_iff_not_is_continuation_byte(b@, k as int);
        }
        let (base, _) = reference.split_at(k);
        let tail = b.split_at(k + 1).1;
        assert(encode_utf8(base@) == b@.subrange(0, k as int));
        (base.to_owned(), parse_count_exec(tail))
    }

    /// Resolves a reference to the full hex name of an object: `HEAD` or a
    /// full or partial name, then `~N` walks `N` parents back.
    pub fn resolve(&self, reference: &str) -> (r: Result<String, EvsError>)
        ensures
            r is Ok <==> resolved_name(self.store, encode_utf8(reference@), self.info.head_spec()@) is Some,
            r matches Ok(t) ==> encode_utf8(t@).len() == 64 && resolved_name(
                self.store,
                encode_utf8(reference@),
                self.info.head_spec()@,
            ) == Some(encode_utf8(t@)),
            self.resolve_errors(reference@, r),
    {
        let (base, count) = Repository::split_reference(reference);
        let count = match count {
            Some(n) => n,
            None => {
                return Err(EvsError::IntegerParseError);
            },
        };
        let word: [u8; 4] = [72, 69, 65, 68];
        assert(word@ =~= head_word());
        let start = if crate::hash::bytes_eq(base.as_str().as_bytes(), word.as_slice()) {
            hex_string(self.info.head().as_slice())
        } else {
            base
        };
        assert(encode_utf8(start@) == ref_start(encode_utf8(reference@), self.info.head_spec()@));
        let full = self.store.resolve_rest(start);
        let ghost id = ref_start(encode_utf8(reference@), self.info.head_spec()@);
        let mut cur = match full {
            Ok(name) => name,
            Err(e) => {
                proof {
                    if exists|i: int| self.store.selects(id, i) && crate::hash::is_hex_name(self.store.name_at(i)) {
                        let i = choose|i: int| self.store.selects(id, i) && crate::hash::is_hex_name(self.store.name_at(i));
                        if self.store.no_match(id) {
                            assert(self.store.matches_at(id, i));
                        }
                        assert forall|f: int| !#[trigger] self.store.ambiguous(id, f) by {
                            if self.store.ambiguous(id, f) {
                                lemma_selects_unique(self.store, id, i, f);
                                let j = choose|j: int| f < j && #[trigger] self.store.matches_at(id, j);
                                if id.len() == 64 {
                                } else {
                                    assert(!self.store.matches_at(id, j));
                                }
                            }
                        }
                    }
                }
                return Err(e);
            },
        };
        let ghost first = choose|i: int| self.store.selects(id, i);
        proof {
            if !self.store.no_match(id) {
                let j = choose|j: int| self.store.matches_at(id, j);
                crate::store::lemma_first_match_exists(self.store, id, j);
                let f = choose|f: int| f <= j && #[trigger] self.store.first_match(id, f);
                if self.store.ambiguous(id, f) {
                } else {
                    assert(self.store.selects(id, f));
                }
            }
        }
        assert(self.store.selects(id, first));
        assert(crate::hash::is_hex_name(self.store.name_at(first)));
        assert(encode_utf8(cur@) == self.store.name_at(first));
        assert(forall|i: int| #[trigger] self.store.selects(id, i) ==> i == first) by {
            assert forall|i: int| #[trigger] self.store.selects(id, i) implies i == first by {
                lemma_selects_unique(self.store, id, i, first);
            }
        }
        let mut k: usize = 0;
        while k < count
            invariant
                k <= count,
                encode_utf8(cur@).len() == 64,
                ref_count(encode_utf8(reference@)) == Some(count),
                id == ref_start(encode_utf8(reference@), self.info.head_spec()@),
                self.store.selects(id, first),
                crate::hash::is_hex_name(self.store.name_at(first)),
                forall|i: int| #[trigger] self.store.selects(id, i) ==> i == first,
                walk_back(self.store, self.store.name_at(first), count as nat) == walk_back(
                    self.store,
                    encode_utf8(cur@),
                    (count - k) as nat,
                ),
            decreases count - k,
        {
            let looked = lookup_full(&self.store, &cur);
            let ghost n = encode_utf8(cur@);
            match looked {
                Ok((_, Object::Commit(c))) => {
                    let next = hex_string(c.parent.as_slice());
                    proof {
                        crate::hash::lemma_hex_of_hash_is_name(c.parent@);
                    }
                    cur = next;
                },
                Ok((h, Object::Null)) => {
                    proof {
                        let i = choose|i: int| self.store.selects(id, i) && crate::hash::is_hex_name(self.store.name_at(i));
                        assert(i == first);
                    }
                    return Err(EvsError::NoPreviousCommit);
                },
                Ok((h, _)) => {
                    proof {
                        let i = choose|i: int| self.store.selects(id, i) && crate::hash::is_hex_name(self.store.name_at(i));
                        assert(i == first);
                    }
                    return Err(EvsError::NotACommit(h));
                },
                Err(e) => {
                    proof {
                        let i = choose|i: int| self.store.selects(id, i) && crate::hash::is_hex_name(self.store.name_at(i));
                        assert(i == first);
                    }
                    return Err(e);
                },
            }
            k += 1;
        }
        proof {
            let i = choose|i: int| self.store.selects(id, i) && crate::hash::is_hex_name(self.store.name_at(i));
            assert(i == first);
        }
        Ok(cur)
    }
}

/// The digests of the commits that a log lists from a full name: at most
/// `limit`, stopping at the root of history; `None` where an object on the
/// way cannot be read or is neither a commit nor the root.
pub open spec fn log_chain(s: Store, name: Seq<u8>, limit: nat) -> Option<Seq<Seq<u8>>>
    decreases limit,
{
    if limit == 0 {
        Some(seq![])
    } else if s.named(name) && s.readable_at(s.index_named(name)) {
        match s.object_at(s.index_named(name)) {
            ObjectView::Null => Some(seq![]),
            ObjectView::Commit(c) => match log_chain(s, hex_of(c.parent), (limit - 1) as nat) {
                Some(rest) => Some(seq![s.hash_at(s.index_named(name))] + rest),
                None => None,
            },
            _ => None,
        }
    } else {
        None
    }
}

impl Repository {
    /// Resolves a reference and reads the object it names.
    pub fn lookup(&self, reference: &str) -> (r: Result<(crate::hash::Hash, Object), EvsError>)
        ensures
            resolved_name(self.store, encode_utf8(reference@), self.info.head_spec()@) is None ==> (
            r matches Err(e) && self.resolve_errors(reference@, Err(e))),
            resolved_name(self.store, encode_utf8(reference@), self.info.head_spec()@) matches Some(x) ==> {
                &&& self.store.named(x) ==> read_outcome(
                    self.store.name_at(self.store.index_named(x)),
                    self.store.data_at(self.store.index_named(x)),
                    r,
                )
                &&& !self.store.named(x) ==> (r matches Err(EvsError::ObjectNotInStore(_)))
            },
    {
        let name = match self.resolve(reference) {
            Ok(n) => n,
            Err(e) => {
                return Err(e);
            },
        };
        lookup_full(&self.store, &name)
    }

    /// Lists up to `limit` commits, newest first, from the commit that a
    /// reference names back to the root of history.
    #[verifier::rlimit(60)]
    pub fn log(&self, reference: &str, limit: usize) -> (r: Result<Vec<(crate::hash::Hash, Commit)>, EvsError>)
        ensures
            resolved_name(self.store, encode_utf8(reference@), self.info.head_spec()@) is None ==> (
            r matches Err(e) && self.resolve_errors(reference@, Err(e))),
            resolved_name(self.store, encode_utf8(reference@), self.info.head_spec()@) matches Some(x) ==> {
                &&& r is Ok <==> log_chain(self.store, x, limit as nat) is Some
                &&& r matches Ok(v) ==> v@.map_values(|e: (crate::hash::Hash, Commit)| e.0@) == log_chain(
                    self.store,
                    x,
                    limit as nat,
                ).unwrap()
            },
    {
        let mut cur = match self.resolve(reference) {
            Ok(n) => n,
            Err(e) => {
                return Err(e);
            },
        };
        let ghost x = encode_utf8(cur@);
        let mut out: Vec<(crate::hash::Hash, Commit)> = Vec::new();
        let mut k: usize = 0;
        while k < limit
            invariant
                k <= limit,
                encode_utf8(cur@).len() == 64,
                resolved_name(self.store, encode_utf8(reference@), self.info.head_spec()@) == Some(x),
                log_chain(self.store, x, limit as nat) == match log_chain(
                    self.store,
                    encode_utf8(cur@),
                    (limit - k) as nat,
                ) {
                    Some(rest) => Some(out@.map_values(|e: (crate::hash::Hash, Commit)| e.0@) + rest),
                    None => None,
                },
            decreases limit - k,
        {
            let looked = lookup_full(&self.store, &cur);
            let ghost n = encode_utf8(cur@);
            match looked {
                Ok((h, Object::Commit(c))) => {
                    let next = hex_string(c.parent.as_slice());
                    proof {
                        crate::hash::lemma_hex_of_hash_is_name(c.parent@);
                    }
                    let ghost before = out@.map_values(|e: (crate::hash::Hash, Commit)| e.0@);
                    out.push((h, c));
                    proof {
                        let after = out@.map_values(|e: (crate::hash::Hash, Commit)| e.0@);
                        assert(after =~= before.push(h@));
                        match log_chain(self.store, encode_utf8(next@), (limit - k - 1) as nat) {
                            Some(rest) => {
                                assert(before + (seq![h@] + rest) =~= after + rest);
                            },
                            None => {},
                        }
                    }
                    cur = next;
                },
                Ok((_, Object::Null)) => {
                    assert(out@.map_values(|e: (crate::hash::Hash, Commit)| e.0@) + Seq::<Seq<u8>>::empty()
                        =~= out@.map_values(|e: (crate::hash::Hash, Commit)| e.0@));
                    return Ok(out);
                },
                Ok((h, _)) => {
                    return Err(EvsError::NotACommit(h));
                },
                Err(e) => {
                    return Err(e);
                },
            }
            k += 1;
        }
        assert(out@.map_values(|e: (crate::hash::Hash, Commit)| e.0@) + Seq::<Seq<u8>>::empty()
            =~= out@.map_values(|e: (crate::hash::Hash, Commit)| e.0@));
        Ok(out)
    }
}

} // verus!
