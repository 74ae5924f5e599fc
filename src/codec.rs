//! The canonical byte encoding of objects.
//!
//! Every object is one MessagePack value, and every length and integer in it
//! uses the widest header (`bin 32`, `str 32`, `array 32`, `uint 32`,
//! `uint 64`). Fixed-width headers make the encoding canonical: one object
//! has exactly one encoding, and tree entries are written in the order they
//! are held.
use vstd::prelude::*;
use vstd::utf8::{decode_utf8, encode_utf8, valid_utf8};
use crate::objects::{Commit, CommitView, EntryView, Object, ObjectView, Timestamp, TreeEntry};
use crate::external::string_from_utf8;
use crate::order::{names_strictly_sorted, strictly_sorted};

verus! {

pub const TAG_BIN: u8 = 0xc6;
pub const TAG_STR: u8 = 0xdb;
pub const TAG_ARRAY: u8 = 0xdd;
pub const TAG_U32: u8 = 0xce;
pub const TAG_U64: u8 = 0xcf;
pub const ARRAY_OF_1: u8 = 0x91;
pub const ARRAY_OF_2: u8 = 0x92;
pub const ARRAY_OF_8: u8 = 0x98;
pub const KIND_NULL: u8 = 0;
pub const KIND_BLOB: u8 = 1;
pub const KIND_TREE: u8 = 2;
pub const KIND_COMMIT: u8 = 3;

/// Largest length that a 32-bit header can carry, plus one.
pub open spec fn len_limit() -> nat {
    0x1_0000_0000
}

pub open spec fn enc_u32(n: u32) -> Seq<u8> {
    seq![(n >> 24u32) as u8, (n >> 16u32) as u8, (n >> 8u32) as u8, n as u8]
}

pub open spec fn dec_u32(s: Seq<u8>) -> u32 {
    ((s[0] as u32) << 24u32) | ((s[1] as u32) << 16u32) | ((s[2] as u32) << 8u32) | (s[3] as u32)
}

pub open spec fn enc_u64(n: u64) -> Seq<u8> {
    seq![
        (n >> 56u64) as u8,
        (n >> 48u64) as u8,
        (n >> 40u64) as u8,
        (n >> 32u64) as u8,
        (n >> 24u64) as u8,
        (n >> 16u64) as u8,
        (n >> 8u64) as u8,
        n as u8,
    ]
}

pub open spec fn dec_u64(s: Seq<u8>) -> u64 {
    ((s[0] as u64) << 56u64) | ((s[1] as u64) << 48u64) | ((s[2] as u64) << 40u64) | ((s[3] as u64)
        << 32u64) | ((s[4] as u64) << 24u64) | ((s[5] as u64) << 16u64) | ((s[6] as u64) << 8u64)
        | (s[7] as u64)
}

pub open spec fn enc_bin(b: Seq<u8>) -> Seq<u8> {
    seq![TAG_BIN] + enc_u32(b.len() as u32) + b
}

pub open spec fn enc_str(s: Seq<char>) -> Seq<u8> {
    seq![TAG_STR] + enc_u32(encode_utf8(s).len() as u32) + encode_utf8(s)
}

pub open spec fn enc_entry(e: EntryView) -> Seq<u8> {
    seq![ARRAY_OF_2] + enc_bin(e.name) + enc_bin(e.content)
}

pub open spec fn enc_entries(es: Seq<EntryView>) -> Seq<u8>
    decreases es.len(),
{
    if es.len() == 0 {
        seq![]
    } else {
        enc_entry(es[0]) + enc_entries(es.drop_first())
    }
}

/// The canonical encoding of an object.
pub open spec fn encode(o: ObjectView) -> Seq<u8> {
    match o {
        ObjectView::Null => seq![ARRAY_OF_1, KIND_NULL],
        ObjectView::Blob(b) => seq![ARRAY_OF_2, KIND_BLOB] + enc_bin(b),
        ObjectView::Tree(es) => seq![ARRAY_OF_2, KIND_TREE, TAG_ARRAY] + enc_u32(es.len() as u32)
            + enc_entries(es),
        ObjectView::Commit(c) => seq![ARRAY_OF_8, KIND_COMMIT] + enc_bin(c.parent) + enc_str(c.name)
            + enc_str(c.email) + enc_bin(c.tree) + enc_str(c.msg) + seq![TAG_U64] + enc_u64(c.secs)
            + seq![TAG_U32] + enc_u32(c.nanos),
    }
}

pub open spec fn entry_encodable(e: EntryView) -> bool {
    e.name.len() < len_limit() && e.content.len() == 32
}

/// An object that decoding accepts: encodable, and a tree's names strictly
/// increasing.
pub open spec fn well_formed(o: ObjectView) -> bool {
    encodable(o) && (o matches ObjectView::Tree(es) ==> strictly_sorted(es))
}

/// Every length in the object fits its 32-bit header, and every digest has
/// 32 bytes.
pub open spec fn encodable(o: ObjectView) -> bool {
    match o {
        ObjectView::Null => true,
        ObjectView::Blob(b) => b.len() < len_limit(),
        ObjectView::Tree(es) => es.len() < len_limit() && forall|i: int|
            0 <= i < es.len() ==> entry_encodable(#[trigger] es[i]),
        ObjectView::Commit(c) => c.parent.len() == 32 && c.tree.len() == 32 && encode_utf8(
            c.name,
        ).len() < len_limit() && encode_utf8(c.email).len() < len_limit() && encode_utf8(c.msg).len()
            < len_limit(),
    }
}

// ---------------------------------------------------------------------------
// Parsing, as spec functions over a byte sequence and a position.
// ---------------------------------------------------------------------------
pub open spec fn parse_u32(s: Seq<u8>, p: int) -> Option<(u32, int)> {
    if 0 <= p && p + 4 <= s.len() {
        Some((dec_u32(s.subrange(p, p + 4)), p + 4))
    } else {
        None
    }
}

pub open spec fn parse_u64(s: Seq<u8>, p: int) -> Option<(u64, int)> {
    if 0 <= p && p + 8 <= s.len() {
        Some((dec_u64(s.subrange(p, p + 8)), p + 8))
    } else {
        None
    }
}

/// A value behind a one-byte tag and a 32-bit length.
pub open spec fn parse_chunk(s: Seq<u8>, p: int, tag: u8) -> Option<(Seq<u8>, int)> {
    if 0 <= p < s.len() && s[p] == tag {
        match parse_u32(s, p + 1) {
            Some((n, q)) => if q + n <= s.len() {
                Some((s.subrange(q, q + n), q + n))
            } else {
                None
            },
            None => None,
        }
    } else {
        None
    }
}

pub open spec fn parse_bin(s: Seq<u8>, p: int) -> Option<(Seq<u8>, int)> {
    parse_chunk(s, p, TAG_BIN)
}

pub open spec fn parse_hash(s: Seq<u8>, p: int) -> Option<(Seq<u8>, int)> {
    match parse_bin(s, p) {
        Some((b, q)) => if b.len() == 32 {
            Some((b, q))
        } else {
            None
        },
        None => None,
    }
}

pub open spec fn parse_str(s: Seq<u8>, p: int) -> Option<(Seq<char>, int)> {
    match parse_chunk(s, p, TAG_STR) {
        Some((b, q)) => if valid_utf8(b) {
            Some((decode_utf8(b), q))
        } else {
            None
        },
        None => None,
    }
}

pub open spec fn parse_tagged_u32(s: Seq<u8>, p: int) -> Option<(u32, int)> {
    if 0 <= p < s.len() && s[p] == TAG_U32 {
        parse_u32(s, p + 1)
    } else {
        None
    }
}

pub open spec fn parse_tagged_u64(s: Seq<u8>, p: int) -> Option<(u64, int)> {
    if 0 <= p < s.len() && s[p] == TAG_U64 {
        parse_u64(s, p + 1)
    } else {
        None
    }
}

pub open spec fn parse_entry(s: Seq<u8>, p: int) -> Option<(EntryView, int)> {
    if 0 <= p < s.len() && s[p] == ARRAY_OF_2 {
        match parse_bin(s, p + 1) {
            Some((name, q)) => match parse_hash(s, q) {
                Some((h, r)) => Some((EntryView { name, content: h }, r)),
                None => None,
            },
            None => None,
        }
    } else {
        None
    }
}

pub open spec fn parse_entries(s: Seq<u8>, p: int, n: nat) -> Option<(Seq<EntryView>, int)>
    decreases n,
{
    if n == 0 {
        Some((seq![], p))
    } else {
        match parse_entry(s, p) {
            Some((e, q)) => match parse_entries(s, q, (n - 1) as nat) {
                Some((es, r)) => Some((seq![e] + es, r)),
                None => None,
            },
            None => None,
        }
    }
}

pub open spec fn parse_commit(s: Seq<u8>, p: int) -> Option<(CommitView, int)> {
    match parse_hash(s, p) {
        Some((parent, at1)) => match parse_str(s, at1) {
            Some((name, at2)) => match parse_str(s, at2) {
                Some((email, at3)) => match parse_hash(s, at3) {
                    Some((tree, at4)) => match parse_str(s, at4) {
                        Some((msg, at5)) => match parse_tagged_u64(s, at5) {
                            Some((secs, at6)) => match parse_tagged_u32(s, at6) {
                                Some((nanos, at7)) => Some(
                                    (CommitView { parent, name, email, tree, msg, secs, nanos }, at7),
                                ),
                                None => None,
                            },
                            None => None,
                        },
                        None => None,
                    },
                    None => None,
                },
                None => None,
            },
            None => None,
        },
        None => None,
    }
}

/// The object that a byte sequence encodes, if it encodes one.
pub open spec fn decode(s: Seq<u8>) -> Option<ObjectView> {
    if s.len() < 2 {
        None
    } else if s[0] == ARRAY_OF_1 && s[1] == KIND_NULL {
        if s.len() == 2 {
            Some(ObjectView::Null)
        } else {
            None
        }
    } else if s[0] == ARRAY_OF_2 && s[1] == KIND_BLOB {
        match parse_bin(s, 2) {
            Some((b, q)) => if q == s.len() {
                Some(ObjectView::Blob(b))
            } else {
                None
            },
            None => None,
        }
    } else if s[0] == ARRAY_OF_2 && s[1] == KIND_TREE {
        if s.len() > 2 && s[2] == TAG_ARRAY {
            match parse_u32(s, 3) {
                Some((n, q)) => match parse_entries(s, q, n as nat) {
                    Some((es, r)) => if r == s.len() && strictly_sorted(es) {
                        Some(ObjectView::Tree(es))
                    } else {
                        None
                    },
                    None => None,
                },
                None => None,
            }
        } else {
            None
        }
    } else if s[0] == ARRAY_OF_8 && s[1] == KIND_COMMIT {
        match parse_commit(s, 2) {
            Some((c, q)) => if q == s.len() {
                Some(ObjectView::Commit(c))
            } else {
                None
            },
            None => None,
        }
    } else {
        None
    }
}

// ---------------------------------------------------------------------------
// Round trip.
// ---------------------------------------------------------------------------
/// `x` stands in `s` at position `p`.
pub open spec fn at(s: Seq<u8>, p: int, x: Seq<u8>) -> bool {
    0 <= p && p + x.len() <= s.len() && s.subrange(p, p + x.len()) == x
}

proof fn lemma_at_split(s: Seq<u8>, p: int, x: Seq<u8>, y: Seq<u8>)
    requires
        at(s, p, x + y),
    ensures
        at(s, p, x),
        at(s, p + x.len(), y),
{
    let xy = x + y;
    let w = s.subrange(p, p + xy.len());
    assert(w == xy);
    assert(s.subrange(p, p + x.len()) =~= w.subrange(0, x.len() as int));
    assert(w.subrange(0, x.len() as int) =~= x);
    assert(s.subrange(p + x.len(), p + x.len() + y.len()) =~= w.subrange(
        x.len() as int,
        xy.len() as int,
    ));
    assert(w.subrange(x.len() as int, xy.len() as int) =~= y);
}

proof fn lemma_u32_round_trip(n: u32)
    ensures
        dec_u32(enc_u32(n)) == n,
{
    let b0 = (n >> 24u32) as u8;
    let b1 = (n >> 16u32) as u8;
    let b2 = (n >> 8u32) as u8;
    let b3 = n as u8;
    assert(((b0 as u32) << 24u32) | ((b1 as u32) << 16u32) | ((b2 as u32) << 8u32) | (b3 as u32)
        == n) by (bit_vector)
        requires
            b0 == (n >> 24u32) as u8,
            b1 == (n >> 16u32) as u8,
            b2 == (n >> 8u32) as u8,
            b3 == n as u8,
    ;
}

proof fn lemma_u64_round_trip(n: u64)
    ensures
        dec_u64(enc_u64(n)) == n,
{
    let b0 = (n >> 56u64) as u8;
    let b1 = (n >> 48u64) as u8;
    let b2 = (n >> 40u64) as u8;
    let b3 = (n >> 32u64) as u8;
    let b4 = (n >> 24u64) as u8;
    let b5 = (n >> 16u64) as u8;
    let b6 = (n >> 8u64) as u8;
    let b7 = n as u8;
    assert(((b0 as u64) << 56u64) | ((b1 as u64) << 48u64) | ((b2 as u64) << 40u64) | ((b3 as u64)
        << 32u64) | ((b4 as u64) << 24u64) | ((b5 as u64) << 16u64) | ((b6 as u64) << 8u64) | (b7 as u64)
        == n) by (bit_vector)
        requires
            b0 == (n >> 56u64) as u8,
            b1 == (n >> 48u64) as u8,
            b2 == (n >> 40u64) as u8,
            b3 == (n >> 32u64) as u8,
            b4 == (n >> 24u64) as u8,
            b5 == (n >> 16u64) as u8,
            b6 == (n >> 8u64) as u8,
            b7 == n as u8,
    ;
}

proof fn lemma_parse_u32(s: Seq<u8>, p: int, n: u32)
    requires
        at(s, p, enc_u32(n)),
    ensures
        parse_u32(s, p) == Some((n, p + 4)),
{
    lemma_u32_round_trip(n);
}

proof fn lemma_parse_u64(s: Seq<u8>, p: int, n: u64)
    requires
        at(s, p, enc_u64(n)),
    ensures
        parse_u64(s, p) == Some((n, p + 8)),
{
    lemma_u64_round_trip(n);
}

proof fn lemma_parse_chunk(s: Seq<u8>, p: int, tag: u8, b: Seq<u8>)
    requires
        b.len() < len_limit(),
        at(s, p, seq![tag] + enc_u32(b.len() as u32) + b),
    ensures
        parse_chunk(s, p, tag) == Some((b, p + 5 + b.len())),
{
    lemma_at_split(s, p, seq![tag] + enc_u32(b.len() as u32), b);
    lemma_at_split(s, p, seq![tag], enc_u32(b.len() as u32));
    assert(s[p] == s.subrange(p, p + 1)[0]);
    lemma_parse_u32(s, p + 1, b.len() as u32);
}

proof fn lemma_parse_bin(s: Seq<u8>, p: int, b: Seq<u8>)
    requires
        b.len() < len_limit(),
        at(s, p, enc_bin(b)),
    ensures
        parse_bin(s, p) == Some((b, p + enc_bin(b).len())),
{
    lemma_parse_chunk(s, p, TAG_BIN, b);
}

proof fn lemma_parse_str(s: Seq<u8>, p: int, t: Seq<char>)
    requires
        encode_utf8(t).len() < len_limit(),
        at(s, p, enc_str(t)),
    ensures
        parse_str(s, p) == Some((t, p + enc_str(t).len())),
{
    lemma_parse_chunk(s, p, TAG_STR, encode_utf8(t));
    vstd::utf8::encode_utf8_valid_utf8(t);
    vstd::utf8::encode_utf8_decode_utf8(t);
}

proof fn lemma_parse_tagged_u32(s: Seq<u8>, p: int, n: u32)
    requires
        at(s, p, seq![TAG_U32] + enc_u32(n)),
    ensures
        parse_tagged_u32(s, p) == Some((n, p + 5)),
{
    lemma_at_split(s, p, seq![TAG_U32], enc_u32(n));
    assert(s[p] == s.subrange(p, p + 1)[0]);
    lemma_parse_u32(s, p + 1, n);
}

proof fn lemma_parse_tagged_u64(s: Seq<u8>, p: int, n: u64)
    requires
        at(s, p, seq![TAG_U64] + enc_u64(n)),
    ensures
        parse_tagged_u64(s, p) == Some((n, p + 9)),
{
    lemma_at_split(s, p, seq![TAG_U64], enc_u64(n));
    assert(s[p] == s.subrange(p, p + 1)[0]);
    lemma_parse_u64(s, p + 1, n);
}

proof fn lemma_parse_entry(s: Seq<u8>, p: int, e: EntryView)
    requires
        entry_encodable(e),
        at(s, p, enc_entry(e)),
    ensures
        parse_entry(s, p) == Some((e, p + enc_entry(e).len())),
{
    let x = seq![ARRAY_OF_2];
    lemma_at_split(s, p, x + enc_bin(e.name), enc_bin(e.content));
    lemma_at_split(s, p, x, enc_bin(e.name));
    assert(s[p] == s.subrange(p, p + 1)[0]);
    lemma_parse_bin(s, p + 1, e.name);
    lemma_parse_bin(s, p + 1 + enc_bin(e.name).len(), e.content);
}

proof fn lemma_parse_entries(s: Seq<u8>, p: int, es: Seq<EntryView>)
    requires
        forall|i: int| 0 <= i < es.len() ==> entry_encodable(#[trigger] es[i]),
        at(s, p, enc_entries(es)),
    ensures
        parse_entries(s, p, es.len()) == Some((es, p + enc_entries(es).len())),
    decreases es.len(),
{
    if es.len() > 0 {
        let rest = es.drop_first();
        lemma_at_split(s, p, enc_entry(es[0]), enc_entries(rest));
        assert(entry_encodable(es[0]));
        lemma_parse_entry(s, p, es[0]);
        assert forall|i: int| 0 <= i < rest.len() implies entry_encodable(#[trigger] rest[i]) by {
            assert(rest[i] == es[i + 1]);
        }
        lemma_parse_entries(s, p + enc_entry(es[0]).len(), rest);
        assert(seq![es[0]] + rest =~= es);
    }
}

proof fn lemma_parse_commit(s: Seq<u8>, p: int, c: CommitView)
    requires
        encodable(ObjectView::Commit(c)),
        at(
            s,
            p,
            enc_bin(c.parent) + enc_str(c.name) + enc_str(c.email) + enc_bin(c.tree) + enc_str(c.msg)
                + (seq![TAG_U64] + enc_u64(c.secs)) + (seq![TAG_U32] + enc_u32(c.nanos)),
        ),
    ensures
        parse_commit(s, p) == Some(
            (
                c,
                p + (enc_bin(c.parent) + enc_str(c.name) + enc_str(c.email) + enc_bin(c.tree)
                    + enc_str(c.msg) + (seq![TAG_U64] + enc_u64(c.secs)) + (seq![TAG_U32]
                    + enc_u32(c.nanos))).len(),
            ),
        ),
{
    let x1 = enc_bin(c.parent);
    let x2 = x1 + enc_str(c.name);
    let x3 = x2 + enc_str(c.email);
    let x4 = x3 + enc_bin(c.tree);
    let x5 = x4 + enc_str(c.msg);
    let x6 = x5 + (seq![TAG_U64] + enc_u64(c.secs));
    lemma_at_split(s, p, x6, seq![TAG_U32] + enc_u32(c.nanos));
    lemma_at_split(s, p, x5, seq![TAG_U64] + enc_u64(c.secs));
    lemma_at_split(s, p, x4, enc_str(c.msg));
    lemma_at_split(s, p, x3, enc_bin(c.tree));
    lemma_at_split(s, p, x2, enc_str(c.email));
    lemma_at_split(s, p, x1, enc_str(c.name));
    lemma_parse_bin(s, p, c.parent);
    lemma_parse_str(s, p + x1.len(), c.name);
    lemma_parse_str(s, p + x2.len(), c.email);
    lemma_parse_bin(s, p + x3.len(), c.tree);
    lemma_parse_str(s, p + x4.len(), c.msg);
    lemma_parse_tagged_u64(s, p + x5.len(), c.secs);
    lemma_parse_tagged_u32(s, p + x6.len(), c.nanos);
}

proof fn lemma_whole(s: Seq<u8>)
    ensures
        at(s, 0, s),
{
    assert(s.subrange(0, s.len() as int) =~= s);
}

proof fn lemma_decode_blob(b: Seq<u8>)
    requires
        b.len() < len_limit(),
    ensures
        decode(encode(ObjectView::Blob(b))) == Some(ObjectView::Blob(b)),
{
    let s = encode(ObjectView::Blob(b));
    lemma_whole(s);
    lemma_at_split(s, 0, seq![ARRAY_OF_2, KIND_BLOB], enc_bin(b));
    lemma_parse_bin(s, 2, b);
    assert(s[0] == ARRAY_OF_2 && s[1] == KIND_BLOB);
}

proof fn lemma_decode_tree(es: Seq<EntryView>)
    requires
        encodable(ObjectView::Tree(es)),
        strictly_sorted(es),
    ensures
        decode(encode(ObjectView::Tree(es))) == Some(ObjectView::Tree(es)),
{
    let s = encode(ObjectView::Tree(es));
    lemma_whole(s);
    let h = seq![ARRAY_OF_2, KIND_TREE, TAG_ARRAY];
    lemma_at_split(s, 0, h + enc_u32(es.len() as u32), enc_entries(es));
    lemma_at_split(s, 0, h, enc_u32(es.len() as u32));
    lemma_parse_u32(s, 3, es.len() as u32);
    lemma_parse_entries(s, 7, es);
    assert(s[0] == ARRAY_OF_2 && s[1] == KIND_TREE && s[2] == TAG_ARRAY);
}

proof fn lemma_decode_commit(c: CommitView)
    requires
        encodable(ObjectView::Commit(c)),
    ensures
        decode(encode(ObjectView::Commit(c))) == Some(ObjectView::Commit(c)),
{
    let s = encode(ObjectView::Commit(c));
    lemma_whole(s);
    let x0 = seq![ARRAY_OF_8, KIND_COMMIT];
    let body = enc_bin(c.parent) + enc_str(c.name) + enc_str(c.email) + enc_bin(c.tree) + enc_str(
        c.msg,
    ) + (seq![TAG_U64] + enc_u64(c.secs)) + (seq![TAG_U32] + enc_u32(c.nanos));
    assert(s =~= x0 + body);
    lemma_at_split(s, 0, x0, body);
    lemma_parse_commit(s, 2, c);
    assert(s[0] == ARRAY_OF_8 && s[1] == KIND_COMMIT);
}

/// Decoding an encoding gives the object back.
pub proof fn lemma_decode_encode(o: ObjectView)
    requires
        well_formed(o),
    ensures
        decode(encode(o)) == Some(o),
{
    match o {
        ObjectView::Null => {},
        ObjectView::Blob(b) => lemma_decode_blob(b),
        ObjectView::Tree(es) => lemma_decode_tree(es),
        ObjectView::Commit(c) => lemma_decode_commit(c),
    }
}

proof fn lemma_parse_entries_encodable(s: Seq<u8>, p: int, n: nat)
    requires
        parse_entries(s, p, n) is Some,
    ensures
        parse_entries(s, p, n).unwrap().0.len() == n,
        forall|i: int|
            0 <= i < parse_entries(s, p, n).unwrap().0.len() ==> entry_encodable(
                #[trigger] parse_entries(s, p, n).unwrap().0[i],
            ),
    decreases n,
{
    if n > 0 {
        let (e, q) = parse_entry(s, p).unwrap();
        lemma_parse_entries_encodable(s, q, (n - 1) as nat);
        let es = parse_entries(s, p, n).unwrap().0;
        let rest = parse_entries(s, q, (n - 1) as nat).unwrap().0;
        assert(es == seq![e] + rest);
        assert forall|i: int| 0 <= i < es.len() implies entry_encodable(#[trigger] es[i]) by {
            if i > 0 {
                assert(es[i] == rest[i - 1]);
            }
        }
    }
}

/// A decoded tree can be encoded again.
pub proof fn lemma_decoded_tree_encodable(s: Seq<u8>)
    requires
        decode(s) matches Some(ObjectView::Tree(_)),
    ensures
        encodable(decode(s).unwrap()),
{
    let n = parse_u32(s, 3).unwrap().0;
    let q = parse_u32(s, 3).unwrap().1;
    lemma_parse_entries_encodable(s, q, n as nat);
}

/// A decoded tree has strictly increasing names.
pub proof fn lemma_decoded_tree_sorted(s: Seq<u8>)
    requires
        decode(s) matches Some(ObjectView::Tree(_)),
    ensures
        decode(s) matches Some(ObjectView::Tree(es)) && strictly_sorted(es),
{
}

/// Objects with equal encodings are equal.
pub proof fn lemma_encode_injective(a: ObjectView, b: ObjectView)
    requires
        well_formed(a),
        well_formed(b),
        encode(a) == encode(b),
    ensures
        a == b,
{
    lemma_decode_encode(a);
    lemma_decode_encode(b);
}

proof fn lemma_enc_entries_push(es: Seq<EntryView>, e: EntryView)
    ensures
        enc_entries(es.push(e)) == enc_entries(es) + enc_entry(e),
    decreases es.len(),
{
    if es.len() == 0 {
        let one = es.push(e);
        assert(one.drop_first() =~= Seq::<EntryView>::empty());
        assert(one[0] == e);
        assert(enc_entries(one.drop_first()) == Seq::<u8>::empty());
        assert(enc_entries(one) =~= enc_entry(e));
        assert(enc_entries(es) == Seq::<u8>::empty());
    } else {
        assert(es.push(e).drop_first() =~= es.drop_first().push(e));
        lemma_enc_entries_push(es.drop_first(), e);
        assert(enc_entries(es.push(e)) =~= enc_entries(es) + enc_entry(e));
    }
}

// ---------------------------------------------------------------------------
// Executable encoding.
// ---------------------------------------------------------------------------
fn put_u32(out: &mut Vec<u8>, n: u32)
    ensures
        final(out)@ == old(out)@ + enc_u32(n),
{
    out.push((n >> 24u32) as u8);
    out.push((n >> 16u32) as u8);
    out.push((n >> 8u32) as u8);
    out.push(n as u8);
    assert(out@ =~= old(out)@ + enc_u32(n));
}

fn put_u64(out: &mut Vec<u8>, n: u64)
    ensures
        final(out)@ == old(out)@ + enc_u64(n),
{
    out.push((n >> 56u64) as u8);
    out.push((n >> 48u64) as u8);
    out.push((n >> 40u64) as u8);
    out.push((n >> 32u64) as u8);
    out.push((n >> 24u64) as u8);
    out.push((n >> 16u64) as u8);
    out.push((n >> 8u64) as u8);
    out.push(n as u8);
    assert(out@ =~= old(out)@ + enc_u64(n));
}

fn put_bytes(out: &mut Vec<u8>, b: &[u8])
    ensures
        final(out)@ == old(out)@ + b@,
{
    let mut i: usize = 0;
    while i < b.len()
        invariant
            i <= b@.len(),
            out@ == old(out)@ + b@.subrange(0, i as int),
        decreases b@.len() - i,
    {
        out.push(b[i]);
        i += 1;
        assert(out@ =~= old(out)@ + b@.subrange(0, i as int));
    }
    assert(b@.subrange(0, b@.len() as int) =~= b@);
}

fn put_chunk(out: &mut Vec<u8>, tag: u8, b: &[u8])
    requires
        b@.len() < len_limit(),
    ensures
        final(out)@ == old(out)@ + (seq![tag] + enc_u32(b@.len() as u32) + b@),
{
    out.push(tag);
    put_u32(out, b.len() as u32);
    put_bytes(out, b);
    assert(out@ =~= old(out)@ + (seq![tag] + enc_u32(b@.len() as u32) + b@));
}

fn put_str(out: &mut Vec<u8>, t: &String)
    requires
        encode_utf8(t@).len() < len_limit(),
    ensures
        final(out)@ == old(out)@ + enc_str(t@),
{
    let b = t.as_str().as_bytes();
    put_chunk(out, TAG_STR, b);
}

fn put_entries(out: &mut Vec<u8>, es: &Vec<TreeEntry>)
    requires
        forall|i: int| 0 <= i < es@.len() ==> entry_encodable(#[trigger] es@[i]@),
    ensures
        final(out)@ == old(out)@ + enc_entries(es@.map_values(|e: TreeEntry| e@)),
{
    let ghost views = es@.map_values(|e: TreeEntry| e@);
    let mut i: usize = 0;
    while i < es.len()
        invariant
            i <= es@.len(),
            views == es@.map_values(|e: TreeEntry| e@),
            forall|j: int| 0 <= j < es@.len() ==> entry_encodable(#[trigger] es@[j]@),
            out@ == old(out)@ + enc_entries(views.subrange(0, i as int)),
        decreases es@.len() - i,
    {
        let e = &es[i];
        assert(entry_encodable(es@[i as int]@));
        out.push(ARRAY_OF_2);
        put_chunk(out, TAG_BIN, e.name.as_slice());
        put_chunk(out, TAG_BIN, e.content.as_slice());
        proof {
            assert(views.subrange(0, i + 1) =~= views.subrange(0, i as int).push(views[i as int]));
            lemma_enc_entries_push(views.subrange(0, i as int), views[i as int]);
            assert(out@ =~= old(out)@ + enc_entries(views.subrange(0, i + 1)));
        }
        i += 1;
    }
    assert(views.subrange(0, i as int) =~= views);
}

/// The canonical encoding of an object.
pub fn encode_object(o: &Object) -> (r: Vec<u8>)
    requires
        encodable(o@),
    ensures
        r@ == encode(o@),
{
    let mut out: Vec<u8> = Vec::new();
    match o {
        Object::Null => {
            out.push(ARRAY_OF_1);
            out.push(KIND_NULL);
        },
        Object::Blob(b) => {
            out.push(ARRAY_OF_2);
            out.push(KIND_BLOB);
            put_chunk(&mut out, TAG_BIN, b.as_slice());
        },
        Object::Tree(es) => {
            out.push(ARRAY_OF_2);
            out.push(KIND_TREE);
            out.push(TAG_ARRAY);
            put_u32(&mut out, es.len() as u32);
            proof {
                let views = es@.map_values(|e: TreeEntry| e@);
                assert forall|i: int| 0 <= i < es@.len() implies entry_encodable(
                    #[trigger] es@[i]@,
                ) by {
                    assert(views[i] == es@[i]@);
                }
            }
            put_entries(&mut out, es);
        },
        Object::Commit(c) => {
            out.push(ARRAY_OF_8);
            out.push(KIND_COMMIT);
            put_chunk(&mut out, TAG_BIN, c.parent.as_slice());
            put_str(&mut out, &c.name);
            put_str(&mut out, &c.email);
            put_chunk(&mut out, TAG_BIN, c.tree.as_slice());
            put_str(&mut out, &c.msg);
            out.push(TAG_U64);
            put_u64(&mut out, c.date.secs);
            out.push(TAG_U32);
            put_u32(&mut out, c.date.nanos);
        },
    }
    assert(out@ =~= encode(o@));
    out
}

// ---------------------------------------------------------------------------
// Executable decoding, one reader per spec parser.
// ---------------------------------------------------------------------------
fn get_u32(b: &[u8], p: usize) -> (r: Option<(u32, usize)>)
    ensures
        match r {
            Some((n, q)) => parse_u32(b@, p as int) == Some((n, q as int)),
            None => parse_u32(b@, p as int) is None,
        },
{
    if p <= b.len() && b.len() - p >= 4 {
        let n = ((b[p] as u32) << 24u32) | ((b[p + 1] as u32) << 16u32) | ((b[p + 2] as u32)
            << 8u32) | (b[p + 3] as u32);
        Some((n, p + 4))
    } else {
        None
    }
}

fn get_u64(b: &[u8], p: usize) -> (r: Option<(u64, usize)>)
    ensures
        match r {
            Some((n, q)) => parse_u64(b@, p as int) == Some((n, q as int)),
            None => parse_u64(b@, p as int) is None,
        },
{
    if p <= b.len() && b.len() - p >= 8 {
        let n = ((b[p] as u64) << 56u64) | ((b[p + 1] as u64) << 48u64) | ((b[p + 2] as u64)
            << 40u64) | ((b[p + 3] as u64) << 32u64) | ((b[p + 4] as u64) << 24u64) | ((b[p
            + 5] as u64) << 16u64) | ((b[p + 6] as u64) << 8u64) | (b[p + 7] as u64);
        Some((n, p + 8))
    } else {
        None
    }
}

fn copy_range(b: &[u8], start: usize, end: usize) -> (r: Vec<u8>)
    requires
        start <= end <= b@.len(),
    ensures
        r@ == b@.subrange(start as int, end as int),
{
    let mut r: Vec<u8> = Vec::new();
    let mut i = start;
    while i < end
        invariant
            start <= i <= end <= b@.len(),
            r@ == b@.subrange(start as int, i as int),
        decreases end - i,
    {
        r.push(b[i]);
        i += 1;
        assert(r@ =~= b@.subrange(start as int, i as int));
    }
    r
}

fn get_chunk(b: &[u8], p: usize, tag: u8) -> (r: Option<(Vec<u8>, usize)>)
    ensures
        match r {
            Some((v, q)) => parse_chunk(b@, p as int, tag) == Some((v@, q as int)),
            None => parse_chunk(b@, p as int, tag) is None,
        },
{
    if p < b.len() && b[p] == tag {
        match get_u32(b, p + 1) {
            Some((n, q)) => {
                if n as usize <= b.len() - q {
                    let end = q + n as usize;
                    Some((copy_range(b, q, end), end))
                } else {
                    None
                }
            },
            None => None,
        }
    } else {
        None
    }
}

fn get_hash(b: &[u8], p: usize) -> (r: Option<(crate::hash::Hash, usize)>)
    ensures
        match r {
            Some((h, q)) => parse_hash(b@, p as int) == Some((h@, q as int)),
            None => parse_hash(b@, p as int) is None,
        },
{
    match get_chunk(b, p, TAG_BIN) {
        Some((v, q)) => {
            if v.len() == 32 {
                let mut h = [0u8; 32];
                let mut i: usize = 0;
                while i < 32
                    invariant
                        i <= 32,
                        v@.len() == 32,
                        forall|j: int| 0 <= j < i ==> h@[j] == v@[j],
                    decreases 32 - i,
                {
                    h[i] = v[i];
                    i += 1;
                }
                assert(h@ =~= v@);
                Some((h, q))
            } else {
                None
            }
        },
        None => None,
    }
}

fn get_str(b: &[u8], p: usize) -> (r: Option<(String, usize)>)
    ensures
        match r {
            Some((t, q)) => parse_str(b@, p as int) == Some((t@, q as int)),
            None => parse_str(b@, p as int) is None,
        },
{
    match get_chunk(b, p, TAG_STR) {
        Some((v, q)) => match string_from_utf8(v) {
            Some(t) => Some((t, q)),
            None => None,
        },
        None => None,
    }
}

fn get_tagged_u32(b: &[u8], p: usize) -> (r: Option<(u32, usize)>)
    ensures
        match r {
            Some((n, q)) => parse_tagged_u32(b@, p as int) == Some((n, q as int)),
            None => parse_tagged_u32(b@, p as int) is None,
        },
{
    if p < b.len() && b[p] == TAG_U32 {
        get_u32(b, p + 1)
    } else {
        None
    }
}

fn get_tagged_u64(b: &[u8], p: usize) -> (r: Option<(u64, usize)>)
    ensures
        match r {
            Some((n, q)) => parse_tagged_u64(b@, p as int) == Some((n, q as int)),
            None => parse_tagged_u64(b@, p as int) is None,
        },
{
    if p < b.len() && b[p] == TAG_U64 {
        get_u64(b, p + 1)
    } else {
        None
    }
}

fn get_entry(b: &[u8], p: usize) -> (r: Option<(TreeEntry, usize)>)
    ensures
        match r {
            Some((e, q)) => parse_entry(b@, p as int) == Some((e@, q as int)),
            None => parse_entry(b@, p as int) is None,
        },
{
    if p < b.len() && b[p] == ARRAY_OF_2 {
        match get_chunk(b, p + 1, TAG_BIN) {
            Some((name, q)) => match get_hash(b, q) {
                Some((content, r)) => Some((TreeEntry { name, content }, r)),
                None => None,
            },
            None => None,
        }
    } else {
        None
    }
}

fn get_entries(b: &[u8], p: usize, n: u32) -> (r: Option<(Vec<TreeEntry>, usize)>)
    ensures
        match r {
            Some((es, q)) => parse_entries(b@, p as int, n as nat) == Some(
                (es@.map_values(|e: TreeEntry| e@), q as int),
            ),
            None => parse_entries(b@, p as int, n as nat) is None,
        },
{
    let mut es: Vec<TreeEntry> = Vec::new();
    let mut k: u32 = 0;
    let mut q = p;
    while k < n
        invariant
            k <= n,
            parse_entries(b@, p as int, n as nat) == match parse_entries(
                b@,
                q as int,
                (n - k) as nat,
            ) {
                Some((rest, end)) => Some((es@.map_values(|e: TreeEntry| e@) + rest, end)),
                None => None,
            },
        decreases n - k,
    {
        match get_entry(b, q) {
            Some((e, q2)) => {
                let ghost before = es@.map_values(|e: TreeEntry| e@);
                es.push(e);
                proof {
                    let after = es@.map_values(|e: TreeEntry| e@);
                    assert(after =~= before.push(e@));
                    match parse_entries(b@, q2 as int, (n - k - 1) as nat) {
                        Some((rest, end)) => {
                            assert(before + (seq![e@] + rest) =~= after + rest);
                        },
                        None => {},
                    }
                }
                q = q2;
                k += 1;
            },
            None => {
                return None;
            },
        }
    }
    assert(es@.map_values(|e: TreeEntry| e@) + Seq::<EntryView>::empty() =~= es@.map_values(
        |e: TreeEntry| e@,
    ));
    Some((es, q))
}

fn get_commit(b: &[u8], p: usize) -> (r: Option<(Commit, usize)>)
    ensures
        match r {
            Some((c, q)) => parse_commit(b@, p as int) == Some((c@, q as int)),
            None => parse_commit(b@, p as int) is None,
        },
{
    let (parent, at1) = match get_hash(b, p) {
        Some(x) => x,
        None => return None,
    };
    let (name, at2) = match get_str(b, at1) {
        Some(x) => x,
        None => return None,
    };
    let (email, at3) = match get_str(b, at2) {
        Some(x) => x,
        None => return None,
    };
    let (tree, at4) = match get_hash(b, at3) {
        Some(x) => x,
        None => return None,
    };
    let (msg, at5) = match get_str(b, at4) {
        Some(x) => x,
        None => return None,
    };
    let (secs, at6) = match get_tagged_u64(b, at5) {
        Some(x) => x,
        None => return None,
    };
    let (nanos, at7) = match get_tagged_u32(b, at6) {
        Some(x) => x,
        None => return None,
    };
    Some((Commit { parent, name, email, tree, msg, date: Timestamp { secs, nanos } }, at7))
}

/// Decodes an object, accepting exactly the canonical encodings.
pub fn decode_object(b: &[u8]) -> (r: Option<Object>)
    ensures
        match r {
            Some(o) => decode(b@) == Some(o@),
            None => decode(b@) is None,
        },
{
    if b.len() < 2 {
        None
    } else if b[0] == ARRAY_OF_1 && b[1] == KIND_NULL {
        if b.len() == 2 {
            Some(Object::Null)
        } else {
            None
        }
    } else if b[0] == ARRAY_OF_2 && b[1] == KIND_BLOB {
        match get_chunk(b, 2, TAG_BIN) {
            Some((v, q)) => if q == b.len() {
                Some(Object::Blob(v))
            } else {
                None
            },
            None => None,
        }
    } else if b[0] == ARRAY_OF_2 && b[1] == KIND_TREE {
        if b.len() > 2 && b[2] == TAG_ARRAY {
            match get_u32(b, 3) {
                Some((n, q)) => match get_entries(b, q, n) {
                    Some((es, end)) => if end == b.len() && names_strictly_sorted(&es) {
                        Some(Object::Tree(es))
                    } else {
                        None
                    },
                    None => None,
                },
                None => None,
            }
        } else {
            None
        }
    } else if b[0] == ARRAY_OF_8 && b[1] == KIND_COMMIT {
        match get_commit(b, 2) {
            Some((c, q)) => if q == b.len() {
                Some(Object::Commit(c))
            } else {
                None
            },
            None => None,
        }
    } else {
        None
    }
}

} // verus!
