//! Byte-wise lexicographic order and the sorting of tree entries by name.
use vstd::prelude::*;
use vstd::multiset::Multiset;
use vstd::relations::{sorted_by, total_ordering};
use crate::objects::{EntryView, TreeEntry};

verus! {

broadcast use vstd::seq_lib::to_multiset_build, vstd::seq_lib::to_multiset_insert,
    vstd::multiset::group_multiset_axioms, vstd::seq_lib::group_to_multiset_ensures;

/// `a` sorts strictly before `b`, byte by byte, a proper prefix first.
pub open spec fn lex_lt(a: Seq<u8>, b: Seq<u8>) -> bool
    decreases a.len(),
{
    if a.len() == 0 {
        b.len() > 0
    } else if b.len() == 0 {
        false
    } else if a[0] != b[0] {
        a[0] < b[0]
    } else {
        lex_lt(a.drop_first(), b.drop_first())
    }
}

/// No two entries share a name.
pub open spec fn names_unique(s: Seq<EntryView>) -> bool {
    forall|i: int, j: int| 0 <= i < j < s.len() ==> #[trigger] s[i].name != #[trigger] s[j].name
}

/// Entries ordered by name, then by content.
pub open spec fn entry_lt(a: EntryView, b: EntryView) -> bool {
    lex_lt(a.name, b.name) || (a.name == b.name && lex_lt(a.content, b.content))
}

pub open spec fn entry_le(a: EntryView, b: EntryView) -> bool {
    a == b || entry_lt(a, b)
}

/// The order in which a tree's entries are stored.
pub open spec fn entry_order() -> spec_fn(EntryView, EntryView) -> bool {
    |a: EntryView, b: EntryView| entry_le(a, b)
}

/// The stored arrangement of a tree's entries.
pub open spec fn canonical_entries(es: Seq<EntryView>) -> Seq<EntryView> {
    es.sort_by(entry_order())
}

pub proof fn lemma_lex_irreflexive(a: Seq<u8>)
    ensures
        !lex_lt(a, a),
    decreases a.len(),
{
    if a.len() > 0 {
        lemma_lex_irreflexive(a.drop_first());
    }
}

pub proof fn lemma_lex_asymmetric(a: Seq<u8>, b: Seq<u8>)
    requires
        lex_lt(a, b),
    ensures
        !lex_lt(b, a),
    decreases a.len(),
{
    if a.len() > 0 && b.len() > 0 && a[0] == b[0] {
        lemma_lex_asymmetric(a.drop_first(), b.drop_first());
    }
}

pub proof fn lemma_lex_transitive(a: Seq<u8>, b: Seq<u8>, c: Seq<u8>)
    requires
        lex_lt(a, b),
        lex_lt(b, c),
    ensures
        lex_lt(a, c),
    decreases a.len(),
{
    if a.len() > 0 && b.len() > 0 && c.len() > 0 && a[0] == b[0] && b[0] == c[0] {
        lemma_lex_transitive(a.drop_first(), b.drop_first(), c.drop_first());
    }
}

pub proof fn lemma_lex_total(a: Seq<u8>, b: Seq<u8>)
    requires
        a != b,
    ensures
        lex_lt(a, b) || lex_lt(b, a),
    decreases a.len(),
{
    if a.len() > 0 && b.len() > 0 && a[0] == b[0] {
        if a.drop_first() == b.drop_first() {
            assert(a =~= seq![a[0]] + a.drop_first());
            assert(b =~= seq![b[0]] + b.drop_first());
        }
        lemma_lex_total(a.drop_first(), b.drop_first());
    } else if a.len() == 0 && b.len() == 0 {
        assert(a =~= b);
    }
}

pub proof fn lemma_entry_lt_asymmetric(a: EntryView, b: EntryView)
    requires
        entry_lt(a, b),
    ensures
        !entry_lt(b, a),
        a != b,
{
    if lex_lt(a.name, b.name) {
        lemma_lex_asymmetric(a.name, b.name);
        lemma_lex_irreflexive(a.name);
    } else {
        lemma_lex_asymmetric(a.content, b.content);
        lemma_lex_irreflexive(a.content);
    }
}

pub proof fn lemma_entry_lt_transitive(a: EntryView, b: EntryView, c: EntryView)
    requires
        entry_lt(a, b),
        entry_lt(b, c),
    ensures
        entry_lt(a, c),
{
    if lex_lt(a.name, b.name) && lex_lt(b.name, c.name) {
        lemma_lex_transitive(a.name, b.name, c.name);
    }
    if a.name == b.name && b.name == c.name {
        lemma_lex_irreflexive(a.name);
        lemma_lex_transitive(a.content, b.content, c.content);
    }
}

pub proof fn lemma_entry_lt_total(a: EntryView, b: EntryView)
    ensures
        entry_lt(a, b) || entry_lt(b, a) || a == b,
{
    if a.name != b.name {
        lemma_lex_total(a.name, b.name);
    } else if a.content != b.content {
        lemma_lex_total(a.content, b.content);
    }
}

pub proof fn lemma_entry_order_total()
    ensures
        total_ordering(entry_order()),
{
    let le = entry_order();
    assert forall|a: EntryView, b: EntryView| #[trigger] le(a, b) && #[trigger] le(b, a) implies a
        == b by {
        if entry_lt(a, b) {
            lemma_entry_lt_asymmetric(a, b);
        }
    }
    assert forall|a: EntryView, b: EntryView, c: EntryView| #[trigger] le(a, b) && #[trigger] le(
        b,
        c,
    ) implies le(a, c) by {
        if entry_lt(a, b) && entry_lt(b, c) {
            lemma_entry_lt_transitive(a, b, c);
        }
    }
    assert forall|a: EntryView, b: EntryView| #[trigger] le(a, b) || #[trigger] le(b, a) by {
        lemma_entry_lt_total(a, b);
    }
}

/// A sorted arrangement of the same entries is the canonical one.
pub proof fn lemma_canonical_unique(s: Seq<EntryView>, es: Seq<EntryView>)
    requires
        sorted_by(s, entry_order()),
        s.to_multiset() == es.to_multiset(),
    ensures
        s == canonical_entries(es),
{
    lemma_entry_order_total();
    es.lemma_sort_by_ensures(entry_order());
    vstd::seq_lib::lemma_sorted_unique(s, canonical_entries(es), entry_order());
}

pub fn entry_lt_exec(a: &TreeEntry, b: &TreeEntry) -> (r: bool)
    ensures
        r == entry_lt(a@, b@),
{
    if bytes_lt(a.name.as_slice(), b.name.as_slice()) {
        true
    } else if bytes_lt(b.name.as_slice(), a.name.as_slice()) {
        false
    } else {
        proof {
            if a.name@ != b.name@ {
                lemma_lex_total(a.name@, b.name@);
            }
        }
        bytes_lt(a.content.as_slice(), b.content.as_slice())
    }
}

/// Compares two byte strings lexicographically.
pub fn bytes_lt(a: &[u8], b: &[u8]) -> (r: bool)
    ensures
        r == lex_lt(a@, b@),
{
    let mut i: usize = 0;
    assert(a@.subrange(0, a@.len() as int) =~= a@);
    assert(b@.subrange(0, b@.len() as int) =~= b@);
    while i < a.len() && i < b.len()
        invariant
            i <= a@.len(),
            i <= b@.len(),
            lex_lt(a@, b@) == lex_lt(a@.subrange(i as int, a@.len() as int), b@.subrange(i as int, b@.len() as int)),
        decreases a@.len() - i,
    {
        let ghost sa = a@.subrange(i as int, a@.len() as int);
        let ghost sb = b@.subrange(i as int, b@.len() as int);
        assert(sa[0] == a@[i as int] && sb[0] == b@[i as int]);
        if a[i] != b[i] {
            return a[i] < b[i];
        }
        assert(sa.drop_first() =~= a@.subrange(i + 1, a@.len() as int));
        assert(sb.drop_first() =~= b@.subrange(i + 1, b@.len() as int));
        i += 1;
    }
    i == a.len() && i < b.len()
}

/// Sorts entries by name, and entries of equal name by content.
pub fn sort_entries(es: Vec<TreeEntry>) -> (r: Vec<TreeEntry>)
    ensures
        r@.map_values(|e: TreeEntry| e@) == canonical_entries(es@.map_values(|e: TreeEntry| e@)),
{
    let ghost whole = es@.map_values(|e: TreeEntry| e@).to_multiset();
    let mut src = es;
    let mut r: Vec<TreeEntry> = Vec::new();
    assert(r@.map_values(|e: TreeEntry| e@) =~= Seq::<EntryView>::empty());
    assert(Seq::<EntryView>::empty().to_multiset() =~= Multiset::<EntryView>::empty());
    assert(Multiset::<EntryView>::empty().add(whole) =~= whole);
    while src.len() > 0
        invariant
            sorted_by(r@.map_values(|e: TreeEntry| e@), entry_order()),
            r@.map_values(|e: TreeEntry| e@).to_multiset().add(src@.map_values(|e: TreeEntry| e@).to_multiset()) == whole,
        decreases src@.len(),
    {
        let ghost old_src = src@.map_values(|e: TreeEntry| e@);
        let e = src.pop().unwrap();
        assert(old_src =~= src@.map_values(|e: TreeEntry| e@).push(e@));
        let ghost rv = r@.map_values(|e: TreeEntry| e@);
        let mut k: usize = 0;
        while k < r.len() && entry_lt_exec(&r[k], &e)
            invariant
                k <= r@.len(),
                rv == r@.map_values(|e: TreeEntry| e@),
                forall|i: int| 0 <= i < k ==> entry_lt(#[trigger] rv[i], e@),
            decreases r@.len() - k,
        {
            k += 1;
        }
        proof {
            let nv = rv.insert(k as int, e@);
            let le = entry_order();
            assert forall|i: int, j: int| 0 <= i < j < nv.len() implies le(#[trigger] nv[i], #[trigger] nv[j]) by {
                if j == k {
                    assert(nv[i] == rv[i]);
                } else if i == k {
                    let x = rv[j - 1];
                    assert(nv[j] == x);
                    assert(!entry_lt(rv[k as int], e@));
                    lemma_entry_lt_total(rv[k as int], e@);
                    if j - 1 > k {
                        assert(le(rv[k as int], x));
                        if entry_lt(rv[k as int], x) {
                            lemma_entry_lt_total(e@, x);
                            if entry_lt(x, e@) {
                                lemma_entry_lt_transitive(rv[k as int], x, e@);
                            }
                        }
                    }
                } else if i < k && j > k {
                    assert(nv[i] == rv[i] && nv[j] == rv[j - 1]);
                } else if j < k {
                    assert(nv[i] == rv[i] && nv[j] == rv[j]);
                } else {
                    assert(nv[i] == rv[i - 1] && nv[j] == rv[j - 1]);
                }
            }
        }
        r.insert(k, e);
        assert(r@.map_values(|e: TreeEntry| e@) =~= rv.insert(k as int, e@));
        assert(r@.map_values(|e: TreeEntry| e@).to_multiset().add(src@.map_values(|e: TreeEntry| e@).to_multiset()) =~= whole);
    }
    assert(src@.map_values(|e: TreeEntry| e@) =~= Seq::<EntryView>::empty());
    assert(Seq::<EntryView>::empty().to_multiset() =~= Multiset::<EntryView>::empty());
    assert(r@.map_values(|e: TreeEntry| e@).to_multiset().add(Multiset::<EntryView>::empty()) =~= r@.map_values(|e: TreeEntry| e@).to_multiset());
    proof {
        lemma_canonical_unique(r@.map_values(|e: TreeEntry| e@), es@.map_values(|e: TreeEntry| e@));
    }
    r
}

/// Names strictly increase along the entries: sorted, with no name twice.
pub open spec fn strictly_sorted(s: Seq<EntryView>) -> bool {
    forall|i: int, j: int| 0 <= i < j < s.len() ==> lex_lt(#[trigger] s[i].name, #[trigger] s[j].name)
}

pub proof fn lemma_strictly_sorted_unique(s: Seq<EntryView>)
    requires
        strictly_sorted(s),
    ensures
        names_unique(s),
{
    assert forall|i: int, j: int| 0 <= i < j < s.len() implies #[trigger] s[i].name != #[trigger] s[j].name by {
        lemma_lex_irreflexive(s[i].name);
    }
}

/// Whether the names of the entries strictly increase.
pub fn names_strictly_sorted(es: &Vec<TreeEntry>) -> (r: bool)
    ensures
        r == strictly_sorted(es@.map_values(|e: TreeEntry| e@)),
{
    let ghost v = es@.map_values(|e: TreeEntry| e@);
    if es.len() == 0 {
        return true;
    }
    let mut k: usize = 1;
    while k < es.len()
        invariant
            1 <= k <= es@.len(),
            v == es@.map_values(|e: TreeEntry| e@),
            forall|i: int, j: int| 0 <= i < j < k ==> lex_lt(#[trigger] v[i].name, #[trigger] v[j].name),
        decreases es@.len() - k,
    {
        if !bytes_lt(es[k - 1].name.as_slice(), es[k].name.as_slice()) {
            assert(!lex_lt(v[k - 1].name, v[k as int].name));
            return false;
        }
        proof {
            assert forall|i: int, j: int| 0 <= i < j < k + 1 implies lex_lt(#[trigger] v[i].name, #[trigger] v[j].name) by {
                if j == k && i < k - 1 {
                    lemma_lex_transitive(v[i].name, v[k - 1].name, v[j].name);
                }
            }
        }
        k += 1;
    }
    true
}

/// The canonical arrangement of entries with unique names has strictly
/// increasing names.
pub proof fn lemma_canonical_strictly_sorted(es: Seq<EntryView>)
    requires
        names_unique(es),
    ensures
        strictly_sorted(canonical_entries(es)),
        names_unique(canonical_entries(es)),
{
    let s = canonical_entries(es);
    lemma_entry_order_total();
    es.lemma_sort_by_ensures(entry_order());
    assert(es.no_duplicates()) by {
        assert forall|i: int, j: int| 0 <= i < es.len() && 0 <= j < es.len() && i != j implies es[i] != es[j] by {
            if i < j {
                assert(es[i].name != es[j].name);
            } else {
                assert(es[j].name != es[i].name);
            }
        }
    }
    es.lemma_multiset_has_no_duplicates();
    assert forall|x: EntryView| s.to_multiset().count(x) <= 1 by {
        assert(s.to_multiset().count(x) == es.to_multiset().count(x));
        if es.to_multiset().count(x) > 0 {
            assert(es.to_multiset().contains(x));
        }
    }
    s.lemma_multiset_has_no_duplicates_conv();
    assert forall|i: int, j: int| 0 <= i < j < s.len() implies #[trigger] s[i].name != #[trigger] s[j].name by {
        if s[i].name == s[j].name {
            assert(s[i] != s[j]);
            assert(s.contains(s[i]) && s.contains(s[j]));
            let a = choose|a: int| 0 <= a < es.len() && es[a] == s[i];
            let b = choose|b: int| 0 <= b < es.len() && es[b] == s[j];
            assert(a != b);
            if a < b {
                assert(es[a].name != es[b].name);
            } else {
                assert(es[b].name != es[a].name);
            }
        }
    }
    assert forall|i: int, j: int| 0 <= i < j < s.len() implies lex_lt(#[trigger] s[i].name, #[trigger] s[j].name) by {
        assert(entry_order()(s[i], s[j]));
        assert(s[i].name != s[j].name);
    }
}

} // verus!
