//! The order `String`s sort in, and a stable insertion sort of names.
use vstd::prelude::*;
use crate::text::{seq_le, seq_lt, to_chars};

verus! {

broadcast use vstd::seq_lib::group_to_multiset_ensures;

pub proof fn lemma_lt_irreflexive(a: Seq<char>)
    ensures
        !seq_lt(a, a),
    decreases a.len(),
{
    if a.len() > 0 {
        lemma_lt_irreflexive(a.drop_first());
    }
}

pub proof fn lemma_lt_asymmetric(a: Seq<char>, b: Seq<char>)
    ensures
        !(seq_lt(a, b) && seq_lt(b, a)),
    decreases a.len(),
{
    if a.len() > 0 && b.len() > 0 && a[0] == b[0] {
        lemma_lt_asymmetric(a.drop_first(), b.drop_first());
    }
}

pub proof fn lemma_lt_transitive(a: Seq<char>, b: Seq<char>, c: Seq<char>)
    requires
        seq_lt(a, b),
        seq_lt(b, c),
    ensures
        seq_lt(a, c),
    decreases a.len(),
{
    if a.len() > 0 && b.len() > 0 && c.len() > 0 {
        if a[0] == b[0] && b[0] == c[0] {
            lemma_lt_transitive(a.drop_first(), b.drop_first(), c.drop_first());
        }
    }
}

pub proof fn lemma_lt_total(a: Seq<char>, b: Seq<char>)
    ensures
        a == b || seq_lt(a, b) || seq_lt(b, a),
    decreases a.len(),
{
    if a.len() > 0 && b.len() > 0 && a[0] == b[0] {
        lemma_lt_total(a.drop_first(), b.drop_first());
        if a.drop_first() == b.drop_first() {
            assert(a =~= seq![a[0]] + a.drop_first());
            assert(b =~= seq![b[0]] + b.drop_first());
        }
    } else if a.len() == 0 && b.len() == 0 {
        assert(a =~= b);
    }
}

pub proof fn lemma_le_transitive(a: Seq<char>, b: Seq<char>, c: Seq<char>)
    requires
        seq_le(a, b),
        seq_le(b, c),
    ensures
        seq_le(a, c),
{
    if seq_lt(a, b) && seq_lt(b, c) {
        lemma_lt_transitive(a, b, c);
    }
}

/// Sorted by `String`'s order, equal elements allowed.
pub open spec fn sorted_texts(s: Seq<Seq<char>>) -> bool {
    forall|i: int, j: int| 0 <= i < j < s.len() ==> seq_le(#[trigger] s[i], #[trigger] s[j])
}

/// The character sequences of a list of strings.
pub open spec fn texts(v: Seq<String>) -> Seq<Seq<char>> {
    v.map_values(|s: String| s@)
}

/// `String`'s order as a relation, for vstd's sorting specifications.
pub open spec fn text_le() -> spec_fn(Seq<char>, Seq<char>) -> bool {
    |a: Seq<char>, b: Seq<char>| seq_le(a, b)
}

/// `String`'s order is a total order.
pub proof fn lemma_text_le_total()
    ensures
        vstd::relations::total_ordering(text_le()),
{
    assert forall|a: Seq<char>| #[trigger] text_le()(a, a) by {}
    assert forall|a: Seq<char>, b: Seq<char>| #[trigger] text_le()(a, b) && #[trigger] text_le()(b, a) implies a == b by {
        lemma_lt_asymmetric(a, b);
    }
    assert forall|a: Seq<char>, b: Seq<char>, c: Seq<char>|
        #[trigger] text_le()(a, b) && #[trigger] text_le()(b, c) implies #[trigger] text_le()(a, c) by {
        lemma_le_transitive(a, b, c);
    }
    assert forall|a: Seq<char>, b: Seq<char>| #[trigger] text_le()(a, b) || #[trigger] text_le()(b, a) by {
        lemma_lt_total(a, b);
    }
}

/// `s` sorted in `String`'s order.
pub open spec fn sorted_copy(s: Seq<Seq<char>>) -> Seq<Seq<char>> {
    s.sort_by(text_le())
}

/// A sorted arrangement of the elements of `s` is `sorted_copy(s)`.
pub proof fn lemma_sorted_copy_unique(s: Seq<Seq<char>>, t: Seq<Seq<char>>)
    requires
        sorted_texts(t),
        t.to_multiset() == s.to_multiset(),
    ensures
        t == sorted_copy(s),
{
    lemma_text_le_total();
    s.lemma_sort_by_ensures(text_le());
    assert(vstd::relations::sorted_by(t, text_le())) by {
        assert forall|i: int, j: int| 0 <= i < j < t.len() implies #[trigger] text_le()(t[i], t[j]) by {
            assert(seq_le(t[i], t[j]));
        }
    }
    vstd::seq_lib::lemma_sorted_unique(t, sorted_copy(s), text_le());
}

/// The elements of `ks` in `String`'s order, each once.
pub open spec fn sorted_keys(ks: Set<Seq<char>>) -> Seq<Seq<char>> {
    choose|ns: Seq<Seq<char>>|
        sorted_texts(ns) && ns.no_duplicates() && forall|k: Seq<char>| ks.contains(k) <==> #[trigger] ns.contains(k)
}

/// Listing a finite set names each element once.
proof fn lemma_to_seq_no_duplicates(ks: Set<Seq<char>>)
    requires
        ks.finite(),
    ensures
        ks.to_seq().no_duplicates(),
    decreases ks.len(),
{
    broadcast use vstd::set::group_set_axioms;
    broadcast use vstd::set_lib::lemma_set_empty_equivalency_len;

    if ks.len() > 0 {
        let x = ks.choose();
        let r = ks.remove(x);
        lemma_to_seq_no_duplicates(r);
        r.lemma_to_seq_to_set_id();
        let rs = r.to_seq();
        let t = ks.to_seq();
        assert(t == Seq::<Seq<char>>::empty().push(x) + rs);
        assert(!rs.contains(x)) by {
            if rs.contains(x) {
                assert(rs.to_set().contains(x));
            }
        }
        assert forall|i: int, j: int| 0 <= i < t.len() && 0 <= j < t.len() && i != j implies t[i] != t[j] by {
            if i == 0 {
                assert(t[j] == rs[j - 1]);
            } else if j == 0 {
                assert(t[i] == rs[i - 1]);
            } else {
                assert(t[i] == rs[i - 1] && t[j] == rs[j - 1]);
            }
        }
    }
}

/// A finite set has a sorted, duplicate-free listing, so `sorted_keys`
/// lists exactly its elements.
pub proof fn lemma_sorted_keys_exist(ks: Set<Seq<char>>)
    requires
        ks.finite(),
    ensures
        sorted_texts(sorted_keys(ks)),
        sorted_keys(ks).no_duplicates(),
        forall|k: Seq<char>| ks.contains(k) <==> #[trigger] sorted_keys(ks).contains(k),
{
    let l = ks.to_seq();
    ks.lemma_to_seq_to_set_id();
    lemma_to_seq_no_duplicates(ks);
    let t = sorted_copy(l);
    lemma_text_le_total();
    l.lemma_sort_by_ensures(text_le());
    assert(sorted_texts(t)) by {
        assert forall|i: int, j: int| 0 <= i < j < t.len() implies seq_le(#[trigger] t[i], #[trigger] t[j]) by {
            assert(text_le()(t[i], t[j]));
        }
    }
    assert(forall|k: Seq<char>| ks.contains(k) <==> #[trigger] t.contains(k)) by {
        assert forall|k: Seq<char>| ks.contains(k) <==> #[trigger] t.contains(k) by {
            assert(l.to_multiset().count(k) == t.to_multiset().count(k));
            if ks.contains(k) {
                assert(l.to_set().contains(k));
                assert(l.contains(k));
            }
            if t.contains(k) {
                assert(l.contains(k));
                assert(l.to_set().contains(k));
            }
        }
    }
    assert(t.no_duplicates()) by {
        l.lemma_multiset_has_no_duplicates();
        t.lemma_multiset_has_no_duplicates_conv();
    }
}

/// A sorted, duplicate-free listing of exactly `ks` is `sorted_keys(ks)`.
pub proof fn lemma_sorted_keys_unique(ks: Set<Seq<char>>, ns: Seq<Seq<char>>)
    requires
        sorted_texts(ns),
        ns.no_duplicates(),
        forall|k: Seq<char>| ks.contains(k) <==> #[trigger] ns.contains(k),
    ensures
        ns == sorted_keys(ks),
{
    let c = sorted_keys(ks);
    assert(sorted_texts(c) && c.no_duplicates() && forall|k: Seq<char>| ks.contains(k) <==> #[trigger] c.contains(k));
    ns.lemma_multiset_has_no_duplicates();
    c.lemma_multiset_has_no_duplicates();
    assert(ns.to_multiset() =~= c.to_multiset()) by {
        assert forall|k: Seq<char>| #[trigger] ns.to_multiset().count(k) == c.to_multiset().count(k) by {
            if ns.contains(k) {
                assert(c.contains(k));
            } else {
                assert(!c.contains(k));
            }
        }
    }
    lemma_sorted_copy_unique(c, ns);
    lemma_sorted_copy_unique(c, c);
}

/// `a < b` in `String`'s order.
pub fn str_lt(a: &str, b: &str) -> (r: bool)
    ensures
        r == seq_lt(a@, b@),
{
    let av = to_chars(a);
    let bv = to_chars(b);
    let mut i: usize = 0;
    proof {
        assert(a@.skip(0) =~= a@);
        assert(b@.skip(0) =~= b@);
    }
    while i < av.len() && i < bv.len() && av[i] == bv[i]
        invariant
            i <= av@.len(),
            i <= bv@.len(),
            av@ == a@,
            bv@ == b@,
            seq_lt(a@, b@) == seq_lt(a@.skip(i as int), b@.skip(i as int)),
        decreases av@.len() - i,
    {
        proof {
            assert(a@.skip(i as int).drop_first() =~= a@.skip(i + 1int));
            assert(b@.skip(i as int).drop_first() =~= b@.skip(i + 1int));
        }
        i = i + 1;
    }
    if i == av.len() {
        i < bv.len()
    } else if i == bv.len() {
        false
    } else {
        av[i] < bv[i]
    }
}

/// `v`, sorted in `String`'s order; equal strings keep their relative order.
pub fn sort_strings(v: &Vec<String>) -> (r: Vec<String>)
    ensures
        sorted_texts(texts(r@)),
        texts(r@).to_multiset() == texts(v@).to_multiset(),
        r@.len() == v@.len(),
        texts(r@) == sorted_copy(texts(v@)),
{
    let mut r: Vec<String> = Vec::new();
    let mut i: usize = 0;
    while i < v.len()
        invariant
            i <= v@.len(),
            r@.len() == i,
            sorted_texts(texts(r@)),
            texts(r@).to_multiset() == texts(v@.take(i as int)).to_multiset(),
        decreases v@.len() - i,
    {
        let x = v[i].clone();
        let mut p: usize = 0;
        while p < r.len() && !str_lt(x.as_str(), r[p].as_str())
            invariant
                p <= r@.len(),
                forall|k: int| 0 <= k < p ==> !seq_lt(x@, #[trigger] r@[k]@),
            decreases r@.len() - p,
        {
            p = p + 1;
        }
        let ghost old_r = r@;
        r.insert(p, x);
        proof {
            let tr = texts(r@);
            let to = texts(old_r);
            assert(tr =~= to.insert(p as int, x@));
            assert forall|a: int, b: int| 0 <= a < b < tr.len() implies seq_le(
                #[trigger] tr[a],
                #[trigger] tr[b],
            ) by {
                if a < p && b < p {
                    assert(tr[a] == to[a] && tr[b] == to[b]);
                } else if a < p && b == p {
                    lemma_lt_total(x@, to[a]);
                } else if a < p && b > p {
                    lemma_lt_total(x@, to[a]);
                    assert(tr[b] == to[b - 1]);
                    assert(seq_le(to[a], to[b - 1]));
                } else if a == p {
                    assert(tr[b] == to[b - 1]);
                    assert(seq_lt(x@, to[p as int]));
                    assert(seq_le(to[p as int], to[b - 1]));
                    lemma_le_transitive(x@, to[p as int], to[b - 1]);
                } else {
                    assert(tr[a] == to[a - 1] && tr[b] == to[b - 1]);
                }
            }
            assert(v@.take(i + 1int) =~= v@.take(i as int).push(v@[i as int]));
            assert(texts(v@.take(i + 1int)) =~= texts(v@.take(i as int)).push(x@));
        }
        i = i + 1;
    }
    proof {
        assert(v@.take(v@.len() as int) =~= v@);
        lemma_sorted_copy_unique(texts(v@), texts(r@));
    }
    r
}

} // verus!
