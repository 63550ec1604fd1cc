//! Cleaning a metric profile before it is polled.
use vstd::prelude::*;

use crate::model::{entries_view, names_sorted, MetricProfile, ProfileEntry};
use crate::order::{
    insert_sorted, lemma_sorted_distinct_is, sorted_distinct, strictly_sorted, strs,
};
use crate::text::{blank, is_blank};

verus! {

/// The predicate that keeps keys with something besides white space in them.
pub open spec fn not_blank() -> spec_fn(Seq<char>) -> bool {
    |k: Seq<char>| !is_blank(k)
}

/// The keys polled under one object: the non-blank ones, each once, in increasing order.
pub open spec fn normalized_keys(keys: Seq<Seq<char>>) -> Seq<Seq<char>> {
    sorted_distinct(keys.filter(not_blank()).to_set())
}

/// A profile's entries with blank keys dropped, keys sorted and deduplicated, and objects left
/// with no key dropped; the remaining objects keep their order.
pub open spec fn spec_normalize(entries: Seq<ProfileEntry>) -> Seq<ProfileEntry>
    decreases entries.len(),
{
    if entries.len() == 0 {
        Seq::empty()
    } else {
        let prev = spec_normalize(entries.drop_last());
        let keys = normalized_keys(entries.last().1);
        if keys.len() > 0 {
            prev.push((entries.last().0, keys))
        } else {
            prev
        }
    }
}

pub proof fn lemma_push_to_set<A>(s: Seq<A>, x: A)
    ensures
        s.push(x).to_set() == s.to_set().insert(x),
{
    assert forall|y: A| s.push(x).to_set().contains(y) implies s.to_set().insert(x).contains(y) by {
        let k = choose|k: int| 0 <= k < s.push(x).len() && s.push(x)[k] == y;
        if k < s.len() {
            assert(s[k] == y);
        }
    }
    assert forall|y: A| s.to_set().insert(x).contains(y) implies s.push(x).to_set().contains(y) by {
        if y == x {
            assert(s.push(x)[s.len() as int] == y);
        } else {
            let k = choose|k: int| 0 <= k < s.len() && s[k] == y;
            assert(s.push(x)[k] == y);
        }
    }
    assert(s.push(x).to_set() =~= s.to_set().insert(x));
}

/// The non-blank keys of `keys`, each once, in increasing order.
pub fn unique_keys(keys: &Vec<String>) -> (r: Vec<String>)
    ensures
        strs(r@) == normalized_keys(strs(keys@)),
{
    let ghost ks = strs(keys@);
    let mut out: Vec<String> = Vec::new();
    let mut j: usize = 0;
    assert(ks.take(0) =~= Seq::<Seq<char>>::empty());
    assert(strs(out@).to_set() =~= Set::<Seq<char>>::empty());
    while j < keys.len()
        invariant
            ks == strs(keys@),
            j <= keys@.len(),
            strictly_sorted(strs(out@)),
            strs(out@).to_set() == ks.take(j as int).filter(not_blank()).to_set(),
        decreases keys.len() - j,
    {
        let ghost before = ks.take(j as int);
        assert(ks.take(j + 1) =~= before.push(ks[j as int]));
        proof {
            before.lemma_filter_push(ks[j as int], not_blank());
        }
        if !blank(keys[j].as_str()) {
            proof {
                lemma_push_to_set(before.filter(not_blank()), ks[j as int]);
            }
            insert_sorted(&mut out, keys[j].clone());
        }
        j = j + 1;
    }
    assert(ks.take(keys@.len() as int) =~= ks);
    proof {
        lemma_sorted_distinct_is(strs(out@));
    }
    out
}

/// Drops blank keys, sorts and deduplicates the rest, and drops objects left with no key.
///
/// Objects keep their order, so a profile whose object names were sorted still is.
pub fn normalize_profile(profile: MetricProfile) -> (r: MetricProfile)
    ensures
        r@ == spec_normalize(profile@),
        names_sorted(profile@) ==> names_sorted(r@),
{
    let ghost es = profile@;
    let mut objects: Vec<(String, Vec<String>)> = Vec::new();
    let mut i: usize = 0;
    assert(es.take(0) =~= Seq::<ProfileEntry>::empty());
    while i < profile.objects.len()
        invariant
            es == profile@,
            i <= profile.objects@.len(),
            entries_view(objects@) == spec_normalize(es.take(i as int)),
        decreases profile.objects.len() - i,
    {
        assert(es.take(i + 1).drop_last() =~= es.take(i as int));
        assert(es.take(i + 1).last() == es[i as int]);
        let keys = unique_keys(&profile.objects[i].1);
        if keys.len() > 0 {
            let name = profile.objects[i].0.clone();
            let ghost prev = objects@;
            objects.push((name, keys));
            assert(entries_view(objects@) =~= entries_view(prev).push((es[i as int].0, strs(keys@))));
        }
        i = i + 1;
    }
    assert(es.take(profile.objects@.len() as int) =~= es);
    let r = MetricProfile { objects };
    proof {
        if names_sorted(es) {
            lemma_normalize_subsequence(es);
        }
    }
    r
}

/// Every entry of the normalised list names an object of the input, at a position no earlier
/// than the entries before it.
proof fn lemma_normalize_subsequence(es: Seq<ProfileEntry>)
    requires
        names_sorted(es),
    ensures
        names_sorted(spec_normalize(es)),
        forall|k: int|
            0 <= k < spec_normalize(es).len() ==> exists|m: int|
                0 <= m < es.len() && #[trigger] spec_normalize(es)[k].0 == es[m].0,
    decreases es.len(),
{
    if es.len() > 0 {
        let prev = es.drop_last();
        assert(names_sorted(prev));
        lemma_normalize_subsequence(prev);
        let n = spec_normalize(prev);
        assert forall|k: int| 0 <= k < spec_normalize(es).len() implies exists|m: int|
            0 <= m < es.len() && #[trigger] spec_normalize(es)[k].0 == es[m].0 by {
            if k < n.len() {
                let m = choose|m: int| 0 <= m < prev.len() && n[k].0 == prev[m].0;
                assert(es[m] == prev[m]);
            } else {
                assert(spec_normalize(es)[k].0 == es[es.len() - 1].0);
            }
        }
        let keys = normalized_keys(es.last().1);
        if keys.len() > 0 {
            let r = n.push((es.last().0, keys));
            assert forall|p: int, q: int| 0 <= p < q < r.len() implies crate::order::lex_lt(
                #[trigger] r[p].0,
                #[trigger] r[q].0,
            ) by {
                if q == n.len() {
                    let m = choose|m: int| 0 <= m < prev.len() && n[p].0 == prev[m].0;
                    assert(lex_index(es, m, es.len() - 1));
                }
            }
        }
    }
}

spec fn lex_index(es: Seq<ProfileEntry>, m: int, l: int) -> bool {
    crate::order::lex_lt(es[m].0, es[l].0)
}

/// The keys kept for an object are strictly sorted, none of them blank, and they are exactly the
/// non-blank keys of the input.
pub proof fn lemma_normalized_keys(keys: Seq<Seq<char>>)
    ensures
        strictly_sorted(normalized_keys(keys)),
        normalized_keys(keys).to_set() == keys.filter(not_blank()).to_set(),
        forall|i: int|
            0 <= i < normalized_keys(keys).len() ==> !is_blank(#[trigger] normalized_keys(keys)[i]),
{
    let f = keys.filter(not_blank());
    crate::order::lemma_sorted_distinct(f);
    let u = normalized_keys(keys);
    assert forall|i: int| 0 <= i < u.len() implies !is_blank(#[trigger] u[i]) by {
        assert(u.to_set().contains(u[i]));
        let k = choose|k: int| 0 <= k < f.len() && f[k] == u[i];
        keys.lemma_filter_pred(not_blank(), k);
    }
}

proof fn lemma_filter_keeps_all(s: Seq<Seq<char>>)
    requires
        forall|i: int| 0 <= i < s.len() ==> !is_blank(#[trigger] s[i]),
    ensures
        s.filter(not_blank()) == s,
    decreases s.len(),
{
    if s.len() > 0 {
        lemma_filter_keeps_all(s.drop_last());
        s.drop_last().lemma_filter_push(s.last(), not_blank());
        assert(s.drop_last().push(s.last()) =~= s);
    } else {
        assert(s.filter(not_blank()) =~= s) by {
            reveal(Seq::filter);
        }
    }
}

/// Normalising a normalised profile changes nothing.
pub proof fn lemma_normalize_idempotent(entries: Seq<ProfileEntry>)
    ensures
        spec_normalize(spec_normalize(entries)) == spec_normalize(entries),
    decreases entries.len(),
{
    if entries.len() > 0 {
        let prev = entries.drop_last();
        lemma_normalize_idempotent(prev);
        let n = spec_normalize(prev);
        let u = normalized_keys(entries.last().1);
        if u.len() > 0 {
            let m = n.push((entries.last().0, u));
            assert(m.drop_last() =~= n);
            lemma_normalized_keys(entries.last().1);
            lemma_filter_keeps_all(u);
            lemma_sorted_distinct_is(u);
            assert(normalized_keys(u) == u);
        }
    }
}

/// A normalised profile has no object without keys, and under every object the keys are
/// strictly sorted and none is blank.
pub proof fn lemma_normalize_shape(entries: Seq<ProfileEntry>)
    ensures
        forall|i: int| 0 <= i < spec_normalize(entries).len() ==> {
            let e = #[trigger] spec_normalize(entries)[i];
            &&& e.1.len() > 0
            &&& strictly_sorted(e.1)
            &&& forall|j: int| 0 <= j < e.1.len() ==> !is_blank(#[trigger] e.1[j])
        },
    decreases entries.len(),
{
    if entries.len() > 0 {
        lemma_normalize_shape(entries.drop_last());
        lemma_normalized_keys(entries.last().1);
        let n = spec_normalize(entries.drop_last());
        let r = spec_normalize(entries);
        assert forall|i: int| 0 <= i < r.len() implies {
            let e = #[trigger] r[i];
            &&& e.1.len() > 0
            &&& strictly_sorted(e.1)
            &&& forall|j: int| 0 <= j < e.1.len() ==> !is_blank(#[trigger] e.1[j])
        } by {
            if i < n.len() {
                assert(r[i] == n[i]);
            }
        }
    }
}

/// A key is kept under an object exactly when it is a key of that object's input entry and is
/// not blank.
proof fn lemma_normalized_keys_contains(keys: Seq<Seq<char>>, k: Seq<char>)
    ensures
        normalized_keys(keys).contains(k) <==> keys.contains(k) && !is_blank(k),
{
    lemma_normalized_keys(keys);
    let f = keys.filter(not_blank());
    assert(normalized_keys(keys).to_set().contains(k) == normalized_keys(keys).contains(k));
    assert(f.to_set().contains(k) == f.contains(k));
    if f.contains(k) {
        let i = choose|i: int| 0 <= i < f.len() && f[i] == k;
        keys.lemma_filter_pred(not_blank(), i);
        keys.lemma_filter_contains_rev(not_blank(), k);
    }
    if keys.contains(k) && !is_blank(k) {
        let i = choose|i: int| 0 <= i < keys.len() && keys[i] == k;
        keys.lemma_filter_contains(not_blank(), i);
    }
}

/// Normalising keeps exactly the non-blank keys: the normalised profile lists key `k` under
/// object `o` exactly when the input lists `k`, not blank, under `o`.
pub proof fn lemma_normalize_members(entries: Seq<ProfileEntry>, o: Seq<char>, k: Seq<char>)
    ensures
        (exists|i: int|
            0 <= i < spec_normalize(entries).len() && (#[trigger] spec_normalize(entries)[i]).0 == o
                && spec_normalize(entries)[i].1.contains(k)) <==> (!is_blank(k) && exists|i: int|
            0 <= i < entries.len() && (#[trigger] entries[i]).0 == o && entries[i].1.contains(k)),
    decreases entries.len(),
{
    if entries.len() > 0 {
        let p = entries.drop_last();
        let e = entries.last();
        lemma_normalize_members(p, o, k);
        lemma_normalized_keys_contains(e.1, k);
        let n = spec_normalize(p);
        let r = spec_normalize(entries);
        let u = normalized_keys(e.1);
        if exists|i: int| 0 <= i < r.len() && (#[trigger] r[i]).0 == o && r[i].1.contains(k) {
            let i = choose|i: int| 0 <= i < r.len() && (#[trigger] r[i]).0 == o && r[i].1.contains(k);
            if i < n.len() {
                assert(r[i] == n[i]);
                let j = choose|j: int| 0 <= j < p.len() && (#[trigger] p[j]).0 == o && p[j].1.contains(k);
                assert(entries[j] == p[j]);
            } else {
                assert(r[i] == (e.0, u));
                assert(entries[entries.len() - 1] == e);
            }
        }
        if !is_blank(k) && exists|i: int|
            0 <= i < entries.len() && (#[trigger] entries[i]).0 == o && entries[i].1.contains(k) {
            let i = choose|i: int|
                0 <= i < entries.len() && (#[trigger] entries[i]).0 == o && entries[i].1.contains(k);
            if i < p.len() {
                assert(p[i] == entries[i]);
                let j = choose|j: int| 0 <= j < n.len() && (#[trigger] n[j]).0 == o && n[j].1.contains(k);
                if u.len() > 0 {
                    assert(r[j] == n[j]);
                }
            } else {
                assert(u.contains(k));
                assert(r[n.len() as int] == (e.0, u));
            }
        }
    }
}

} // verus!
