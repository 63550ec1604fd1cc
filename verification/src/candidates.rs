//! The candidate keys discovery asks a device about, and the profile it keeps of the answers.
//!
//! The candidates are built from the script first: every object it mentions, with the keys its
//! property registrations and control handlers name, and the keys that element ids in the
//! script spell out after an object name. Each page the script names then adds the keys its
//! element ids spell out. The device is asked for every candidate, and a key stays in the
//! profile when the device answers it with a value rather than a refusal word.
use vstd::prelude::*;

use crate::discovery::{
    firsts, pairs_of, extract_action_keys, extract_action_objects, extract_html_paths, extract_ids, extract_objects,
    extract_properties, extract_property_objects, spec_extract_action_keys,
    spec_extract_action_objects, spec_extract_html_paths, spec_extract_ids,
    spec_extract_objects, spec_extract_properties, spec_extract_property_objects,
};
use crate::model::{entries_view, names_sorted, spec_status, MetricProfile, ProfileEntry, ValueStatus};
use crate::order::{
    insert_sorted, lemma_sorted_distinct_is, lex_lt, sorted_distinct, strictly_sorted, strs,
};
use crate::profile::lemma_push_to_set;
use crate::query::{answers_map, assoc_map, exec_names_sorted, position_of, DeviceAnswers};
use crate::scan::{scan, Pattern};
use crate::text::{chars_at, chars_of, has_prefix, occurs_at, string_of};

verus! {

/// An (object, key) pair found in the web UI.
pub type NamePair = (Seq<char>, Seq<char>);

/// Every object name the script mentions: registered, given properties, or acted on.
pub open spec fn script_object_set(js: Seq<char>) -> Set<Seq<char>> {
    spec_extract_objects(js).to_set() + spec_extract_property_objects(js).to_set()
        + spec_extract_action_objects(js).to_set()
}

/// The script's object names, each once, in increasing order.
pub open spec fn script_objects(js: Seq<char>) -> Seq<Seq<char>> {
    sorted_distinct(script_object_set(js))
}

/// The object an element id belongs to, and the key it names: the first object from the `n`-th
/// on that the id starts with and is longer than.
pub open spec fn id_owner(objects: Seq<Seq<char>>, id: Seq<char>, n: int) -> Option<NamePair>
    decreases objects.len() - n,
{
    if n < 0 || n >= objects.len() {
        None
    } else if has_prefix(id, objects[n]) && id.len() > objects[n].len() {
        Some((objects[n], id.skip(objects[n].len() as int)))
    } else {
        id_owner(objects, id, n + 1)
    }
}

/// The (object, key) pairs the ids spell out, in order; ids that name no object are dropped.
pub open spec fn id_pairs(objects: Seq<Seq<char>>, ids: Seq<Seq<char>>) -> Seq<NamePair>
    decreases ids.len(),
{
    if ids.len() == 0 {
        Seq::empty()
    } else {
        let prev = id_pairs(objects, ids.drop_last());
        match id_owner(objects, ids.last(), 0) {
            Some(p) => prev.push(p),
            None => prev,
        }
    }
}

/// Every (object, key) pair the script itself yields.
pub open spec fn script_pairs(js: Seq<char>) -> Seq<NamePair> {
    spec_extract_properties(js) + spec_extract_action_keys(js) + id_pairs(
        script_objects(js),
        spec_extract_ids(js),
    )
}

/// The keys the pairs give `object`.
pub open spec fn keys_for(pairs: Seq<NamePair>, object: Seq<char>) -> Set<Seq<char>> {
    Set::new(|k: Seq<char>| pairs.contains((object, k)))
}

/// The entries with the keys `pairs` give each of their objects added; pairs for objects the
/// entries do not list are ignored.
pub open spec fn with_pairs(entries: Seq<ProfileEntry>, pairs: Seq<NamePair>) -> Seq<ProfileEntry> {
    Seq::new(
        entries.len(),
        |i: int|
            (entries[i].0, sorted_distinct(entries[i].1.to_set() + keys_for(pairs, entries[i].0))),
    )
}

/// Each object with no keys yet.
pub open spec fn bare_entries(objects: Seq<Seq<char>>) -> Seq<ProfileEntry> {
    objects.map_values(|o: Seq<char>| (o, Seq::<Seq<char>>::empty()))
}

/// The candidates the script yields: each object it mentions, in increasing order, with the keys
/// it gives that object, each once, in increasing order.
pub open spec fn spec_script_candidates(js: Seq<char>) -> Seq<ProfileEntry> {
    with_pairs(bare_entries(script_objects(js)), script_pairs(js))
}

/// The object names of the entries.
pub open spec fn entry_names(entries: Seq<ProfileEntry>) -> Seq<Seq<char>> {
    entries.map_values(|e: ProfileEntry| e.0)
}

/// The candidates once a page's element ids are added.
pub open spec fn spec_add_page(entries: Seq<ProfileEntry>, html: Seq<char>) -> Seq<ProfileEntry> {
    with_pairs(entries, id_pairs(entry_names(entries), spec_extract_ids(html)))
}

/// Object names sorted, and the keys of every object sorted: what a map of sets looks like.
pub open spec fn catalog_sorted(entries: Seq<ProfileEntry>) -> bool {
    &&& names_sorted(entries)
    &&& forall|i: int| 0 <= i < entries.len() ==> strictly_sorted(#[trigger] entries[i].1)
}

pub proof fn lemma_with_pairs_sorted(entries: Seq<ProfileEntry>, pairs: Seq<NamePair>, witness: Seq<ProfileEntry>)
    requires
        names_sorted(entries),
        witness.len() == entries.len(),
        forall|i: int| 0 <= i < entries.len() ==> (#[trigger] witness[i]).0 == entries[i].0 && strictly_sorted(witness[i].1)
            && witness[i].1.to_set() == entries[i].1.to_set() + keys_for(pairs, entries[i].0),
    ensures
        with_pairs(entries, pairs) == witness,
        catalog_sorted(witness),
{
    let w = with_pairs(entries, pairs);
    assert forall|i: int| 0 <= i < entries.len() implies w[i] == witness[i] by {
        lemma_sorted_distinct_is(witness[i].1);
    }
    assert(w =~= witness);
    assert forall|i: int, j: int| 0 <= i < j < witness.len() implies lex_lt(
        #[trigger] witness[i].0,
        #[trigger] witness[j].0,
    ) by {
        assert(lex_lt(entries[i].0, entries[j].0));
    }
}

/// Adds the key of each pair to the entry of its object, where there is one.
fn add_pairs(entries: &mut Vec<(String, Vec<String>)>, pairs: &Vec<(String, String)>)
    requires
        catalog_sorted(entries_view(old(entries)@)),
    ensures
        catalog_sorted(entries_view(final(entries)@)),
        entries_view(final(entries)@) == with_pairs(
            entries_view(old(entries)@),
            pairs@.map_values(|p: (String, String)| (p.0@, p.1@)),
        ),
{
    let ghost start = entries_view(entries@);
    let ghost ps = pairs@.map_values(|p: (String, String)| (p.0@, p.1@));
    let mut t: usize = 0;
    proof {
        assert forall|i: int| 0 <= i < start.len() implies (#[trigger] start[i]).1.to_set()
            == start[i].1.to_set() + keys_for(ps.take(0), start[i].0) by {
            assert(keys_for(ps.take(0), start[i].0) =~= Set::empty());
            assert(start[i].1.to_set() + Set::empty() =~= start[i].1.to_set());
        }
    }
    while t < pairs.len()
        invariant
            ps == pairs@.map_values(|p: (String, String)| (p.0@, p.1@)),
            t <= pairs@.len(),
            names_sorted(start),
            entries_view(entries@).len() == start.len(),
            forall|i: int| 0 <= i < start.len() ==> {
                let e = #[trigger] entries_view(entries@)[i];
                &&& e.0 == start[i].0
                &&& strictly_sorted(e.1)
                &&& e.1.to_set() == start[i].1.to_set() + keys_for(ps.take(t as int), start[i].0)
            },
        decreases pairs.len() - t,
    {
        let ghost before = entries_view(entries@);
        let ghost p = ps[t as int];
        assert(p == (pairs@[t as int].0@, pairs@[t as int].1@));
        assert(ps.take(t + 1) =~= ps.take(t as int).push(p));
        proof {
            assert forall|i: int, j: int| 0 <= i < j < entries@.len() implies lex_lt(
                #[trigger] entries@[i].0@,
                #[trigger] entries@[j].0@,
            ) by {
                assert(before[i].0 == entries@[i].0@);
                assert(before[j].0 == entries@[j].0@);
                assert(lex_lt(start[i].0, start[j].0));
            }
        }
        let (pos, found) = position_of(entries, pairs[t].0.as_str());
        if found {
            let (name, mut keys) = entries.remove(pos);
            let ghost old_keys = strs(keys@);
            assert(before[pos as int] == (name@, old_keys));
            insert_sorted(&mut keys, pairs[t].1.clone());
            let ghost new_keys = strs(keys@);
            entries.insert(pos, (name, keys));
            proof {
                let after = entries_view(entries@);
                assert(after =~= before.update(pos as int, (name@, new_keys)));
                assert forall|i: int| 0 <= i < start.len() implies {
                    let e = #[trigger] entries_view(entries@)[i];
                    &&& e.0 == start[i].0
                    &&& strictly_sorted(e.1)
                    &&& e.1.to_set() == start[i].1.to_set() + keys_for(ps.take(t + 1), start[i].0)
                } by {
                    let kf0 = keys_for(ps.take(t as int), start[i].0);
                    let kf1 = keys_for(ps.take(t + 1), start[i].0);
                    assert forall|k: Seq<char>| kf1.contains(k) <==> kf0.contains(k) || (p == (
                        start[i].0,
                        k,
                    )) by {
                        lemma_push_contains(ps.take(t as int), p, (start[i].0, k));
                    }
                    if i == pos {
                        assert(p.0 == start[i].0);
                        assert(after[i].1.to_set() =~= start[i].1.to_set() + kf1);
                    } else {
                        assert(after[i] == before[i]);
                        if p.0 == start[i].0 {
                            assert(lex_lt(start[i].0, start[pos as int].0) || lex_lt(start[pos as int].0, start[i].0));
                            crate::order::lemma_lex_irreflexive(start[i].0);
                        }
                        assert(kf1 =~= kf0);
                    }
                }
            }
        } else {
            proof {
                assert forall|i: int| 0 <= i < start.len() implies start[i].0 != p.0 by {
                    assert(before[i].0 == entries@[i].0@);
                    assert(before[i].0 == start[i].0);
                    assert(before[pos as int].0 == start[pos as int].0 || pos == start.len());
                    if i < pos {
                        assert(lex_lt(entries@[i].0@, p.0));
                        crate::order::lemma_lex_irreflexive(p.0);
                    } else {
                        assert(lex_lt(p.0, entries@[pos as int].0@));
                        if i > pos {
                            assert(lex_lt(start[pos as int].0, start[i].0));
                            crate::order::lemma_lex_transitive(p.0, start[pos as int].0, start[i].0);
                        }
                        crate::order::lemma_lex_irreflexive(p.0);
                    }
                }
                assert forall|i: int| 0 <= i < start.len() implies keys_for(ps.take(t + 1), start[i].0)
                    == keys_for(ps.take(t as int), start[i].0) by {
                    assert forall|k: Seq<char>| keys_for(ps.take(t + 1), start[i].0).contains(k)
                        <==> keys_for(ps.take(t as int), start[i].0).contains(k) by {
                        lemma_push_contains(ps.take(t as int), p, (start[i].0, k));
                    }
                    assert(keys_for(ps.take(t + 1), start[i].0) =~= keys_for(ps.take(t as int), start[i].0));
                }
            }
        }
        t = t + 1;
    }
    proof {
        assert(ps.take(pairs@.len() as int) =~= ps);
        lemma_with_pairs_sorted(start, ps, entries_view(entries@));
    }
}

pub proof fn lemma_push_contains<A>(s: Seq<A>, x: A, y: A)
    ensures
        s.push(x).contains(y) <==> s.contains(y) || x == y,
{
    if s.push(x).contains(y) {
        let i = choose|i: int| 0 <= i < s.push(x).len() && s.push(x)[i] == y;
        if i < s.len() {
            assert(s[i] == y);
        }
    }
    if s.contains(y) {
        let i = choose|i: int| 0 <= i < s.len() && s[i] == y;
        assert(s.push(x)[i] == y);
    }
    if x == y {
        assert(s.push(x)[s.len() as int] == y);
    }
}

/// The characters of each name.
fn chars_list(names: &Vec<String>) -> (r: Vec<Vec<char>>)
    ensures
        r@.len() == names@.len(),
        forall|i: int| 0 <= i < names@.len() ==> (#[trigger] r@[i])@ == names@[i]@,
{
    let mut r: Vec<Vec<char>> = Vec::new();
    let mut i: usize = 0;
    while i < names.len()
        invariant
            i <= names@.len(),
            r@.len() == i,
            forall|k: int| 0 <= k < i ==> (#[trigger] r@[k])@ == names@[k]@,
        decreases names.len() - i,
    {
        r.push(chars_of(names[i].as_str()));
        i = i + 1;
    }
    r
}

/// The (object, key) pairs the ids spell out, in order.
fn id_pair_list(objects: &Vec<String>, ids: &Vec<String>) -> (r: Vec<(String, String)>)
    ensures
        r@.map_values(|p: (String, String)| (p.0@, p.1@)) == id_pairs(strs(objects@), strs(ids@)),
{
    let objs = chars_list(objects);
    let ghost os = strs(objects@);
    let ghost is = strs(ids@);
    let mut out: Vec<(String, String)> = Vec::new();
    let mut t: usize = 0;
    assert(is.take(0) =~= Seq::<Seq<char>>::empty());
    while t < ids.len()
        invariant
            os == strs(objects@),
            is == strs(ids@),
            objs@.len() == objects@.len(),
            forall|i: int| 0 <= i < objects@.len() ==> (#[trigger] objs@[i])@ == objects@[i]@,
            t <= ids@.len(),
            out@.map_values(|p: (String, String)| (p.0@, p.1@)) == id_pairs(os, is.take(t as int)),
        decreases ids.len() - t,
    {
        let id = chars_of(ids[t].as_str());
        assert(is.take(t + 1).drop_last() =~= is.take(t as int));
        assert(is.take(t + 1).last() == id@);
        let mut n: usize = 0;
        let mut owner: Option<usize> = None;
        while n < objs.len()
            invariant_except_break
                owner is None,
            invariant
                objs@.len() == objects@.len(),
                os == strs(objects@),
                forall|i: int| 0 <= i < objects@.len() ==> (#[trigger] objs@[i])@ == objects@[i]@,
                n <= objs@.len(),
                id_owner(os, id@, 0) == id_owner(os, id@, n as int),
            ensures
                match owner {
                    Some(o) => o < objs@.len() && id@.len() > os[o as int].len() && id_owner(os, id@, 0) == Some(
                        (os[o as int], id@.skip(os[o as int].len() as int)),
                    ),
                    None => id_owner(os, id@, 0) is None,
                },
            decreases objs.len() - n,
        {
            assert(os[n as int] == objs@[n as int]@);
            if chars_at(&id, 0, &objs[n]) && id.len() > objs[n].len() {
                owner = Some(n);
                break;
            }
            n = n + 1;
        }
        match owner {
            Some(o) => {
                assert(os[o as int] == objs@[o as int]@);
                let key = string_of(&id, objs[o].len(), id.len());
                assert(id@.subrange(objs@[o as int]@.len() as int, id@.len() as int) =~= id@.skip(
                    os[o as int].len() as int,
                ));
                let ghost prev = out@;
                out.push((objects[o].clone(), key));
                assert(out@.map_values(|p: (String, String)| (p.0@, p.1@)) =~= prev.map_values(
                    |p: (String, String)| (p.0@, p.1@),
                ).push((os[o as int], key@)));
            },
            None => {},
        }
        t = t + 1;
    }
    assert(is.take(ids@.len() as int) =~= is);
    out
}

/// Inserts every string of `more` into the strictly sorted `v`.
fn insert_all(v: &mut Vec<String>, more: &Vec<String>)
    requires
        strictly_sorted(strs(old(v)@)),
    ensures
        strictly_sorted(strs(final(v)@)),
        strs(final(v)@).to_set() == strs(old(v)@).to_set() + strs(more@).to_set(),
{
    let ghost start = strs(v@).to_set();
    let ghost ms = strs(more@);
    let mut i: usize = 0;
    assert(start + ms.take(0).to_set() =~= start);
    while i < more.len()
        invariant
            ms == strs(more@),
            i <= more@.len(),
            strictly_sorted(strs(v@)),
            strs(v@).to_set() == start + ms.take(i as int).to_set(),
        decreases more.len() - i,
    {
        assert(ms.take(i + 1) =~= ms.take(i as int).push(ms[i as int]));
        proof {
            lemma_push_to_set(ms.take(i as int), ms[i as int]);
        }
        insert_sorted(v, more[i].clone());
        assert(strs(v@).to_set() =~= start + ms.take(i + 1).to_set());
        i = i + 1;
    }
    assert(ms.take(more@.len() as int) =~= ms);
}

/// The script's object names, each once, in increasing order.
pub fn script_object_names(js: &str) -> (r: Vec<String>)
    ensures
        strictly_sorted(strs(r@)),
        strs(r@) == script_objects(js@),
{
    let mut objects = extract_objects(js);
    let props = extract_property_objects(js);
    let actions = extract_action_objects(js);
    insert_all(&mut objects, &props);
    insert_all(&mut objects, &actions);
    proof {
        lemma_sorted_distinct_is(strs(objects@));
    }
    objects
}

/// Each name with no keys yet.
fn bare(names: &Vec<String>) -> (r: Vec<(String, Vec<String>)>)
    ensures
        entries_view(r@) == bare_entries(strs(names@)),
{
    let mut r: Vec<(String, Vec<String>)> = Vec::new();
    let mut i: usize = 0;
    while i < names.len()
        invariant
            i <= names@.len(),
            entries_view(r@) == bare_entries(strs(names@)).take(i as int),
        decreases names.len() - i,
    {
        let ghost prev = r@;
        r.push((names[i].clone(), Vec::new()));
        assert(strs(Seq::<String>::empty()) =~= Seq::<Seq<char>>::empty());
        assert(entries_view(r@) =~= entries_view(prev).push((names@[i as int]@, Seq::<Seq<char>>::empty())));
        assert(entries_view(r@) =~= bare_entries(strs(names@)).take(i + 1));
        i = i + 1;
    }
    assert(bare_entries(strs(names@)).take(names@.len() as int) =~= bare_entries(strs(names@)));
    r
}

/// The candidates the script yields: every object it mentions, each once, in increasing order,
/// with the keys its property registrations, control handlers and element ids give that object,
/// each once, in increasing order.
pub fn script_candidates(js: &str) -> (r: MetricProfile)
    ensures
        r@ == spec_script_candidates(js@),
        catalog_sorted(r@),
{
    let objects = script_object_names(js);
    let mut entries = bare(&objects);
    proof {
        let b = entries_view(entries@);
        crate::order::lemma_sorted_distinct_is(strs(objects@));
        assert forall|i: int, j: int| 0 <= i < j < b.len() implies lex_lt(
            #[trigger] b[i].0,
            #[trigger] b[j].0,
        ) by {
            assert(b[i].0 == strs(objects@)[i] && b[j].0 == strs(objects@)[j]);
        }
        assert forall|i: int| 0 <= i < b.len() implies strictly_sorted(#[trigger] b[i].1) by {
            assert(b[i].1 == Seq::<Seq<char>>::empty());
        }
    }
    let mut pairs = extract_properties(js);
    let mut actions = extract_action_keys(js);
    let ids = extract_ids(js);
    let mut owned = id_pair_list(&objects, &ids);
    let ghost pv = |p: (String, String)| (p.0@, p.1@);
    let ghost p0 = pairs@;
    let ghost a0 = actions@;
    pairs.append(&mut actions);
    let ghost p1 = pairs@;
    pairs.append(&mut owned);
    assert(pairs@.map_values(|p: (String, String)| (p.0@, p.1@)) =~= script_pairs(js@));
    add_pairs(&mut entries, &pairs);
    MetricProfile { objects: entries }
}

/// The names of a profile's objects.
fn names_of(entries: &Vec<(String, Vec<String>)>) -> (r: Vec<String>)
    ensures
        strs(r@) == entry_names(entries_view(entries@)),
{
    let mut r: Vec<String> = Vec::new();
    let mut i: usize = 0;
    while i < entries.len()
        invariant
            i <= entries@.len(),
            strs(r@) == entry_names(entries_view(entries@)).take(i as int),
        decreases entries.len() - i,
    {
        let ghost prev = r@;
        r.push(entries[i].0.clone());
        assert(strs(r@) =~= strs(prev).push(entries@[i as int].0@));
        assert(strs(r@) =~= entry_names(entries_view(entries@)).take(i + 1));
        i = i + 1;
    }
    assert(entry_names(entries_view(entries@)).take(entries@.len() as int) =~= entry_names(
        entries_view(entries@),
    ));
    r
}

/// Adds the keys a page's element ids spell out to the candidates.
pub fn add_page_ids(candidates: &mut MetricProfile, html: &str)
    requires
        catalog_sorted(old(candidates)@),
    ensures
        catalog_sorted(final(candidates)@),
        final(candidates)@ == spec_add_page(old(candidates)@, html@),
{
    let names = names_of(&candidates.objects);
    let ids = extract_ids(html);
    let pairs = id_pair_list(&names, &ids);
    add_pairs(&mut candidates.objects, &pairs);
}

/// The pages discovery reads besides the script: every page the script names, and the root
/// page `/`, each once, in increasing order.
pub open spec fn spec_page_paths(js: Seq<char>) -> Seq<Seq<char>> {
    sorted_distinct(spec_extract_html_paths(js).to_set().insert("/"@))
}

/// The pages discovery reads besides the script.
pub fn page_paths(js: &str) -> (r: Vec<String>)
    ensures
        strs(r@) == spec_page_paths(js@),
{
    let mut paths = extract_html_paths(js);
    insert_sorted(&mut paths, "/".to_owned());
    proof {
        lemma_sorted_distinct_is(strs(paths@));
    }
    paths
}

/// The keys of a candidate the answers give a value.
pub open spec fn answered(values: Map<Seq<char>, Seq<char>>) -> spec_fn(Seq<char>) -> bool {
    |k: Seq<char>| values.contains_key(k) && spec_status(values[k]) == ValueStatus::Value
}

/// The profile discovery keeps: each candidate object the answers cover, with the candidate keys
/// they answer with a value, in the candidates' order; an object left with no key is dropped.
pub open spec fn spec_select(
    candidates: Seq<ProfileEntry>,
    answers: Map<Seq<char>, Map<Seq<char>, Seq<char>>>,
) -> Seq<ProfileEntry>
    decreases candidates.len(),
{
    if candidates.len() == 0 {
        Seq::empty()
    } else {
        let prev = spec_select(candidates.drop_last(), answers);
        let object = candidates.last().0;
        if answers.contains_key(object) {
            let kept = candidates.last().1.filter(answered(answers[object]));
            if kept.len() > 0 {
                prev.push((object, kept))
            } else {
                prev
            }
        } else {
            prev
        }
    }
}

/// Keeps the candidates the device answered with a value.
pub fn select_answered(candidates: &MetricProfile, answers: &DeviceAnswers) -> (r: MetricProfile)
    requires
        answers.well_formed(),
    ensures
        r@ == spec_select(candidates@, answers_map(answers@)),
{
    let ghost cs = candidates@;
    let ghost am = answers_map(answers@);
    let mut out: Vec<(String, Vec<String>)> = Vec::new();
    proof {
        crate::query::lemma_exec_names_sorted_answers(answers.objects@);
        crate::query::lemma_assoc_map(answers@);
    }
    let mut i: usize = 0;
    assert(cs.take(0) =~= Seq::<ProfileEntry>::empty());
    while i < candidates.objects.len()
        invariant
            cs == candidates@,
            am == answers_map(answers@),
            answers.well_formed(),
            exec_names_sorted(answers.objects@),
            forall|k: Seq<char>| #[trigger]
                assoc_map(answers@).contains_key(k) <==> exists|x: int| 0 <= x < answers@.len() && answers@[x].0 == k,
            forall|x: int| 0 <= x < answers@.len() ==> #[trigger] assoc_map(answers@)[answers@[x].0] == answers@[x].1,
            i <= cs.len(),
            entries_view(out@) == spec_select(cs.take(i as int), am),
        decreases candidates.objects.len() - i,
    {
        assert(cs.take(i + 1).drop_last() =~= cs.take(i as int));
        let name = &candidates.objects[i].0;
        let keys = &candidates.objects[i].1;
        let ghost ks = strs(keys@);
        assert(cs.take(i + 1).last() == (name@, ks));
        let (pos, found) = position_of(&answers.objects, name.as_str());
        if found {
            let values = &answers.objects[pos].1;
            let ghost vm = assoc_map(crate::query::pairs_view(values@));
            assert(answers@[pos as int].0 == name@);
            assert(am.contains_key(name@));
            assert(am[name@] == vm);
            let mut kept: Vec<String> = Vec::new();
            let mut j: usize = 0;
            assert(ks.take(0) =~= Seq::<Seq<char>>::empty());
            while j < keys.len()
                invariant
                    ks == strs(keys@),
                    vm == assoc_map(crate::query::pairs_view(values@)),
                    j <= keys@.len(),
                    strs(kept@) == ks.take(j as int).filter(answered(vm)),
                decreases keys.len() - j,
            {
                assert(ks.take(j + 1) =~= ks.take(j as int).push(ks[j as int]));
                proof {
                    ks.take(j as int).lemma_filter_push(ks[j as int], answered(vm));
                }
                let at = crate::query::find_last_pub(values, keys[j].as_str());
                proof {
                    crate::query::lemma_find_last_is_map(values@, ks[j as int], match at { Some(x) => Some(x as int), None => None });
                }
                match at {
                    Some(x) => {
                        if ValueStatus::from_raw(values[x].1.as_str()).is_ok() {
                            let ghost prev = kept@;
                            kept.push(keys[j].clone());
                            assert(strs(kept@) =~= strs(prev).push(ks[j as int]));
                        }
                    },
                    None => {},
                }
                j = j + 1;
            }
            assert(ks.take(keys@.len() as int) =~= ks);
            if kept.len() > 0 {
                let ghost prev = out@;
                out.push((name.clone(), kept));
                assert(entries_view(out@) =~= entries_view(prev).push((name@, strs(kept@))));
            }
        } else {
            proof {
                assert forall|x: int| 0 <= x < answers@.len() implies answers@[x].0 != name@ by {
                    assert(answers@[x].0 == answers.objects@[x].0@);
                    if x < pos {
                        crate::order::lemma_lex_irreflexive(name@);
                    } else {
                        if x > pos {
                            assert(lex_lt(answers@[pos as int].0, answers@[x].0));
                            crate::order::lemma_lex_transitive(name@, answers.objects@[pos as int].0@, answers.objects@[x].0@);
                        }
                        crate::order::lemma_lex_irreflexive(name@);
                    }
                }
                assert(!am.contains_key(name@));
            }
        }
        i = i + 1;
    }
    assert(cs.take(cs.len() as int) =~= cs);
    MetricProfile { objects: out }
}

/// Discovery keeps only what the device answered with a value: every object it keeps comes with
/// at least one key, every kept key is a candidate for that object, and the device answered it
/// with something other than `VARIABLE_NOT_FOUND`, `FORBIDDEN`, `OBJECT_NOT_FOUND` or
/// `MALFORMED_VALUE`.
pub proof fn lemma_select_sound(
    candidates: Seq<ProfileEntry>,
    answers: Map<Seq<char>, Map<Seq<char>, Seq<char>>>,
)
    ensures
        forall|i: int| 0 <= i < spec_select(candidates, answers).len() ==> {
            let e = #[trigger] spec_select(candidates, answers)[i];
            &&& e.1.len() > 0
            &&& answers.contains_key(e.0)
            &&& exists|m: int| 0 <= m < candidates.len() && candidates[m].0 == e.0 && forall|j: int|
                0 <= j < e.1.len() ==> candidates[m].1.contains(#[trigger] e.1[j])
            &&& forall|j: int|
                0 <= j < e.1.len() ==> answers[e.0].contains_key(#[trigger] e.1[j]) && spec_status(
                    answers[e.0][e.1[j]],
                ) == ValueStatus::Value
        },
    decreases candidates.len(),
{
    if candidates.len() > 0 {
        let prev = candidates.drop_last();
        lemma_select_sound(prev, answers);
        let p = spec_select(prev, answers);
        let r = spec_select(candidates, answers);
        let last = candidates.last();
        assert forall|i: int| 0 <= i < r.len() implies {
            let e = #[trigger] r[i];
            &&& e.1.len() > 0
            &&& answers.contains_key(e.0)
            &&& exists|m: int| 0 <= m < candidates.len() && candidates[m].0 == e.0 && forall|j: int|
                0 <= j < e.1.len() ==> candidates[m].1.contains(#[trigger] e.1[j])
            &&& forall|j: int|
                0 <= j < e.1.len() ==> answers[e.0].contains_key(#[trigger] e.1[j]) && spec_status(
                    answers[e.0][e.1[j]],
                ) == ValueStatus::Value
        } by {
            if i < p.len() {
                assert(r[i] == p[i]);
                let e = p[i];
                let m = choose|m: int| 0 <= m < prev.len() && prev[m].0 == e.0 && forall|j: int|
                    0 <= j < e.1.len() ==> prev[m].1.contains(#[trigger] e.1[j]);
                assert(candidates[m] == prev[m]);
            } else {
                let kept = last.1.filter(answered(answers[last.0]));
                assert(r[i] == (last.0, kept));
                assert forall|j: int| 0 <= j < kept.len() implies last.1.contains(#[trigger] kept[j])
                    && answers[last.0].contains_key(kept[j]) && spec_status(answers[last.0][kept[j]])
                    == ValueStatus::Value by {
                    last.1.lemma_filter_pred(answered(answers[last.0]), j);
                    assert(kept.contains(kept[j]));
                    last.1.lemma_filter_contains_rev(answered(answers[last.0]), kept[j]);
                }
                assert(candidates[candidates.len() - 1].0 == last.0);
            }
        }
    }
}

/// Discovery keeps every candidate the device answered with a value: when the answers hold a
/// candidate key of a candidate object and its text is none of `VARIABLE_NOT_FOUND`,
/// `FORBIDDEN`, `OBJECT_NOT_FOUND` and `MALFORMED_VALUE`, whatever else the text is, the kept
/// profile lists that key under that object.
pub proof fn lemma_select_complete(
    candidates: Seq<ProfileEntry>,
    answers: Map<Seq<char>, Map<Seq<char>, Seq<char>>>,
    m: int,
    j: int,
)
    requires
        0 <= m < candidates.len(),
        0 <= j < candidates[m].1.len(),
        answers.contains_key(candidates[m].0),
        answers[candidates[m].0].contains_key(candidates[m].1[j]),
        answers[candidates[m].0][candidates[m].1[j]] != "VARIABLE_NOT_FOUND"@,
        answers[candidates[m].0][candidates[m].1[j]] != "FORBIDDEN"@,
        answers[candidates[m].0][candidates[m].1[j]] != "OBJECT_NOT_FOUND"@,
        answers[candidates[m].0][candidates[m].1[j]] != "MALFORMED_VALUE"@,
    ensures
        exists|i: int|
            0 <= i < spec_select(candidates, answers).len() && (#[trigger] spec_select(
                candidates,
                answers,
            )[i]).0 == candidates[m].0 && spec_select(candidates, answers)[i].1.contains(
                candidates[m].1[j],
            ),
    decreases candidates.len(),
{
    let prev = candidates.drop_last();
    let r = spec_select(candidates, answers);
    if m < candidates.len() - 1 {
        assert(prev[m] == candidates[m]);
        lemma_select_complete(prev, answers, m, j);
        let p = spec_select(prev, answers);
        let i = choose|i: int|
            0 <= i < p.len() && (#[trigger] p[i]).0 == candidates[m].0 && p[i].1.contains(
                candidates[m].1[j],
            );
        assert(r[i] == p[i]);
    } else {
        let last = candidates.last();
        let k = last.1[j];
        assert(spec_status(answers[last.0][k]) == ValueStatus::Value);
        assert(answered(answers[last.0])(k));
        assert(last.1.contains(k));
        last.1.lemma_filter_contains(answered(answers[last.0]), j);
        let kept = last.1.filter(answered(answers[last.0]));
        assert(kept.contains(k));
        let i = spec_select(prev, answers).len() as int;
        assert(r[i] == (last.0, kept));
    }
}

proof fn lemma_id_owner_from(objects: Seq<Seq<char>>, id: Seq<char>, n: int)
    requires
        0 <= n <= objects.len(),
    ensures
        match id_owner(objects, id, n) {
            Some(p) => exists|x: int|
                n <= x < objects.len() && objects[x] == p.0 && id == p.0 + p.1 && p.1.len() > 0
                    && forall|m: int|
                    n <= m < x ==> !(#[trigger] objects[m].len() < id.len() && id.subrange(
                        0,
                        objects[m].len() as int,
                    ) == objects[m]),
            None => forall|m: int|
                n <= m < objects.len() ==> !(#[trigger] objects[m].len() < id.len() && id.subrange(
                    0,
                    objects[m].len() as int,
                ) == objects[m]),
        },
    decreases objects.len() - n,
{
    if n < objects.len() {
        let o = objects[n];
        if has_prefix(id, o) && id.len() > o.len() {
            assert(id =~= o + id.skip(o.len() as int));
        } else {
            lemma_id_owner_from(objects, id, n + 1);
        }
    }
}

/// An element id belongs to the first object, in the order given, that the id starts with and
/// is longer than, and names the rest of the id as that object's key; an id that no object is a
/// proper prefix of belongs to no object.
pub proof fn lemma_id_owner(objects: Seq<Seq<char>>, id: Seq<char>)
    ensures
        match id_owner(objects, id, 0) {
            Some(p) => exists|x: int|
                0 <= x < objects.len() && objects[x] == p.0 && id == p.0 + p.1 && p.1.len() > 0
                    && forall|m: int|
                    0 <= m < x ==> !(#[trigger] objects[m].len() < id.len() && id.subrange(
                        0,
                        objects[m].len() as int,
                    ) == objects[m]),
            None => forall|m: int|
                0 <= m < objects.len() ==> !(#[trigger] objects[m].len() < id.len() && id.subrange(
                    0,
                    objects[m].len() as int,
                ) == objects[m]),
        },
{
    lemma_id_owner_from(objects, id, 0);
}

/// The pairs the ids spell out are those of the ids that belong to an object.
pub proof fn lemma_id_pairs_contains(objects: Seq<Seq<char>>, ids: Seq<Seq<char>>, p: NamePair)
    ensures
        id_pairs(objects, ids).contains(p) <==> exists|j: int|
            0 <= j < ids.len() && id_owner(objects, #[trigger] ids[j], 0) == Some(p),
    decreases ids.len(),
{
    if ids.len() > 0 {
        let prev = ids.drop_last();
        lemma_id_pairs_contains(objects, prev, p);
        match id_owner(objects, ids.last(), 0) {
            Some(q) => {
                lemma_push_contains(id_pairs(objects, prev), q, p);
            },
            None => {},
        }
        if exists|j: int| 0 <= j < ids.len() && id_owner(objects, #[trigger] ids[j], 0) == Some(p) {
            let j = choose|j: int| 0 <= j < ids.len() && id_owner(objects, #[trigger] ids[j], 0) == Some(p);
            if j < prev.len() {
                assert(prev[j] == ids[j]);
            }
        }
        if exists|j: int| 0 <= j < prev.len() && id_owner(objects, #[trigger] prev[j], 0) == Some(p) {
            let j = choose|j: int| 0 <= j < prev.len() && id_owner(objects, #[trigger] prev[j], 0) == Some(p);
            assert(ids[j] == prev[j]);
        }
    }
}

proof fn lemma_add_to_set<A>(a: Seq<A>, b: Seq<A>)
    ensures
        (a + b).to_set() == a.to_set() + b.to_set(),
    decreases b.len(),
{
    if b.len() == 0 {
        assert(a + b =~= a);
        assert(a.to_set() + b.to_set() =~= a.to_set());
    } else {
        let p = b.drop_last();
        lemma_add_to_set(a, p);
        assert(a + b =~= (a + p).push(b.last()));
        assert(b =~= p.push(b.last()));
        lemma_push_to_set(a + p, b.last());
        lemma_push_to_set(p, b.last());
        assert((a + b).to_set() =~= a.to_set() + b.to_set());
    }
}

/// The keys the pairs give `object`, as a list.
spec fn keys_list(pairs: Seq<NamePair>, object: Seq<char>) -> Seq<Seq<char>>
    decreases pairs.len(),
{
    if pairs.len() == 0 {
        Seq::empty()
    } else {
        let prev = keys_list(pairs.drop_last(), object);
        if pairs.last().0 == object {
            prev.push(pairs.last().1)
        } else {
            prev
        }
    }
}

proof fn lemma_keys_list(pairs: Seq<NamePair>, object: Seq<char>)
    ensures
        keys_list(pairs, object).to_set() == keys_for(pairs, object),
    decreases pairs.len(),
{
    if pairs.len() == 0 {
        assert(keys_list(pairs, object).to_set() =~= keys_for(pairs, object));
    } else {
        let p = pairs.drop_last();
        let x = pairs.last();
        lemma_keys_list(p, object);
        assert(pairs =~= p.push(x));
        assert forall|k: Seq<char>| keys_for(pairs, object).contains(k) <==> keys_for(p, object).contains(k)
            || x == (object, k) by {
            lemma_push_contains(p, x, (object, k));
        }
        if x.0 == object {
            lemma_push_to_set(keys_list(p, object), x.1);
        }
        assert(keys_list(pairs, object).to_set() =~= keys_for(pairs, object));
    }
}

/// After the pairs are added, an entry keeps its object, and holds exactly its earlier keys and
/// the keys the pairs give its object.
proof fn lemma_with_pairs_member(entries: Seq<ProfileEntry>, pairs: Seq<NamePair>, i: int, k: Seq<char>)
    requires
        0 <= i < entries.len(),
    ensures
        with_pairs(entries, pairs).len() == entries.len(),
        with_pairs(entries, pairs)[i].0 == entries[i].0,
        with_pairs(entries, pairs)[i].1.contains(k) <==> entries[i].1.contains(k) || pairs.contains(
            (entries[i].0, k),
        ),
{
    let o = entries[i].0;
    let w = entries[i].1 + keys_list(pairs, o);
    lemma_keys_list(pairs, o);
    lemma_add_to_set(entries[i].1, keys_list(pairs, o));
    crate::order::lemma_sorted_distinct(w);
    assert(w.to_set() == entries[i].1.to_set() + keys_for(pairs, o));
    let r = with_pairs(entries, pairs)[i].1;
    assert(r == sorted_distinct(w.to_set()));
    assert(r.to_set().contains(k) == r.contains(k));
    assert(entries[i].1.to_set().contains(k) == entries[i].1.contains(k));
}

proof fn lemma_add_contains<A>(a: Seq<A>, b: Seq<A>, x: A)
    ensures
        (a + b).contains(x) <==> a.contains(x) || b.contains(x),
{
    if (a + b).contains(x) {
        let i = choose|i: int| 0 <= i < (a + b).len() && (a + b)[i] == x;
        if i >= a.len() {
            assert(b[i - a.len()] == x);
        }
    }
    if a.contains(x) {
        let i = choose|i: int| 0 <= i < a.len() && a[i] == x;
        assert((a + b)[i] == x);
    }
    if b.contains(x) {
        let i = choose|i: int| 0 <= i < b.len() && b[i] == x;
        assert((a + b)[a.len() + i] == x);
    }
}

/// The object of every pair a pattern's matches give is among the objects of those matches.
proof fn lemma_pair_object(js: Seq<char>, p: Pattern, o: Seq<char>, k: Seq<char>)
    requires
        pairs_of(js, scan(p, js, 0)).contains((o, k)),
    ensures
        sorted_distinct(firsts(js, scan(p, js, 0)).to_set()).contains(o),
{
    let ms = scan(p, js, 0);
    let j = choose|j: int| 0 <= j < pairs_of(js, ms).len() && pairs_of(js, ms)[j] == (o, k);
    assert(firsts(js, ms)[j] == o);
    assert(firsts(js, ms).to_set().contains(o));
    crate::order::lemma_sorted_distinct(firsts(js, ms));
}

/// The candidate objects are the script's objects: an object has an entry exactly when the
/// script registers it, gives it a property, or acts on it.
pub proof fn lemma_script_candidate_objects(js: Seq<char>, o: Seq<char>)
    ensures
        (exists|i: int|
            0 <= i < spec_script_candidates(js).len() && (#[trigger] spec_script_candidates(js)[i]).0
                == o) <==> (spec_extract_objects(js).contains(o) || spec_extract_property_objects(
            js,
        ).contains(o) || spec_extract_action_objects(js).contains(o)),
{
    let a = spec_extract_objects(js);
    let b = spec_extract_property_objects(js);
    let c = spec_extract_action_objects(js);
    lemma_add_to_set(a, b);
    lemma_add_to_set(a + b, c);
    assert(script_object_set(js) == (a + b + c).to_set());
    crate::order::lemma_sorted_distinct(a + b + c);
    let so = script_objects(js);
    let cands = spec_script_candidates(js);
    assert(cands.len() == so.len());
    assert forall|i: int| 0 <= i < cands.len() implies (#[trigger] cands[i]).0 == so[i] by {}
    if exists|i: int| 0 <= i < cands.len() && (#[trigger] cands[i]).0 == o {
        let i = choose|i: int| 0 <= i < cands.len() && (#[trigger] cands[i]).0 == o;
        assert(so.to_set().contains(so[i]));
        lemma_add_contains(a, b, o);
        lemma_add_contains(a + b, c, o);
    }
    if a.contains(o) || b.contains(o) || c.contains(o) {
        lemma_add_contains(a, b, o);
        lemma_add_contains(a + b, c, o);
        assert((a + b + c).to_set().contains(o));
        assert(so.to_set().contains(o));
        let i = choose|i: int| 0 <= i < so.len() && so[i] == o;
        assert(cands[i].0 == o);
    }
}

/// Every key the script gives an object is a candidate of that object: the key of each
/// `add_property_to_object` call and each control handler call, and the key an element id of
/// the script spells out after the first script object it starts with.
pub proof fn lemma_script_candidates_complete(js: Seq<char>, o: Seq<char>, k: Seq<char>)
    requires
        spec_extract_properties(js).contains((o, k)) || spec_extract_action_keys(js).contains(
            (o, k),
        ) || exists|j: int|
            0 <= j < spec_extract_ids(js).len() && id_owner(
                script_objects(js),
                #[trigger] spec_extract_ids(js)[j],
                0,
            ) == Some((o, k)),
    ensures
        exists|i: int|
            0 <= i < spec_script_candidates(js).len() && (#[trigger] spec_script_candidates(js)[i]).0
                == o && spec_script_candidates(js)[i].1.contains(k),
{
    let props = spec_extract_properties(js);
    let acts = spec_extract_action_keys(js);
    let owned = id_pairs(script_objects(js), spec_extract_ids(js));
    lemma_id_pairs_contains(script_objects(js), spec_extract_ids(js), (o, k));
    lemma_add_contains(props, acts, (o, k));
    lemma_add_contains(props + acts, owned, (o, k));
    assert(script_pairs(js).contains((o, k)));
    let so = script_objects(js);
    let cands = spec_script_candidates(js);
    let i: int = if props.contains((o, k)) {
        lemma_pair_object(js, Pattern::Property, o, k);
        lemma_script_candidate_objects(js, o);
        choose|i: int| 0 <= i < cands.len() && (#[trigger] cands[i]).0 == o
    } else if acts.contains((o, k)) {
        lemma_pair_object(js, Pattern::Action, o, k);
        lemma_script_candidate_objects(js, o);
        choose|i: int| 0 <= i < cands.len() && (#[trigger] cands[i]).0 == o
    } else {
        let j = choose|j: int|
            0 <= j < spec_extract_ids(js).len() && id_owner(
                so,
                #[trigger] spec_extract_ids(js)[j],
                0,
            ) == Some((o, k));
        lemma_id_owner(so, spec_extract_ids(js)[j]);
        let x = choose|x: int|
            0 <= x < so.len() && so[x] == o && spec_extract_ids(js)[j] == o + k && k.len() > 0
                && forall|m: int|
                0 <= m < x ==> !(#[trigger] so[m].len() < spec_extract_ids(js)[j].len()
                    && spec_extract_ids(js)[j].subrange(0, so[m].len() as int) == so[m]);
        x
    };
    lemma_with_pairs_member(bare_entries(so), script_pairs(js), i, k);
}

/// Every candidate key comes from the script: a key of an object's entry is named with that
/// object by an `add_property_to_object` call or a control handler call, or spelled out by an
/// element id of the script after the first script object the id starts with.
pub proof fn lemma_script_candidates_sound(js: Seq<char>, i: int, k: Seq<char>)
    requires
        0 <= i < spec_script_candidates(js).len(),
        spec_script_candidates(js)[i].1.contains(k),
    ensures
        ({
            let o = spec_script_candidates(js)[i].0;
            ||| spec_extract_properties(js).contains((o, k))
            ||| spec_extract_action_keys(js).contains((o, k))
            ||| exists|j: int|
                0 <= j < spec_extract_ids(js).len() && id_owner(
                    script_objects(js),
                    #[trigger] spec_extract_ids(js)[j],
                    0,
                ) == Some((o, k))
        }),
{
    let so = script_objects(js);
    let entries = bare_entries(so);
    lemma_with_pairs_member(entries, script_pairs(js), i, k);
    let o = entries[i].0;
    assert(!entries[i].1.contains(k));
    let props = spec_extract_properties(js);
    let acts = spec_extract_action_keys(js);
    let owned = id_pairs(so, spec_extract_ids(js));
    lemma_add_contains(props, acts, (o, k));
    lemma_add_contains(props + acts, owned, (o, k));
    lemma_id_pairs_contains(so, spec_extract_ids(js), (o, k));
}

/// Reading a page keeps every candidate object and key, and adds to an object exactly the keys
/// the page's element ids spell out after it, each id going to the first object, in the
/// candidates' order, that it starts with and is longer than.
pub proof fn lemma_add_page(entries: Seq<ProfileEntry>, html: Seq<char>, i: int, k: Seq<char>)
    requires
        0 <= i < entries.len(),
    ensures
        spec_add_page(entries, html).len() == entries.len(),
        spec_add_page(entries, html)[i].0 == entries[i].0,
        spec_add_page(entries, html)[i].1.contains(k) <==> entries[i].1.contains(k) || exists|j: int|
            0 <= j < spec_extract_ids(html).len() && id_owner(
                entry_names(entries),
                #[trigger] spec_extract_ids(html)[j],
                0,
            ) == Some((entries[i].0, k)),
{
    let pairs = id_pairs(entry_names(entries), spec_extract_ids(html));
    lemma_with_pairs_member(entries, pairs, i, k);
    lemma_id_pairs_contains(entry_names(entries), spec_extract_ids(html), (entries[i].0, k));
}

/// The pages read besides the script are the root page `/` and every page the script names, and
/// nothing else.
pub proof fn lemma_page_paths(js: Seq<char>, p: Seq<char>)
    ensures
        spec_page_paths(js).contains(p) <==> p == "/"@ || spec_extract_html_paths(js).contains(p),
{
    let named = spec_extract_html_paths(js);
    lemma_push_to_set(named, "/"@);
    crate::order::lemma_sorted_distinct(named.push("/"@));
    assert(spec_page_paths(js).to_set().contains(p) == spec_page_paths(js).contains(p));
    assert(named.to_set().contains(p) == named.contains(p));
}

} // verus!
