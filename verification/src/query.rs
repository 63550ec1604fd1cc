//! Asking a device for keys: how a request is cut into POST bodies, and how the answers are
//! merged.
//!
//! A device that truncates or refuses a large body is handled by sending at most `chunk_size`
//! keys per POST, per object. Each answer is an object of objects; the part of it that concerns
//! the object asked about, rendered as key and value strings, is merged into the result.
use vstd::prelude::*;

use crate::model::{names_sorted, MetricProfile, ProfileEntry};
use crate::order::{lemma_lex_asymmetric, lemma_lex_irreflexive, lemma_lex_total, lemma_lex_transitive, lex_lt, str_lt, strs};
use crate::text::str_eq;

verus! {

/// A key and the raw string the device holds for it.
pub type KeyValue = (Seq<char>, Seq<char>);

/// An object name and the keys answered under it.
pub type AnswerEntry = (Seq<char>, Seq<KeyValue>);

/// The raw strings a device answered with, grouped by object.
///
/// Object names occur once each, in increasing order, and so do the keys under each object (see
/// [`DeviceAnswers::well_formed`]): this is a map of maps, listed in key order.
#[derive(Debug)]
pub struct DeviceAnswers {
    pub objects: Vec<(String, Vec<(String, String)>)>,
}

pub open spec fn pairs_view(v: Seq<(String, String)>) -> Seq<KeyValue> {
    v.map_values(|p: (String, String)| (p.0@, p.1@))
}

pub open spec fn answers_view(v: Seq<(String, Vec<(String, String)>)>) -> Seq<AnswerEntry> {
    v.map_values(|e: (String, Vec<(String, String)>)| (e.0@, pairs_view(e.1@)))
}

impl View for DeviceAnswers {
    type V = Seq<AnswerEntry>;

    open spec fn view(&self) -> Seq<AnswerEntry> {
        answers_view(self.objects@)
    }
}

/// The map an association list stands for; a later entry for a name replaces an earlier one.
pub open spec fn assoc_map<V>(s: Seq<(Seq<char>, V)>) -> Map<Seq<char>, V>
    decreases s.len(),
{
    if s.len() == 0 {
        Map::empty()
    } else {
        assoc_map(s.drop_last()).insert(s.last().0, s.last().1)
    }
}

/// The answers as a map from object name to a map from key to raw value.
pub open spec fn answers_map(s: Seq<AnswerEntry>) -> Map<Seq<char>, Map<Seq<char>, Seq<char>>> {
    assoc_map(s).map_values(|inner: Seq<KeyValue>| assoc_map(inner))
}

impl DeviceAnswers {
    /// Object names, and the keys under each, occur once each in increasing order.
    pub open spec fn well_formed(&self) -> bool {
        &&& names_sorted(self@)
        &&& forall|i: int| 0 <= i < self@.len() ==> names_sorted(#[trigger] self@[i].1)
    }

    /// No answers yet.
    pub fn new() -> (r: DeviceAnswers)
        ensures
            r@.len() == 0,
            r.well_formed(),
    {
        DeviceAnswers { objects: Vec::new() }
    }
}

/// The map of an association list holds exactly its names, each with its entry's value.
pub proof fn lemma_assoc_map<V>(s: Seq<(Seq<char>, V)>)
    requires
        names_sorted(s),
    ensures
        forall|k: Seq<char>| #[trigger]
            assoc_map(s).contains_key(k) <==> exists|i: int| 0 <= i < s.len() && s[i].0 == k,
        forall|i: int| 0 <= i < s.len() ==> #[trigger] assoc_map(s)[s[i].0] == s[i].1,
    decreases s.len(),
{
    if s.len() > 0 {
        let p = s.drop_last();
        assert(names_sorted(p));
        lemma_assoc_map(p);
        assert(assoc_map(s) == assoc_map(p).insert(s.last().0, s.last().1));
        assert forall|k: Seq<char>| #[trigger]
            assoc_map(s).contains_key(k) <==> exists|i: int| 0 <= i < s.len() && s[i].0 == k by {
            if assoc_map(s).contains_key(k) && k != s.last().0 {
                assert(assoc_map(p).contains_key(k));
                let i = choose|i: int| 0 <= i < p.len() && p[i].0 == k;
                assert(s[i].0 == k);
            }
            if exists|i: int| 0 <= i < s.len() && s[i].0 == k {
                let i = choose|i: int| 0 <= i < s.len() && s[i].0 == k;
                if i < p.len() {
                    assert(p[i].0 == k);
                    assert(assoc_map(p).contains_key(k));
                }
            }
        }
        assert forall|i: int| 0 <= i < s.len() implies #[trigger] assoc_map(s)[s[i].0] == s[i].1 by {
            if i < s.len() - 1 {
                assert(lex_lt(s[i].0, s[s.len() - 1].0));
                lemma_lex_irreflexive(s[i].0);
                assert(p[i] == s[i]);
            }
        }
    }
}

/// The names of an exec association list strictly increase.
pub open spec fn exec_names_sorted<V>(v: Seq<(String, V)>) -> bool {
    forall|i: int, j: int| 0 <= i < j < v.len() ==> lex_lt(#[trigger] v[i].0@, #[trigger] v[j].0@)
}

/// Where `name` stands among the names of `v`, or where it would go to keep them sorted, and
/// whether it is there.
pub(crate) fn position_of<V>(v: &Vec<(String, V)>, name: &str) -> (r: (usize, bool))
    requires
        exec_names_sorted(v@),
    ensures
        r.0 <= v@.len(),
        forall|k: int| 0 <= k < r.0 ==> lex_lt(#[trigger] v@[k].0@, name@),
        r.1 ==> r.0 < v@.len() && v@[r.0 as int].0@ == name@,
        !r.1 ==> r.0 < v@.len() ==> lex_lt(name@, v@[r.0 as int].0@),
{
    let mut i: usize = 0;
    while i < v.len()
        invariant
            i <= v@.len(),
            forall|k: int| 0 <= k < i ==> lex_lt(#[trigger] v@[k].0@, name@),
        ensures
            i <= v@.len(),
            forall|k: int| 0 <= k < i ==> lex_lt(#[trigger] v@[k].0@, name@),
            i < v@.len() ==> !lex_lt(v@[i as int].0@, name@),
        decreases v.len() - i,
    {
        if !str_lt(v[i].0.as_str(), name) {
            break;
        }
        i = i + 1;
    }
    if i < v.len() {
        if str_eq(v[i].0.as_str(), name) {
            return (i, true);
        }
        proof {
            lemma_lex_total(v@[i as int].0@, name@);
        }
    }
    (i, false)
}

/// The map of an association list names exactly the names it lists.
pub proof fn lemma_assoc_map_dom<V>(s: Seq<(Seq<char>, V)>, k: Seq<char>)
    ensures
        assoc_map(s).contains_key(k) <==> exists|i: int| 0 <= i < s.len() && s[i].0 == k,
    decreases s.len(),
{
    if s.len() > 0 {
        let p = s.drop_last();
        lemma_assoc_map_dom(p, k);
        assert(assoc_map(s) == assoc_map(p).insert(s.last().0, s.last().1));
        if exists|i: int| 0 <= i < s.len() && s[i].0 == k {
            let i = choose|i: int| 0 <= i < s.len() && s[i].0 == k;
            if i < p.len() {
                assert(p[i].0 == k);
            }
        }
        if assoc_map(s).contains_key(k) && k != s.last().0 {
            let i = choose|i: int| 0 <= i < p.len() && p[i].0 == k;
            assert(s[i].0 == k);
        }
    }
}

/// The map of an association list gives a name the value of its last entry.
pub proof fn lemma_assoc_map_last<V>(s: Seq<(Seq<char>, V)>, k: Seq<char>, i: int)
    requires
        0 <= i < s.len(),
        s[i].0 == k,
        forall|j: int| i < j < s.len() ==> (#[trigger] s[j]).0 != k,
    ensures
        assoc_map(s).contains_key(k),
        assoc_map(s)[k] == s[i].1,
    decreases s.len(),
{
    let p = s.drop_last();
    assert(assoc_map(s) == assoc_map(p).insert(s.last().0, s.last().1));
    if i < p.len() {
        assert(s[s.len() - 1].0 != k);
        assert forall|j: int| i < j < p.len() implies (#[trigger] p[j]).0 != k by {
            assert(p[j] == s[j]);
        }
        lemma_assoc_map_last(p, k, i);
    }
}

/// The position of the last entry of `v` named `name`.
fn find_last(v: &Vec<(String, String)>, name: &str) -> (r: Option<usize>)
    ensures
        match r {
            Some(i) => i < v@.len() && v@[i as int].0@ == name@ && forall|j: int|
                i < j < v@.len() ==> (#[trigger] v@[j]).0@ != name@,
            None => forall|j: int| 0 <= j < v@.len() ==> (#[trigger] v@[j]).0@ != name@,
        },
{
    let mut i = v.len();
    while i > 0
        invariant
            i <= v@.len(),
            forall|j: int| i <= j < v@.len() ==> (#[trigger] v@[j]).0@ != name@,
        decreases i,
    {
        if str_eq(v[i - 1].0.as_str(), name) {
            return Some(i - 1);
        }
        i = i - 1;
    }
    None
}

/// The position of the last entry of `v` named `name`.
pub(crate) fn find_last_pub(v: &Vec<(String, String)>, name: &str) -> (r: Option<usize>)
    ensures
        match r {
            Some(i) => i < v@.len() && v@[i as int].0@ == name@ && forall|j: int|
                i < j < v@.len() ==> (#[trigger] v@[j]).0@ != name@,
            None => forall|j: int| 0 <= j < v@.len() ==> (#[trigger] v@[j]).0@ != name@,
        },
{
    find_last(v, name)
}

/// The value `v` holds for `name`, as the map of `v` has it.
pub proof fn lemma_find_last_is_map(v: Seq<(String, String)>, name: Seq<char>, r: Option<int>)
    requires
        match r {
            Some(i) => 0 <= i < v.len() && v[i].0@ == name && forall|j: int|
                i < j < v.len() ==> (#[trigger] v[j]).0@ != name,
            None => forall|j: int| 0 <= j < v.len() ==> (#[trigger] v[j]).0@ != name,
        },
    ensures
        match r {
            Some(i) => assoc_map(pairs_view(v)).contains_key(name) && assoc_map(pairs_view(v))[name]
                == v[i].1@,
            None => !assoc_map(pairs_view(v)).contains_key(name),
        },
{
    let s = pairs_view(v);
    lemma_assoc_map_dom(s, name);
    match r {
        Some(i) => {
            assert(s[i].0 == name);
            assert forall|j: int| i < j < s.len() implies (#[trigger] s[j]).0 != name by {
                assert(s[j].0 == v[j].0@);
            }
            lemma_assoc_map_last(s, name, i);
        },
        None => {
            assert forall|j: int| 0 <= j < s.len() implies s[j].0 != name by {
                assert(s[j].0 == v[j].0@);
            }
        },
    }
}

/// Putting an entry where its name sorts, replacing an entry of the same name, keeps the list
/// sorted and puts the entry in its map.
pub proof fn lemma_sorted_put<V>(
    a: Seq<(Seq<char>, V)>,
    b: Seq<(Seq<char>, V)>,
    pos: int,
    found: bool,
    kv: (Seq<char>, V),
)
    requires
        names_sorted(a),
        0 <= pos <= a.len(),
        forall|k: int| 0 <= k < pos ==> lex_lt(#[trigger] a[k].0, kv.0),
        found ==> pos < a.len() && a[pos].0 == kv.0,
        !found ==> pos < a.len() ==> lex_lt(kv.0, a[pos].0),
        b == if found {
            a.update(pos, kv)
        } else {
            a.insert(pos, kv)
        },
    ensures
        names_sorted(b),
        assoc_map(b) == assoc_map(a).insert(kv.0, kv.1),
{
    assert forall|i: int, j: int| 0 <= i < j < b.len() implies lex_lt(
        #[trigger] b[i].0,
        #[trigger] b[j].0,
    ) by {
        if found {
            if i == pos {
                assert(lex_lt(a[i].0, a[j].0));
            } else if j == pos {
                assert(lex_lt(a[i].0, a[j].0));
            } else {
                assert(lex_lt(a[i].0, a[j].0));
            }
        } else if i < pos && j == pos {
        } else if i < pos && j > pos {
            assert(lex_lt(a[i].0, a[j - 1].0));
        } else if i == pos && j > pos {
            if j - 1 > pos {
                assert(lex_lt(a[pos].0, a[j - 1].0));
                lemma_lex_transitive(kv.0, a[pos].0, a[j - 1].0);
            }
        } else if j < pos {
            assert(lex_lt(a[i].0, a[j].0));
        } else {
            assert(lex_lt(a[i - 1].0, a[j - 1].0));
        }
    }
    lemma_assoc_map(a);
    lemma_assoc_map(b);
    let m = assoc_map(a).insert(kv.0, kv.1);
    assert(b[pos].0 == kv.0);
    assert forall|k: Seq<char>| #[trigger] assoc_map(b).contains_key(k) <==> m.contains_key(k) by {
        if assoc_map(b).contains_key(k) && k != kv.0 {
            let i = choose|i: int| 0 <= i < b.len() && b[i].0 == k;
            if found || i < pos {
                assert(a[i].0 == k);
            } else if i > pos {
                assert(a[i - 1].0 == k);
            }
        }
        if m.contains_key(k) && k != kv.0 {
            let i = choose|i: int| 0 <= i < a.len() && a[i].0 == k;
            if found || i < pos {
                assert(b[i].0 == k);
            } else {
                assert(b[i + 1].0 == k);
            }
        }
    }
    assert forall|k: Seq<char>| #[trigger] assoc_map(b).contains_key(k) implies assoc_map(b)[k]
        == m[k] by {
        let i = choose|i: int| 0 <= i < b.len() && b[i].0 == k;
        if k == kv.0 {
            if i != pos {
                lemma_lex_irreflexive(k);
                if i < pos {
                    assert(lex_lt(b[i].0, b[pos].0));
                } else {
                    assert(lex_lt(b[pos].0, b[i].0));
                }
            }
        } else {
            if found || i < pos {
                assert(a[i] == b[i]);
            } else {
                assert(a[i - 1] == b[i]);
            }
        }
    }
    assert(assoc_map(b) =~= m);
}

pub proof fn lemma_exec_names_sorted_pairs(v: Seq<(String, String)>)
    ensures
        exec_names_sorted(v) <==> names_sorted(pairs_view(v)),
{
    let a = pairs_view(v);
    if exec_names_sorted(v) {
        assert forall|i: int, j: int| 0 <= i < j < a.len() implies lex_lt(
            #[trigger] a[i].0,
            #[trigger] a[j].0,
        ) by {
            assert(a[i].0 == v[i].0@ && a[j].0 == v[j].0@);
        }
    }
    if names_sorted(a) {
        assert forall|i: int, j: int| 0 <= i < j < v.len() implies lex_lt(
            #[trigger] v[i].0@,
            #[trigger] v[j].0@,
        ) by {
            assert(a[i].0 == v[i].0@ && a[j].0 == v[j].0@);
        }
    }
}

pub proof fn lemma_exec_names_sorted_answers(v: Seq<(String, Vec<(String, String)>)>)
    ensures
        names_sorted(answers_view(v)) ==> exec_names_sorted(v),
{
    let a = answers_view(v);
    if names_sorted(a) {
        assert forall|i: int, j: int| 0 <= i < j < v.len() implies lex_lt(
            #[trigger] v[i].0@,
            #[trigger] v[j].0@,
        ) by {
            assert(a[i].0 == v[i].0@ && a[j].0 == v[j].0@);
        }
    }
}

/// Adding one key to a chunk adds its update, when the reply holds it.
proof fn lemma_chunk_updates_push(
    ks: Seq<Seq<char>>,
    k: Seq<char>,
    reply: Map<Seq<char>, Seq<char>>,
    base: Map<Seq<char>, Seq<char>>,
)
    ensures
        reply.contains_key(k) ==> base.union_prefer_right(chunk_updates(ks.push(k), reply))
            == base.union_prefer_right(chunk_updates(ks, reply)).insert(k, reply[k]),
        !reply.contains_key(k) ==> base.union_prefer_right(chunk_updates(ks.push(k), reply))
            == base.union_prefer_right(chunk_updates(ks, reply)),
{
    assert forall|x: Seq<char>| ks.push(k).contains(x) <==> ks.contains(x) || x == k by {
        if ks.push(k).contains(x) {
            let i = choose|i: int| 0 <= i < ks.push(k).len() && ks.push(k)[i] == x;
            if i < ks.len() {
                assert(ks[i] == x);
            }
        }
        if ks.contains(x) {
            let i = choose|i: int| 0 <= i < ks.len() && ks[i] == x;
            assert(ks.push(k)[i] == x);
        }
        if x == k {
            assert(ks.push(k)[ks.len() as int] == x);
        }
    }
    let u1 = chunk_updates(ks.push(k), reply);
    let u0 = chunk_updates(ks, reply);
    assert forall|x: Seq<char>| #[trigger] u1.contains_key(x) <==> (ks.push(k).contains(x)
        && reply.contains_key(x)) by {}
    assert forall|x: Seq<char>| #[trigger] u0.contains_key(x) <==> (ks.contains(x)
        && reply.contains_key(x)) by {}
    if reply.contains_key(k) {
        let lhs = base.union_prefer_right(u1);
        let rhs = base.union_prefer_right(u0).insert(k, reply[k]);
        assert forall|x: Seq<char>| #[trigger] lhs.contains_key(x) <==> rhs.contains_key(x) by {
            assert(u1.contains_key(x) <==> (ks.push(k).contains(x) && reply.contains_key(x)));
            assert(u0.contains_key(x) <==> (ks.contains(x) && reply.contains_key(x)));
            assert(ks.push(k).contains(x) <==> ks.contains(x) || x == k);
            assert(lhs.contains_key(x) <==> base.contains_key(x) || u1.contains_key(x));
            assert(rhs.contains_key(x) <==> base.contains_key(x) || u0.contains_key(x) || x == k);
        }
        assert forall|x: Seq<char>| #[trigger] lhs.contains_key(x) implies lhs[x] == rhs[x] by {
            if u1.contains_key(x) {
                assert(lhs[x] == u1[x]);
            }
        }
        assert(lhs =~= rhs);
    } else {
        assert(base.union_prefer_right(chunk_updates(ks.push(k), reply)) =~= base.union_prefer_right(
            chunk_updates(ks, reply),
        ));
    }
}

/// Sets the value of `name` in the sorted association list `v`, adding the name if it is new.
fn upsert(v: &mut Vec<(String, String)>, name: String, value: String)
    requires
        exec_names_sorted(old(v)@),
    ensures
        exec_names_sorted(final(v)@),
        assoc_map(pairs_view(final(v)@)) == assoc_map(pairs_view(old(v)@)).insert(name@, value@),
{
    let ghost old_v = v@;
    let ghost kv = (name@, value@);
    let (pos, found) = position_of(v, name.as_str());
    proof {
        lemma_exec_names_sorted_pairs(old_v);
    }
    if found {
        v.set(pos, (name, value));
        assert(pairs_view(v@) =~= pairs_view(old_v).update(pos as int, kv));
    } else {
        v.insert(pos, (name, value));
        assert(pairs_view(v@) =~= pairs_view(old_v).insert(pos as int, kv));
    }
    proof {
        lemma_sorted_put(pairs_view(old_v), pairs_view(v@), pos as int, found, kv);
        lemma_exec_names_sorted_pairs(v@);
    }
}

/// Replies to a chunk update the keys of the chunk that they hold, and nothing else.
pub open spec fn chunk_updates(chunk: Seq<Seq<char>>, reply: Map<Seq<char>, Seq<char>>) -> Map<
    Seq<char>,
    Seq<char>,
> {
    Map::new(|k: Seq<char>| chunk.contains(k) && reply.contains_key(k), |k: Seq<char>| reply[k])
}

/// What the answers for `object` become once a reply to `chunk` is merged.
pub open spec fn merged_object(
    before: Map<Seq<char>, Map<Seq<char>, Seq<char>>>,
    object: Seq<char>,
    chunk: Seq<Seq<char>>,
    reply: Map<Seq<char>, Seq<char>>,
) -> Map<Seq<char>, Seq<char>> {
    let old_values = if before.contains_key(object) {
        before[object]
    } else {
        Map::empty()
    };
    old_values.union_prefer_right(chunk_updates(chunk, reply))
}

/// The answers after merging the reply to one chunk of `object`'s keys.
pub open spec fn spec_merge(
    before: Map<Seq<char>, Map<Seq<char>, Seq<char>>>,
    object: Seq<char>,
    chunk: Seq<Seq<char>>,
    reply: Option<Seq<KeyValue>>,
) -> Map<Seq<char>, Map<Seq<char>, Seq<char>>> {
    match reply {
        None => before,
        Some(r) => before.insert(object, merged_object(before, object, chunk, assoc_map(r))),
    }
}

pub open spec fn reply_view(reply: Option<Vec<(String, String)>>) -> Option<Seq<KeyValue>> {
    match reply {
        Some(r) => Some(pairs_view(r@)),
        None => None,
    }
}

/// Merges the device's reply to one request into `answers`.
///
/// `chunk` lists the keys that were asked for under `object`. `reply` is the part of the
/// device's answer that concerns `object`, as key and value strings, or `None` when the answer
/// holds nothing for `object` that is an object of keys; then nothing changes, and an object that
/// never gets such a reply gets no entry. Otherwise `object` gets an entry, and every asked-for
/// key the reply holds takes the reply's value; a key the device left out stays as it was, so
/// it is absent unless an earlier reply held it.
pub fn merge_reply(
    answers: &mut DeviceAnswers,
    object: &str,
    chunk: &Vec<String>,
    reply: Option<Vec<(String, String)>>,
)
    requires
        old(answers).well_formed(),
    ensures
        final(answers).well_formed(),
        answers_map(final(answers)@) == spec_merge(
            answers_map(old(answers)@),
            object@,
            strs(chunk@),
            reply_view(reply),
        ),
{
    let ghost before = answers_map(answers@);
    let ghost old_v = answers.objects@;
    let r = match reply {
        None => {
            return ;
        },
        Some(r) => r,
    };
    let ghost rmap = assoc_map(pairs_view(r@));
    let ghost ks = strs(chunk@);
    proof {
        lemma_exec_names_sorted_answers(old_v);
    }
    let (pos, found) = position_of(&answers.objects, object);
    proof {
        lemma_assoc_map(answers@);
    }
    let mut inner: Vec<(String, String)> = if found {
        let e = answers.objects.remove(pos);
        proof {
            assert(answers_view(old_v)[pos as int] == (e.0@, pairs_view(e.1@)));
            assert(answers_view(old_v)[pos as int].0 == object@);
            lemma_exec_names_sorted_pairs(e.1@);
        }
        e.1
    } else {
        proof {
            assert forall|k: int| 0 <= k < old_v.len() implies answers_view(old_v)[k].0 != object@ by {
                if k < pos {
                    assert(lex_lt(old_v[k].0@, object@));
                    lemma_lex_irreflexive(object@);
                } else {
                    assert(lex_lt(object@, old_v[pos as int].0@));
                    if k > pos {
                        assert(lex_lt(answers_view(old_v)[pos as int].0, answers_view(old_v)[k].0));
                        lemma_lex_transitive(object@, old_v[pos as int].0@, old_v[k].0@);
                    }
                    lemma_lex_irreflexive(object@);
                }
            }
        }
        Vec::new()
    };
    let ghost old_values = if before.contains_key(object@) {
        before[object@]
    } else {
        Map::empty()
    };
    proof {
        if found {
            assert(before[object@] == assoc_map(assoc_map(answers_view(old_v))[object@]));
        }
        assert(assoc_map(pairs_view(inner@)) =~= old_values.union_prefer_right(
            chunk_updates(ks.take(0), rmap),
        ));
    }
    let mut t: usize = 0;
    while t < chunk.len()
        invariant
            ks == strs(chunk@),
            rmap == assoc_map(pairs_view(r@)),
            t <= chunk@.len(),
            exec_names_sorted(inner@),
            assoc_map(pairs_view(inner@)) == old_values.union_prefer_right(
                chunk_updates(ks.take(t as int), rmap),
            ),
        decreases chunk.len() - t,
    {
        let ghost prev = assoc_map(pairs_view(inner@));
        let ghost k = ks[t as int];
        assert(ks.take(t + 1) =~= ks.take(t as int).push(k));
        let j = find_last(&r, chunk[t].as_str());
        proof {
            lemma_find_last_is_map(r@, k, match j { Some(j) => Some(j as int), None => None });
            lemma_chunk_updates_push(ks.take(t as int), k, rmap, old_values);
        }
        match j {
            Some(j) => {
                upsert(&mut inner, chunk[t].clone(), r[j].1.clone());
            },
            None => {},
        }
        t = t + 1;
    }
    assert(ks.take(chunk@.len() as int) =~= ks);
    let ghost inner_view = pairs_view(inner@);
    let name = object.to_owned();
    let ghost mid = answers.objects@;
    answers.objects.insert(pos, (name, inner));
    proof {
        let a = answers_view(old_v);
        let b = answers_view(answers.objects@);
        let kv = (object@, inner_view);
        if found {
            assert(mid =~= old_v.remove(pos as int));
            assert(b =~= a.update(pos as int, kv));
        } else {
            assert(b =~= a.insert(pos as int, kv));
        }
        lemma_sorted_put(a, b, pos as int, found, kv);
        lemma_exec_names_sorted_pairs(inner@);
        assert forall|i: int| 0 <= i < b.len() implies names_sorted(#[trigger] b[i].1) by {
            if i == pos {
            } else if found || i < pos {
                assert(b[i] == a[i]);
            } else {
                assert(b[i] == a[i - 1]);
            }
        }
        assert(answers_map(b) =~= before.insert(object@, assoc_map(inner_view)));
    }
}

/// Raises a requested chunk size to at least one key per request.
pub fn effective_chunk_size(requested: usize) -> (n: usize)
    ensures
        n == if requested == 0 {
            1
        } else {
            requested
        },
        n >= 1,
{
    if requested == 0 {
        1
    } else {
        requested
    }
}

/// `keys` cut into consecutive chunks of `size` keys, the last one possibly shorter.
pub open spec fn chunks_of(keys: Seq<Seq<char>>, size: int) -> Seq<Seq<Seq<char>>>
    decreases keys.len(),
{
    if keys.len() == 0 || size <= 0 {
        Seq::empty()
    } else if keys.len() <= size {
        seq![keys]
    } else {
        seq![keys.take(size)] + chunks_of(keys.skip(size), size)
    }
}

/// A request: an object name and the keys asked for under it in one POST.
pub type Request = (Seq<char>, Seq<Seq<char>>);

/// The requests for one object.
pub open spec fn object_requests(entry: ProfileEntry, size: int) -> Seq<Request> {
    chunks_of(entry.1, size).map_values(|c: Seq<Seq<char>>| (entry.0, c))
}

/// Every request a profile takes, object by object in its order; an object with no keys takes
/// none.
pub open spec fn spec_plan(entries: Seq<ProfileEntry>, size: int) -> Seq<Request>
    decreases entries.len(),
{
    if entries.len() == 0 {
        Seq::empty()
    } else {
        spec_plan(entries.drop_last(), size) + object_requests(entries.last(), size)
    }
}

pub open spec fn requests_view(v: Seq<(String, Vec<String>)>) -> Seq<Request> {
    v.map_values(|r: (String, Vec<String>)| (r.0@, strs(r.1@)))
}

/// Copies `keys[from..to]`.
fn clone_range(keys: &Vec<String>, from: usize, to: usize) -> (r: Vec<String>)
    requires
        from <= to <= keys@.len(),
    ensures
        strs(r@) == strs(keys@).subrange(from as int, to as int),
{
    let mut r: Vec<String> = Vec::new();
    let mut i = from;
    while i < to
        invariant
            from <= i <= to <= keys@.len(),
            strs(r@) == strs(keys@).subrange(from as int, i as int),
        decreases to - i,
    {
        let ghost prev = r@;
        r.push(keys[i].clone());
        assert(strs(r@) =~= strs(prev).push(keys@[i as int]@));
        assert(strs(keys@).subrange(from as int, i + 1) =~= strs(keys@).subrange(
            from as int,
            i as int,
        ).push(keys@[i as int]@));
        i = i + 1;
    }
    r
}

/// The POST bodies a request map is sent as: for each object in order, its keys cut into chunks
/// of at most `chunk_size`.
pub fn plan_requests(request: &MetricProfile, chunk_size: usize) -> (r: Vec<(String, Vec<String>)>)
    requires
        chunk_size >= 1,
    ensures
        requests_view(r@) == spec_plan(request@, chunk_size as int),
{
    let ghost es = request@;
    let ghost size = chunk_size as int;
    let mut out: Vec<(String, Vec<String>)> = Vec::new();
    let mut i: usize = 0;
    assert(es.take(0) =~= Seq::<ProfileEntry>::empty());
    while i < request.objects.len()
        invariant
            es == request@,
            size == chunk_size as int,
            chunk_size >= 1,
            i <= es.len(),
            requests_view(out@) == spec_plan(es.take(i as int), size),
        decreases request.objects.len() - i,
    {
        let name = &request.objects[i].0;
        let keys = &request.objects[i].1;
        let ghost ks = strs(keys@);
        let ghost base = requests_view(out@);
        let ghost mut done: Seq<Seq<Seq<char>>> = Seq::empty();
        let n = keys.len();
        let mut j: usize = 0;
        assert(ks.skip(0) =~= ks);
        while j < n
            invariant
                chunk_size >= 1,
                size == chunk_size as int,
                n == keys@.len(),
                ks == strs(keys@),
                j <= n,
                chunks_of(ks, size) == done + chunks_of(ks.skip(j as int), size),
                requests_view(out@) == base + done.map_values(|c: Seq<Seq<char>>| (name@, c)),
            decreases n - j,
        {
            let end = if n - j > chunk_size {
                j + chunk_size
            } else {
                n
            };
            let chunk = clone_range(keys, j, end);
            let ghost rest = ks.skip(j as int);
            proof {
                if n - j > chunk_size {
                    assert(rest.take(size) =~= ks.subrange(j as int, end as int));
                    assert(rest.skip(size) =~= ks.skip(end as int));
                } else {
                    assert(rest =~= ks.subrange(j as int, end as int));
                    assert(ks.skip(end as int) =~= Seq::<Seq<char>>::empty());
                }
                done = done.push(strs(chunk@));
            }
            let ghost prev_out = out@;
            out.push((name.clone(), chunk));
            assert(requests_view(out@) =~= requests_view(prev_out).push((name@, strs(chunk@))));
            assert(done.map_values(|c: Seq<Seq<char>>| (name@, c)) =~= done.drop_last().map_values(
                |c: Seq<Seq<char>>| (name@, c),
            ).push((name@, strs(chunk@))));
            j = end;
        }
        proof {
            assert(ks.skip(n as int) =~= Seq::<Seq<char>>::empty());
            assert(done =~= chunks_of(ks, size));
            assert(es.take(i + 1).drop_last() =~= es.take(i as int));
            assert(es[i as int] == (name@, ks));
        }
        i = i + 1;
    }
    assert(es.take(es.len() as int) =~= es);
    out
}

/// Cutting keys into chunks loses none, repeats none, and keeps their order; every chunk holds
/// at least one and at most `size` keys, and every chunk but the last exactly `size`.
pub proof fn lemma_chunks_cover(keys: Seq<Seq<char>>, size: int)
    requires
        size >= 1,
    ensures
        chunks_of(keys, size).flatten() == keys,
        forall|c: int|
            0 <= c < chunks_of(keys, size).len() ==> 1 <= #[trigger] chunks_of(keys, size)[c].len()
                <= size,
        forall|c: int|
            0 <= c < chunks_of(keys, size).len() - 1 ==> #[trigger] chunks_of(keys, size)[c].len()
                == size,
    decreases keys.len(),
{
    if keys.len() == 0 {
        assert(chunks_of(keys, size).flatten() =~= keys);
    } else if keys.len() <= size {
        assert(chunks_of(keys, size) == seq![keys]);
        assert(seq![keys].flatten() =~= keys + seq![keys].drop_first().flatten());
        assert(seq![keys].drop_first() =~= Seq::<Seq<Seq<char>>>::empty());
        assert(keys + Seq::<Seq<char>>::empty() =~= keys);
    } else {
        lemma_chunks_cover(keys.skip(size), size);
        let c = chunks_of(keys, size);
        assert((seq![keys.take(size)] + chunks_of(keys.skip(size), size)).drop_first()
            =~= chunks_of(keys.skip(size), size));
        assert(keys.take(size) + keys.skip(size) =~= keys);
        assert forall|x: int| 0 <= x < c.len() implies 1 <= #[trigger] c[x].len() <= size && (x
            < c.len() - 1 ==> c[x].len() == size) by {
            if x > 0 {
                assert(c[x] == chunks_of(keys.skip(size), size)[x - 1]);
            }
        }
    }
}

/// The (object, key) pairs of `keys` under `object`, in order.
pub open spec fn tagged(object: Seq<char>, keys: Seq<Seq<char>>) -> Seq<(Seq<char>, Seq<char>)> {
    keys.map_values(|k: Seq<char>| (object, k))
}

proof fn lemma_tagged_flatten(object: Seq<char>, cs: Seq<Seq<Seq<char>>>)
    ensures
        cs.map_values(|c: Seq<Seq<char>>| tagged(object, c)).flatten() == tagged(object, cs.flatten()),
    decreases cs.len(),
{
    if cs.len() > 0 {
        lemma_tagged_flatten(object, cs.drop_first());
        let m = cs.map_values(|c: Seq<Seq<char>>| tagged(object, c));
        assert(m.drop_first() =~= cs.drop_first().map_values(|c: Seq<Seq<char>>| tagged(object, c)));
        assert(m.first() == tagged(object, cs.first()));
        assert(tagged(object, cs.first() + cs.drop_first().flatten()) =~= tagged(object, cs.first())
            + tagged(object, cs.drop_first().flatten()));
    } else {
        assert(cs.map_values(|c: Seq<Seq<char>>| tagged(object, c)).flatten() =~= tagged(object, cs.flatten()));
    }
}

/// The requests of a profile ask for every (object, key) pair of the profile once, in the
/// profile's order, and nothing else; each request asks for at least one and at most `size`
/// keys.
pub proof fn lemma_plan_covers(entries: Seq<ProfileEntry>, size: int)
    requires
        size >= 1,
    ensures
        spec_plan(entries, size).map_values(|r: Request| tagged(r.0, r.1)).flatten()
            == entries.map_values(|e: ProfileEntry| tagged(e.0, e.1)).flatten(),
        forall|r: int|
            0 <= r < spec_plan(entries, size).len() ==> 1 <= #[trigger] spec_plan(entries, size)[r].1.len()
                <= size,
    decreases entries.len(),
{
    if entries.len() == 0 {
        assert(spec_plan(entries, size).map_values(|r: Request| tagged(r.0, r.1)) =~= Seq::<Seq<(Seq<char>, Seq<char>)>>::empty());
        assert(entries.map_values(|e: ProfileEntry| tagged(e.0, e.1)) =~= Seq::<Seq<(Seq<char>, Seq<char>)>>::empty());
    } else {
        let p = entries.drop_last();
        let e = entries.last();
        lemma_plan_covers(p, size);
        lemma_chunks_cover(e.1, size);
        let a = spec_plan(p, size);
        let b = object_requests(e, size);
        let f = |r: Request| tagged(r.0, r.1);
        assert((a + b).map_values(f) =~= a.map_values(f) + b.map_values(f));
        vstd::seq_lib::lemma_flatten_concat(a.map_values(f), b.map_values(f));
        assert(b.map_values(f) =~= chunks_of(e.1, size).map_values(|c: Seq<Seq<char>>| tagged(e.0, c)));
        lemma_tagged_flatten(e.0, chunks_of(e.1, size));
        let g = |x: ProfileEntry| tagged(x.0, x.1);
        assert(entries.map_values(g) =~= p.map_values(g).push(tagged(e.0, e.1)));
        p.map_values(g).lemma_flatten_push(tagged(e.0, e.1));
        let pl = spec_plan(entries, size);
        assert forall|r: int| 0 <= r < pl.len() implies 1 <= #[trigger] pl[r].1.len() <= size by {
            if r < a.len() {
                assert(pl[r] == a[r]);
            } else {
                assert(pl[r] == b[r - a.len()]);
                assert(b[r - a.len()].1 == chunks_of(e.1, size)[r - a.len()]);
            }
        }
    }
}

/// What a merged reply does to the answers. A reply that holds nothing for the object changes
/// nothing. Otherwise the object has answers afterwards; a key that was asked for and that the
/// reply holds takes the reply's value for it (its last one); every other key of the object
/// keeps what it had, and so does every other object.
pub proof fn lemma_merge_reads(
    before: Map<Seq<char>, Map<Seq<char>, Seq<char>>>,
    object: Seq<char>,
    chunk: Seq<Seq<char>>,
    reply: Option<Seq<KeyValue>>,
    other: Seq<char>,
    k: Seq<char>,
)
    ensures
        reply is None ==> spec_merge(before, object, chunk, reply) == before,
        reply is Some ==> spec_merge(before, object, chunk, reply).contains_key(object),
        other != object ==> spec_merge(before, object, chunk, reply).contains_key(other)
            == before.contains_key(other),
        other != object && before.contains_key(other) ==> spec_merge(before, object, chunk, reply)[other]
            == before[other],
        forall|x: int|
            #![trigger reply->0[x]]
            reply is Some && 0 <= x < reply->0.len() && reply->0[x].0 == k && chunk.contains(k)
                && (forall|y: int| x < y < reply->0.len() ==> reply->0[y].0 != k)
                ==> spec_merge(before, object, chunk, reply)[object].contains_key(k) && spec_merge(
                before,
                object,
                chunk,
                reply,
            )[object][k] == reply->0[x].1,
        reply is Some && !(chunk.contains(k) && exists|x: int|
            0 <= x < reply->0.len() && (#[trigger] reply->0[x]).0 == k) ==> (spec_merge(
            before,
            object,
            chunk,
            reply,
        )[object].contains_key(k) <==> before.contains_key(object) && before[object].contains_key(
            k,
        )) && (before.contains_key(object) && before[object].contains_key(k) ==> spec_merge(
            before,
            object,
            chunk,
            reply,
        )[object][k] == before[object][k]),
{
    match reply {
        None => {},
        Some(r) => {
            lemma_assoc_map_dom(r, k);
            assert forall|x: int|
                #![trigger r[x]]
                0 <= x < r.len() && r[x].0 == k && chunk.contains(k) && (forall|y: int|
                    x < y < r.len() ==> r[y].0 != k) implies spec_merge(
                before,
                object,
                chunk,
                reply,
            )[object].contains_key(k) && spec_merge(before, object, chunk, reply)[object][k]
                == r[x].1 by {
                assert forall|y: int| x < y < r.len() implies (#[trigger] r[y]).0 != k by {}
                lemma_assoc_map_last(r, k, x);
            }
        },
    }
}

} // verus!
