//! Deriving a device's key list from the web UI it serves.
//!
//! A key the web UI never mentions cannot be found, so what discovery arrives at is the
//! intersection of what `/js/senec.min.js` and the pages it names know about with what this one
//! device answers for.
use vstd::prelude::*;

use crate::order::{insert_sorted, lemma_sorted_distinct_is, sorted_distinct, strictly_sorted, strs};
use crate::scan::{found_of, founds_of, group1, group2, scan, scan_text, Found, FoundAt, Pattern, found_within};
use crate::text::{chars_at, chars_of, has_prefix, push_char, push_range, string_of, with_leading_slash};
use crate::profile::lemma_push_to_set;

verus! {

/// How a page path named by the script is requested: an absolute URL is kept, `./x` becomes
/// `/x`, and a relative path gets a leading slash.
pub open spec fn spec_normalize_path(path: Seq<char>) -> Seq<char> {
    if has_prefix(path, "http://"@) || has_prefix(path, "https://"@) {
        path
    } else if has_prefix(path, "./"@) {
        seq!['/'] + path.skip(2)
    } else if path.len() > 0 && path[0] == '/' {
        path
    } else {
        seq!['/'] + path
    }
}

/// Normalising a page path twice gives what normalising it once gives, and the result is an
/// absolute URL or starts with `/`.
pub proof fn lemma_normalize_path_idempotent(path: Seq<char>)
    ensures
        spec_normalize_path(spec_normalize_path(path)) == spec_normalize_path(path),
        has_prefix(spec_normalize_path(path), "http://"@) || has_prefix(
            spec_normalize_path(path),
            "https://"@,
        ) || (spec_normalize_path(path).len() > 0 && spec_normalize_path(path)[0] == '/'),
{
    reveal_strlit("http://");
    reveal_strlit("https://");
    reveal_strlit("./");
    let n = spec_normalize_path(path);
    if !(has_prefix(path, "http://"@) || has_prefix(path, "https://"@)) {
        assert(n[0] == '/');
        assert(n.subrange(0, 7)[0] == '/' || n.len() < 7);
        assert(n.subrange(0, 8)[0] == '/' || n.len() < 8);
        assert(n.subrange(0, 2)[0] == '/' || n.len() < 2);
        assert(!has_prefix(n, "http://"@));
        assert(!has_prefix(n, "https://"@));
        assert(!has_prefix(n, "./"@));
    }
}

/// Normalises a page path named by the script.
pub fn normalize_path(path: &str) -> (r: String)
    ensures
        r@ == spec_normalize_path(path@),
{
    let cs = chars_of(path);
    let http = chars_of("http://");
    let https = chars_of("https://");
    let dot_slash = chars_of("./");
    if chars_at(&cs, 0, &http) || chars_at(&cs, 0, &https) {
        let r = string_of(&cs, 0, cs.len());
        assert(cs@.subrange(0, cs@.len() as int) =~= cs@);
        return r;
    }
    if chars_at(&cs, 0, &dot_slash) {
        proof {
            reveal_strlit("./");
        }
        let mut r = String::new();
        push_char(&mut r, '/');
        push_range(&mut r, &cs, 2, cs.len());
        assert(cs@.subrange(2, cs@.len() as int) =~= cs@.skip(2));
        return r;
    }
    with_leading_slash(path)
}

/// The first group of each match.
pub open spec fn firsts(s: Seq<char>, ms: Seq<Found>) -> Seq<Seq<char>> {
    ms.map_values(|m: Found| group1(s, m))
}

/// Both groups of each match.
pub open spec fn pairs_of(s: Seq<char>, ms: Seq<Found>) -> Seq<(Seq<char>, Seq<char>)> {
    ms.map_values(|m: Found| (group1(s, m), group2(s, m)))
}

/// The normalised form of each path.
pub open spec fn normalized_paths(ps: Seq<Seq<char>>) -> Seq<Seq<char>> {
    ps.map_values(|p: Seq<char>| spec_normalize_path(p))
}

/// The objects the script registers with `add_json_object`, each once, in increasing order.
pub open spec fn spec_extract_objects(js: Seq<char>) -> Seq<Seq<char>> {
    sorted_distinct(firsts(js, scan(Pattern::JsonObject, js, 0)).to_set())
}

/// The objects the script adds properties to, each once, in increasing order.
pub open spec fn spec_extract_property_objects(js: Seq<char>) -> Seq<Seq<char>> {
    sorted_distinct(firsts(js, scan(Pattern::Property, js, 0)).to_set())
}

/// The (object, key) pairs of every `add_property_to_object` call, in order.
pub open spec fn spec_extract_properties(js: Seq<char>) -> Seq<(Seq<char>, Seq<char>)> {
    pairs_of(js, scan(Pattern::Property, js, 0))
}

/// The objects the script's controls act on, each once, in increasing order.
pub open spec fn spec_extract_action_objects(js: Seq<char>) -> Seq<Seq<char>> {
    sorted_distinct(firsts(js, scan(Pattern::Action, js, 0)).to_set())
}

/// The (object, key) pairs of every control handler call, in order.
pub open spec fn spec_extract_action_keys(js: Seq<char>) -> Seq<(Seq<char>, Seq<char>)> {
    pairs_of(js, scan(Pattern::Action, js, 0))
}

/// The pages the script names, normalised, each once, in increasing order.
pub open spec fn spec_extract_html_paths(js: Seq<char>) -> Seq<Seq<char>> {
    sorted_distinct(normalized_paths(firsts(js, scan(Pattern::HtmlPath, js, 0))).to_set())
}

/// The characters stripped from both ends of an id.
pub open spec fn is_id_padding(c: char) -> bool {
    c == '"' || c == '\'' || c == ' '
}

/// `t` without the quotes and spaces at either end (`trim_matches(['"', '\'', ' '])`).
pub open spec fn trim_id(t: Seq<char>) -> Seq<char>
    decreases t.len(),
{
    if t.len() > 0 && is_id_padding(t[0]) {
        trim_id(t.drop_first())
    } else if t.len() > 0 && is_id_padding(t.last()) {
        trim_id(t.drop_last())
    } else {
        t
    }
}

pub open spec fn non_empty_id() -> spec_fn(Seq<char>) -> bool {
    |t: Seq<char>| t.len() > 0
}

/// The ids of a page's elements, trimmed, empty ones dropped, in order.
pub open spec fn spec_extract_ids(html: Seq<char>) -> Seq<Seq<char>> {
    firsts(html, scan(Pattern::IdAttribute, html, 0)).map_values(|t: Seq<char>| trim_id(t)).filter(
        non_empty_id(),
    )
}

/// The first groups of `found` (normalised as paths when `as_path`), each once, in increasing
/// order.
fn distinct_firsts(cs: &Vec<char>, found: &Vec<FoundAt>, as_path: bool) -> (r: Vec<String>)
    requires
        forall|k: int| 0 <= k < found@.len() ==> found_within(found_of(#[trigger] found@[k]), 0, cs@.len() as int),
    ensures
        strictly_sorted(strs(r@)),
        strs(r@).to_set() == if as_path {
            normalized_paths(firsts(cs@, founds_of(found@))).to_set()
        } else {
            firsts(cs@, founds_of(found@)).to_set()
        },
{
    let ghost all = if as_path {
        normalized_paths(firsts(cs@, founds_of(found@)))
    } else {
        firsts(cs@, founds_of(found@))
    };
    let mut out: Vec<String> = Vec::new();
    let mut k: usize = 0;
    assert(all.take(0).to_set() =~= strs(out@).to_set());
    while k < found.len()
        invariant
            forall|x: int| 0 <= x < found@.len() ==> found_within(found_of(#[trigger] found@[x]), 0, cs@.len() as int),
            all == if as_path {
                normalized_paths(firsts(cs@, founds_of(found@)))
            } else {
                firsts(cs@, founds_of(found@))
            },
            k <= found@.len(),
            strictly_sorted(strs(out@)),
            strs(out@).to_set() == all.take(k as int).to_set(),
        decreases found.len() - k,
    {
        let m = found[k];
        assert(found_within(found_of(found@[k as int]), 0, cs@.len() as int));
        let text = string_of(cs, m.1, m.2);
        let item = if as_path {
            normalize_path(text.as_str())
        } else {
            text
        };
        assert(item@ == all[k as int]);
        assert(all.take(k + 1) =~= all.take(k as int).push(all[k as int]));
        proof {
            lemma_push_to_set(all.take(k as int), all[k as int]);
        }
        insert_sorted(&mut out, item);
        k = k + 1;
    }
    assert(all.take(found@.len() as int) =~= all);
    out
}

/// Both groups of each of `found`, in order.
fn pair_list(cs: &Vec<char>, found: &Vec<FoundAt>) -> (r: Vec<(String, String)>)
    requires
        forall|k: int| 0 <= k < found@.len() ==> found_within(found_of(#[trigger] found@[k]), 0, cs@.len() as int),
    ensures
        r@.map_values(|p: (String, String)| (p.0@, p.1@)) == pairs_of(cs@, founds_of(found@)),
{
    let mut out: Vec<(String, String)> = Vec::new();
    let mut k: usize = 0;
    while k < found.len()
        invariant
            forall|x: int| 0 <= x < found@.len() ==> found_within(found_of(#[trigger] found@[x]), 0, cs@.len() as int),
            k <= found@.len(),
            out@.map_values(|p: (String, String)| (p.0@, p.1@)) == pairs_of(cs@, founds_of(found@)).take(k as int),
        decreases found.len() - k,
    {
        let m = found[k];
        assert(found_within(found_of(found@[k as int]), 0, cs@.len() as int));
        let a = string_of(cs, m.1, m.2);
        let b = string_of(cs, m.3, m.4);
        let ghost prev = out@;
        assert(founds_of(found@)[k as int] == found_of(m));
        assert(pairs_of(cs@, founds_of(found@))[k as int] == (a@, b@));
        out.push((a, b));
        assert(out@.map_values(|p: (String, String)| (p.0@, p.1@)) =~= prev.map_values(|p: (String, String)| (p.0@, p.1@)).push((a@, b@)));
        assert(out@.map_values(|p: (String, String)| (p.0@, p.1@)) =~= pairs_of(cs@, founds_of(found@)).take(k + 1));
        k = k + 1;
    }
    assert(pairs_of(cs@, founds_of(found@)).take(found@.len() as int) =~= pairs_of(cs@, founds_of(found@)));
    out
}

/// The objects the script registers with `add_json_object`, each once, in increasing order.
pub fn extract_objects(js: &str) -> (r: Vec<String>)
    ensures
        strictly_sorted(strs(r@)),
        strs(r@) == spec_extract_objects(js@),
{
    let cs = chars_of(js);
    let found = crate::scan::scan_text(Pattern::JsonObject, &cs);
    let r = distinct_firsts(&cs, &found, false);
    proof {
        lemma_sorted_distinct_is(strs(r@));
    }
    r
}

/// The objects the script adds properties to, each once, in increasing order.
pub fn extract_property_objects(js: &str) -> (r: Vec<String>)
    ensures
        strictly_sorted(strs(r@)),
        strs(r@) == spec_extract_property_objects(js@),
{
    let cs = chars_of(js);
    let found = crate::scan::scan_text(Pattern::Property, &cs);
    let r = distinct_firsts(&cs, &found, false);
    proof {
        lemma_sorted_distinct_is(strs(r@));
    }
    r
}

/// The (object, key) pair of every `add_property_to_object` call, in order.
pub fn extract_properties(js: &str) -> (r: Vec<(String, String)>)
    ensures
        r@.map_values(|p: (String, String)| (p.0@, p.1@)) == spec_extract_properties(js@),
{
    let cs = chars_of(js);
    let found = crate::scan::scan_text(Pattern::Property, &cs);
    pair_list(&cs, &found)
}

/// The objects the script's controls act on, each once, in increasing order.
pub fn extract_action_objects(js: &str) -> (r: Vec<String>)
    ensures
        strictly_sorted(strs(r@)),
        strs(r@) == spec_extract_action_objects(js@),
{
    let cs = chars_of(js);
    let found = crate::scan::scan_text(Pattern::Action, &cs);
    let r = distinct_firsts(&cs, &found, false);
    proof {
        lemma_sorted_distinct_is(strs(r@));
    }
    r
}

/// The (object, key) pair of every control handler call, in order.
pub fn extract_action_keys(js: &str) -> (r: Vec<(String, String)>)
    ensures
        r@.map_values(|p: (String, String)| (p.0@, p.1@)) == spec_extract_action_keys(js@),
{
    let cs = chars_of(js);
    let found = crate::scan::scan_text(Pattern::Action, &cs);
    pair_list(&cs, &found)
}

/// The pages the script names, normalised, each once, in increasing order.
pub fn extract_html_paths(js: &str) -> (r: Vec<String>)
    ensures
        strictly_sorted(strs(r@)),
        strs(r@) == spec_extract_html_paths(js@),
{
    let cs = chars_of(js);
    let found = crate::scan::scan_text(Pattern::HtmlPath, &cs);
    let r = distinct_firsts(&cs, &found, true);
    proof {
        lemma_sorted_distinct_is(strs(r@));
    }
    r
}

proof fn lemma_trim_id(t: Seq<char>, a: int, b: int)
    requires
        0 <= a <= b <= t.len(),
        forall|k: int| 0 <= k < a ==> is_id_padding(#[trigger] t[k]),
        forall|k: int| b <= k < t.len() ==> is_id_padding(#[trigger] t[k]),
        a < b ==> !is_id_padding(t[a]) && !is_id_padding(t[b - 1]),
    ensures
        trim_id(t) == t.subrange(a, b),
    decreases t.len(),
{
    if t.len() > 0 && is_id_padding(t[0]) {
        let d = t.drop_first();
        if a > 0 {
            lemma_trim_id(d, a - 1, b - 1);
            assert(d.subrange(a - 1, b - 1) =~= t.subrange(a, b));
        } else {
            assert(b == 0);
            lemma_trim_id(d, 0, 0);
            assert(d.subrange(0, 0) =~= t.subrange(0, 0));
        }
    } else if t.len() > 0 && is_id_padding(t.last()) {
        assert(b < t.len()) by {
            if b == t.len() {
                if a == b {
                    assert(is_id_padding(t[0]));
                }
            }
        }
        lemma_trim_id(t.drop_last(), a, b);
        assert(t.drop_last().subrange(a, b) =~= t.subrange(a, b));
    } else {
        if t.len() > 0 {
            assert(a == 0);
            assert(b == t.len());
        }
        assert(t.subrange(a, b) =~= t);
    }
}

/// The bounds of `cs[from..to]` without the padding at either end.
fn trim_bounds(cs: &Vec<char>, from: usize, to: usize) -> (r: (usize, usize))
    requires
        from <= to <= cs@.len(),
    ensures
        from <= r.0 <= r.1 <= to,
        trim_id(cs@.subrange(from as int, to as int)) == cs@.subrange(r.0 as int, r.1 as int),
{
    let mut a = from;
    while a < to && (cs[a] == '"' || cs[a] == '\'' || cs[a] == ' ')
        invariant
            from <= a <= to <= cs@.len(),
            forall|k: int| from <= k < a ==> is_id_padding(#[trigger] cs@[k]),
        decreases to - a,
    {
        a = a + 1;
    }
    let mut b = to;
    while b > a && (cs[b - 1] == '"' || cs[b - 1] == '\'' || cs[b - 1] == ' ')
        invariant
            from <= a <= b <= to <= cs@.len(),
            forall|k: int| b <= k < to ==> is_id_padding(#[trigger] cs@[k]),
        decreases b - a,
    {
        b = b - 1;
    }
    proof {
        let t = cs@.subrange(from as int, to as int);
        assert forall|k: int| 0 <= k < a - from implies is_id_padding(#[trigger] t[k]) by {
            assert(t[k] == cs@[from + k]);
        }
        assert forall|k: int| b - from <= k < t.len() implies is_id_padding(#[trigger] t[k]) by {
            assert(t[k] == cs@[from + k]);
        }
        if a < b {
            assert(t[a - from] == cs@[a as int]);
            assert(t[b - 1 - from] == cs@[b - 1]);
        }
        lemma_trim_id(t, a - from, b - from);
        assert(t.subrange(a - from, b - from) =~= cs@.subrange(a as int, b as int));
    }
    (a, b)
}

/// The ids of a page's elements, trimmed of quotes and spaces, empty ones dropped, in order.
///
/// An id written `id="..."` is the text between the quotes; one written without quotes runs to
/// the next white space or `>`.
pub fn extract_ids(html: &str) -> (r: Vec<String>)
    ensures
        strs(r@) == spec_extract_ids(html@),
{
    let cs = chars_of(html);
    let found = crate::scan::scan_text(Pattern::IdAttribute, &cs);
    let ghost all = firsts(cs@, founds_of(found@)).map_values(|t: Seq<char>| trim_id(t));
    let mut out: Vec<String> = Vec::new();
    let mut k: usize = 0;
    while k < found.len()
        invariant
            forall|x: int| 0 <= x < found@.len() ==> found_within(found_of(#[trigger] found@[x]), 0, cs@.len() as int),
            all == firsts(cs@, founds_of(found@)).map_values(|t: Seq<char>| trim_id(t)),
            k <= found@.len(),
            strs(out@) == all.take(k as int).filter(non_empty_id()),
        decreases found.len() - k,
    {
        let m = found[k];
        assert(found_within(found_of(found@[k as int]), 0, cs@.len() as int));
        let (a, b) = trim_bounds(&cs, m.1, m.2);
        assert(founds_of(found@)[k as int] == found_of(m));
        assert(all[k as int] == cs@.subrange(a as int, b as int));
        assert(all.take(k + 1) =~= all.take(k as int).push(all[k as int]));
        proof {
            all.take(k as int).lemma_filter_push(all[k as int], non_empty_id());
        }
        if a < b {
            let id = string_of(&cs, a, b);
            let ghost prev = out@;
            out.push(id);
            assert(strs(out@) =~= strs(prev).push(id@));
        }
        k = k + 1;
    }
    assert(all.take(found@.len() as int) =~= all);
    out
}

/// The keys of a control handler call are extracted: for each of the six handlers the web UI
/// wires controls with, the script `h("O","K")`, with `O` and `K` names made of `A`-`Z`, `0`-`9`
/// and `_`, yields the one pair `(O, K)`, and `O` as its one action object.
pub proof fn lemma_handler_keys_extracted(h: Seq<char>, o: Seq<char>, k: Seq<char>)
    requires
        h == "handleButtonClick"@ ||
            h == "handleSelectUpdate"@ ||
            h == "handleCheckBoxUpdate"@ ||
            h == "handleTextAreaUpdate"@ ||
            h == "handleTextAreaUpdateArray"@ ||
            h == "handleCheckBoxUpdateArray"@,
        o.len() > 0,
        k.len() > 0,
        forall|j: int| 0 <= j < o.len() ==> ('A' <= #[trigger] o[j] <= 'Z' || '0' <= o[j] <= '9'
            || o[j] == '_'),
        forall|j: int| 0 <= j < k.len() ==> ('A' <= #[trigger] k[j] <= 'Z' || '0' <= k[j] <= '9'
            || k[j] == '_'),
    ensures
        spec_extract_action_keys(h + "(\""@ + o + "\",\""@ + k + "\")"@) == seq![(o, k)],
        spec_extract_action_objects(h + "(\""@ + o + "\",\""@ + k + "\")"@) == seq![o],
{
    let s = h + "(\""@ + o + "\",\""@ + k + "\")"@;
    crate::scan::lemma_handler_call_found(h, o, k);
    let ms = scan(Pattern::Action, s, 0);
    assert(pairs_of(s, ms) =~= seq![(o, k)]);
    assert(firsts(s, ms) =~= seq![o]);
    lemma_sorted_distinct_is(seq![o]);
}

/// A script that names one page as a quoted path of `A`-`Z`, `a`-`z`, `0`-`9`, `_`, `.`, `/`
/// and `-`, at least one of them before a final `.html`, yields that page, normalised.
pub proof fn lemma_quoted_page_extracted(p: Seq<char>)
    requires
        p.len() >= 6,
        p.subrange(p.len() - 5, p.len() as int) == ".html"@,
        forall|j: int| 0 <= j < p.len() ==> ('A' <= #[trigger] p[j] <= 'Z' || 'a' <= p[j] <= 'z'
            || '0' <= p[j] <= '9' || p[j] == '_' || p[j] == '.' || p[j] == '/' || p[j] == '-'),
    ensures
        spec_extract_html_paths(seq!['"'] + p + seq!['"']) == seq![spec_normalize_path(p)],
{
    let s = seq!['"'] + p + seq!['"'];
    crate::scan::lemma_quoted_html_path(p);
    let ms = scan(Pattern::HtmlPath, s, 0);
    assert(s.subrange(1, p.len() + 1int) =~= p);
    assert(normalized_paths(firsts(s, ms)) =~= seq![spec_normalize_path(p)]);
    lemma_sorted_distinct_is(seq![spec_normalize_path(p)]);
}

/// The object of an `add_json_object("O")` call, with `O` a name made of `A`-`Z`, `0`-`9` and
/// `_`, is extracted.
pub proof fn lemma_json_object_extracted(o: Seq<char>)
    requires
        o.len() > 0,
        forall|j: int| 0 <= j < o.len() ==> ('A' <= #[trigger] o[j] <= 'Z' || '0' <= o[j] <= '9'
            || o[j] == '_'),
    ensures
        spec_extract_objects("add_json_object(\""@ + o + "\")"@) == seq![o],
{
    let s = "add_json_object(\""@ + o + "\")"@;
    crate::scan::lemma_json_object_found(o);
    assert(firsts(s, scan(Pattern::JsonObject, s, 0)) =~= seq![o]);
    lemma_sorted_distinct_is(seq![o]);
}

/// The object and key of an `add_property_to_object("O","K")` call, with `O` and `K` names made
/// of `A`-`Z`, `0`-`9` and `_`, are extracted.
pub proof fn lemma_property_extracted(o: Seq<char>, k: Seq<char>)
    requires
        o.len() > 0,
        k.len() > 0,
        forall|j: int| 0 <= j < o.len() ==> ('A' <= #[trigger] o[j] <= 'Z' || '0' <= o[j] <= '9'
            || o[j] == '_'),
        forall|j: int| 0 <= j < k.len() ==> ('A' <= #[trigger] k[j] <= 'Z' || '0' <= k[j] <= '9'
            || k[j] == '_'),
    ensures
        spec_extract_properties("add_property_to_object(\""@ + o + "\",\""@ + k + "\")"@) == seq![
            (o, k),
        ],
        spec_extract_property_objects("add_property_to_object(\""@ + o + "\",\""@ + k + "\")"@)
            == seq![o],
{
    let s = "add_property_to_object(\""@ + o + "\",\""@ + k + "\")"@;
    crate::scan::lemma_property_found(o, k);
    let ms = scan(Pattern::Property, s, 0);
    assert(pairs_of(s, ms) =~= seq![(o, k)]);
    assert(firsts(s, ms) =~= seq![o]);
    lemma_sorted_distinct_is(seq![o]);
}

/// The id of an element written `id="v"` is extracted, when `v` holds no `"` and neither starts
/// nor ends with a quote or a space.
pub proof fn lemma_quoted_id_extracted(v: Seq<char>)
    requires
        v.len() > 0,
        forall|j: int| 0 <= j < v.len() ==> #[trigger] v[j] != '"',
        v[0] != '\'' && v[0] != ' ',
        v[v.len() - 1] != '\'' && v[v.len() - 1] != ' ',
    ensures
        spec_extract_ids("id=\""@ + v + seq!['"']) == seq![v],
{
    let s = "id=\""@ + v + seq!['"'];
    crate::scan::lemma_quoted_id_found(v);
    let ms = scan(Pattern::IdAttribute, s, 0);
    assert(firsts(s, ms) =~= seq![v]);
    assert(trim_id(v) == v);
    let t = firsts(s, ms).map_values(|t: Seq<char>| trim_id(t));
    assert(t =~= seq![v]);
    reveal_with_fuel(Seq::filter, 2);
    assert(t.drop_last() =~= Seq::<Seq<char>>::empty());
    assert(t.filter(non_empty_id()) =~= seq![v]);
}

/// How the page paths of the script are requested: a path that is not an absolute URL and does
/// not start with `/` or `./` gets a `/` in front; `./p` and `/p` both become `/p`; and
/// `http://` and `https://` URLs are kept as they are.
pub proof fn lemma_normalize_path_forms(p: Seq<char>)
    requires
        p.len() > 0,
        p[0] != '/',
        p[0] != '.',
        !has_prefix(p, "http://"@),
        !has_prefix(p, "https://"@),
    ensures
        spec_normalize_path(p) == seq!['/'] + p,
        spec_normalize_path(seq!['.', '/'] + p) == seq!['/'] + p,
        spec_normalize_path(seq!['/'] + p) == seq!['/'] + p,
        spec_normalize_path("http://"@ + p) == "http://"@ + p,
        spec_normalize_path("https://"@ + p) == "https://"@ + p,
{
    reveal_strlit("http://");
    reveal_strlit("https://");
    reveal_strlit("./");
    assert(!has_prefix(p, "./"@)) by {
        if has_prefix(p, "./"@) {
            assert(p.subrange(0, 2)[0] == p[0]);
        }
    }
    let dp = seq!['.', '/'] + p;
    assert(!has_prefix(dp, "http://"@)) by {
        if has_prefix(dp, "http://"@) {
            assert(dp.subrange(0, 7)[0] == dp[0]);
        }
    }
    assert(!has_prefix(dp, "https://"@)) by {
        if has_prefix(dp, "https://"@) {
            assert(dp.subrange(0, 8)[0] == dp[0]);
        }
    }
    assert(dp.subrange(0, 2) =~= "./"@);
    assert(dp.skip(2) =~= p);
    let sp = seq!['/'] + p;
    assert(!has_prefix(sp, "http://"@)) by {
        if has_prefix(sp, "http://"@) {
            assert(sp.subrange(0, 7)[0] == sp[0]);
        }
    }
    assert(!has_prefix(sp, "https://"@)) by {
        if has_prefix(sp, "https://"@) {
            assert(sp.subrange(0, 8)[0] == sp[0]);
        }
    }
    assert(!has_prefix(sp, "./"@)) by {
        if has_prefix(sp, "./"@) {
            assert(sp.subrange(0, 2)[0] == sp[0]);
        }
    }
    assert(("http://"@ + p).subrange(0, 7) =~= "http://"@);
    assert(("https://"@ + p).subrange(0, 8) =~= "https://"@);
}

/// The id of an element written `id=v` without quotes is extracted, when `v` holds no white
/// space or `>` and neither starts nor ends with a quote.
pub proof fn lemma_bare_id_extracted(v: Seq<char>)
    requires
        v.len() > 0,
        forall|j: int| 0 <= j < v.len() ==> !crate::text::is_white_space(#[trigger] v[j]) && v[j]
            != '>',
        v[0] != '"' && v[0] != '\'',
        v[v.len() - 1] != '"' && v[v.len() - 1] != '\'',
    ensures
        spec_extract_ids("id="@ + v) == seq![v],
{
    let s = "id="@ + v;
    crate::scan::lemma_bare_id_found(v);
    let ms = scan(Pattern::IdAttribute, s, 0);
    assert(firsts(s, ms) =~= seq![v]);
    assert(v[0] != ' ' && v[v.len() - 1] != ' ');
    assert(trim_id(v) == v);
    let t = firsts(s, ms).map_values(|t: Seq<char>| trim_id(t));
    assert(t =~= seq![v]);
    reveal_with_fuel(Seq::filter, 2);
    assert(t.drop_last() =~= Seq::<Seq<char>>::empty());
    assert(t.filter(non_empty_id()) =~= seq![v]);
}

proof fn lemma_trim_back(v: Seq<char>, b: Seq<char>)
    requires
        v.len() > 0,
        v[0] != '"' && v[0] != '\'' && v[0] != ' ',
        v[v.len() - 1] != '"' && v[v.len() - 1] != '\'' && v[v.len() - 1] != ' ',
        forall|j: int| 0 <= j < b.len() ==> (#[trigger] b[j] == '"' || b[j] == '\'' || b[j] == ' '),
    ensures
        trim_id(v + b) == v,
    decreases b.len(),
{
    if b.len() == 0 {
        assert(v + b =~= v);
    } else {
        let t = v + b;
        assert(t[0] == v[0]);
        assert(t.last() == b.last());
        assert(t.drop_last() =~= v + b.drop_last());
        lemma_trim_back(v, b.drop_last());
    }
}

/// An id loses exactly the quotes, apostrophes and spaces around it: with `v` neither starting
/// nor ending with one of them, `v` with any run of them before and after trims to `v`.
pub proof fn lemma_trim_id_padding(a: Seq<char>, v: Seq<char>, b: Seq<char>)
    requires
        v.len() > 0,
        v[0] != '"' && v[0] != '\'' && v[0] != ' ',
        v[v.len() - 1] != '"' && v[v.len() - 1] != '\'' && v[v.len() - 1] != ' ',
        forall|j: int| 0 <= j < a.len() ==> (#[trigger] a[j] == '"' || a[j] == '\'' || a[j] == ' '),
        forall|j: int| 0 <= j < b.len() ==> (#[trigger] b[j] == '"' || b[j] == '\'' || b[j] == ' '),
    ensures
        trim_id(a + v + b) == v,
    decreases a.len(),
{
    if a.len() == 0 {
        assert(a + v + b =~= v + b);
        lemma_trim_back(v, b);
    } else {
        let t = a + v + b;
        assert(t[0] == a[0]);
        assert(t.drop_first() =~= a.drop_first() + v + b);
        lemma_trim_id_padding(a.drop_first(), v, b);
    }
}

} // verus!
