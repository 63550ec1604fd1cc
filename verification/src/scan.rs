//! Finding object and key names in the web UI a SENEC v3 serves.
//!
//! The device's `senec.min.js` registers the objects it polls with `add_json_object("OBJ")`, the
//! keys with `add_property_to_object("OBJ","KEY")`, and wires controls to keys with
//! `handleButtonClick("OBJ","KEY")` and its siblings. Its HTML pages give elements ids made of an
//! object name followed by a key, and the script names those pages as quoted `.html` paths.
//!
//! Each of those shapes is a small pattern (see [`Pattern`]). A text is scanned for a pattern the
//! way a regular-expression engine lists its matches: from the left, the earliest position where
//! the pattern matches wins, and the next search starts where that match ended, so matches never
//! overlap.
use vstd::prelude::*;

use crate::text::{chars_at, chars_of, is_white_space, occurs_at, white_space};

verus! {

/// A set of characters a run of the pattern may consist of.
#[derive(Clone, Copy, PartialEq, Eq, Structural)]
pub enum CharClass {
    /// `[A-Z0-9_]`: the characters of a SENEC object or key name.
    Name,
    /// `[A-Za-z0-9_./-]`: the characters of a page path.
    Path,
    /// White space (`\s`).
    Space,
    /// Anything but `"` (`[^"]`).
    NotQuote,
    /// Anything but white space and `>` (`[^\s>]`): an unquoted attribute value.
    Bare,
}

pub open spec fn in_class(k: CharClass, c: char) -> bool {
    match k {
        CharClass::Name => ('A' <= c && c <= 'Z') || ('0' <= c && c <= '9') || c == '_',
        CharClass::Path => ('A' <= c && c <= 'Z') || ('a' <= c && c <= 'z') || ('0' <= c && c
            <= '9') || c == '_' || c == '.' || c == '/' || c == '-',
        CharClass::Space => is_white_space(c),
        CharClass::NotQuote => c != '"',
        CharClass::Bare => !is_white_space(c) && c != '>',
    }
}

fn class_test(k: CharClass, c: char) -> (r: bool)
    ensures
        r == in_class(k, c),
{
    match k {
        CharClass::Name => ('A' <= c && c <= 'Z') || ('0' <= c && c <= '9') || c == '_',
        CharClass::Path => ('A' <= c && c <= 'Z') || ('a' <= c && c <= 'z') || ('0' <= c && c
            <= '9') || c == '_' || c == '.' || c == '/' || c == '-',
        CharClass::Space => white_space(c),
        CharClass::NotQuote => c != '"',
        CharClass::Bare => !white_space(c) && c != '>',
    }
}

/// Where the longest run of `k` characters that starts at `i` ends.
pub open spec fn run_end(s: Seq<char>, i: int, k: CharClass) -> int
    decreases s.len() - i,
{
    if 0 <= i < s.len() && in_class(k, s[i]) {
        run_end(s, i + 1, k)
    } else {
        i
    }
}

pub proof fn lemma_run_end(s: Seq<char>, i: int, k: CharClass)
    requires
        0 <= i <= s.len(),
    ensures
        i <= run_end(s, i, k) <= s.len(),
        forall|j: int| i <= j < run_end(s, i, k) ==> in_class(k, #[trigger] s[j]),
        run_end(s, i, k) < s.len() ==> !in_class(k, s[run_end(s, i, k)]),
    decreases s.len() - i,
{
    if i < s.len() && in_class(k, s[i]) {
        lemma_run_end(s, i + 1, k);
    }
}

fn run_end_exec(cs: &[char], i: usize, k: CharClass) -> (r: usize)
    requires
        i <= cs@.len(),
    ensures
        r == run_end(cs@, i as int, k),
{
    let mut j = i;
    while j < cs.len() && class_test(k, cs[j])
        invariant
            i <= j <= cs@.len(),
            run_end(cs@, i as int, k) == run_end(cs@, j as int, k),
        decreases cs.len() - j,
    {
        j = j + 1;
    }
    j
}

/// The patterns the discovery looks for.
#[derive(Clone, Copy, PartialEq, Eq, Structural)]
pub enum Pattern {
    /// `add_json_object\("([A-Z0-9_]+)"\)`
    JsonObject,
    /// `add_property_to_object\("([A-Z0-9_]+)","([A-Z0-9_]+)"`
    Property,
    /// `(?:handleButtonClick|handleSelectUpdate|handleCheckBoxUpdate|handleTextAreaUpdate|`
    /// `handleTextAreaUpdateArray|handleCheckBoxUpdateArray)\("([A-Z0-9_]+)","([A-Z0-9_]+)"`
    Action,
    /// `"(\.?/?[A-Za-z0-9_./-]+\.html)"`
    HtmlPath,
    /// `id\s*=\s*(?:"([^"]+)"|([^\s>]+))`, the two alternatives reported as one group.
    IdAttribute,
}

/// One match: where it ends, and the bounds of its first and second group (`0, 0` for a
/// pattern with one group).
pub type Found = (int, int, int, int, int);

/// The text of the first group of a match.
pub open spec fn group1(s: Seq<char>, m: Found) -> Seq<char> {
    s.subrange(m.1, m.2)
}

/// The text of the second group of a match.
pub open spec fn group2(s: Seq<char>, m: Found) -> Seq<char> {
    s.subrange(m.3, m.4)
}

/// The call prefix of the `n`-th action handler, in the order the alternatives are tried.
pub open spec fn action_prefix(n: int) -> Seq<char> {
    if n == 0 {
        "handleButtonClick(\""@
    } else if n == 1 {
        "handleSelectUpdate(\""@
    } else if n == 2 {
        "handleCheckBoxUpdate(\""@
    } else if n == 3 {
        "handleTextAreaUpdate(\""@
    } else if n == 4 {
        "handleTextAreaUpdateArray(\""@
    } else {
        "handleCheckBoxUpdateArray(\""@
    }
}

/// `([A-Z0-9_]+)","([A-Z0-9_]+)"` at `a`.
pub open spec fn pair_tail(s: Seq<char>, a: int) -> Option<Found> {
    let e1 = run_end(s, a, CharClass::Name);
    if e1 > a && occurs_at(s, e1, "\",\""@) {
        let b = e1 + 3;
        let e2 = run_end(s, b, CharClass::Name);
        if e2 > b && e2 < s.len() && s[e2] == '"' {
            Some((e2 + 1, a, e1, b, e2))
        } else {
            None
        }
    } else {
        None
    }
}

/// The action alternatives from the `n`-th on, tried in order.
pub open spec fn action_from(s: Seq<char>, i: int, n: int) -> Option<Found>
    decreases 6 - n,
{
    if n >= 6 {
        None
    } else if occurs_at(s, i, action_prefix(n)) && pair_tail(
        s,
        i + action_prefix(n).len(),
    ) is Some {
        pair_tail(s, i + action_prefix(n).len())
    } else {
        action_from(s, i, n + 1)
    }
}

/// The match of `p` that starts at `i`, if there is one.
pub open spec fn match_at(p: Pattern, s: Seq<char>, i: int) -> Option<Found> {
    match p {
        Pattern::JsonObject => if occurs_at(s, i, "add_json_object(\""@) {
            let a = i + "add_json_object(\""@.len();
            let e = run_end(s, a, CharClass::Name);
            if e > a && occurs_at(s, e, "\")"@) {
                Some((e + 2, a, e, 0, 0))
            } else {
                None
            }
        } else {
            None
        },
        Pattern::Property => if occurs_at(s, i, "add_property_to_object(\""@) {
            pair_tail(s, i + "add_property_to_object(\""@.len())
        } else {
            None
        },
        Pattern::Action => action_from(s, i, 0),
        Pattern::HtmlPath => if 0 <= i < s.len() && s[i] == '"' {
            let a = i + 1;
            let e = run_end(s, a, CharClass::Path);
            if e < s.len() && s[e] == '"' && e - a >= 6 && occurs_at(s, e - 5, ".html"@) {
                Some((e + 1, a, e, 0, 0))
            } else {
                None
            }
        } else {
            None
        },
        Pattern::IdAttribute => if occurs_at(s, i, "id"@) {
            let j = run_end(s, i + 2, CharClass::Space);
            if j < s.len() && s[j] == '=' {
                let k = run_end(s, j + 1, CharClass::Space);
                let q = run_end(s, k + 1, CharClass::NotQuote);
                if k < s.len() && s[k] == '"' && q > k + 1 && q < s.len() {
                    Some((q + 1, k + 1, q, 0, 0))
                } else {
                    let r = run_end(s, k, CharClass::Bare);
                    if r > k {
                        Some((r, k, r, 0, 0))
                    } else {
                        None
                    }
                }
            } else {
                None
            }
        } else {
            None
        },
    }
}

/// A match lies after `i` inside `s` and its groups lie inside it.
pub open spec fn found_within(m: Found, i: int, len: int) -> bool {
    &&& i < m.0 <= len
    &&& 0 <= m.1 <= m.2 <= len
    &&& 0 <= m.3 <= m.4 <= len
}

/// Every match of `p` from position `i` on, earliest first, none overlapping the one before.
pub open spec fn scan(p: Pattern, s: Seq<char>, i: int) -> Seq<Found>
    decreases s.len() - i,
{
    if i < 0 || i >= s.len() {
        Seq::empty()
    } else {
        match match_at(p, s, i) {
            Some(m) => if i < m.0 <= s.len() {
                seq![m] + scan(p, s, m.0)
            } else {
                Seq::empty()
            },
            None => scan(p, s, i + 1),
        }
    }
}

/// The lengths of the pattern literals.
pub proof fn lemma_literal_lengths()
    ensures
        "add_json_object(\""@.len() == 17,
        "add_property_to_object(\""@.len() == 24,
        "\")"@.len() == 2,
        "\",\""@.len() == 3,
        ".html"@.len() == 5,
        "id"@.len() == 2,
        forall|n: int| 0 <= n < 6 ==> #[trigger] action_prefix(n).len() > 0,
{
    reveal_strlit("add_json_object(\"");
    reveal_strlit("add_property_to_object(\"");
    reveal_strlit("\")");
    reveal_strlit("\",\"");
    reveal_strlit(".html");
    reveal_strlit("id");
    reveal_strlit("handleButtonClick(\"");
    reveal_strlit("handleSelectUpdate(\"");
    reveal_strlit("handleCheckBoxUpdate(\"");
    reveal_strlit("handleTextAreaUpdate(\"");
    reveal_strlit("handleTextAreaUpdateArray(\"");
    reveal_strlit("handleCheckBoxUpdateArray(\"");
}

proof fn lemma_pair_tail(s: Seq<char>, a: int, i: int)
    requires
        i < a <= s.len(),
        0 <= i,
    ensures
        pair_tail(s, a) matches Some(m) ==> found_within(m, i, s.len() as int),
{
    lemma_run_end(s, a, CharClass::Name);
    lemma_literal_lengths();
    let e1 = run_end(s, a, CharClass::Name);
    if e1 > a && occurs_at(s, e1, "\",\""@) {
        lemma_run_end(s, e1 + 3, CharClass::Name);
    }
}

proof fn lemma_action_from(s: Seq<char>, i: int, n: int)
    requires
        0 <= i < s.len(),
        0 <= n,
    ensures
        action_from(s, i, n) matches Some(m) ==> found_within(m, i, s.len() as int),
    decreases 6 - n,
{
    if n < 6 {
        if occurs_at(s, i, action_prefix(n)) {
            lemma_literal_lengths();
            assert(action_prefix(n).len() > 0);
            lemma_pair_tail(s, i + action_prefix(n).len(), i);
        }
        lemma_action_from(s, i, n + 1);
    }
}

/// A match starts where it is looked for, ends after that, and its groups lie inside the text.
pub proof fn lemma_match_within(p: Pattern, s: Seq<char>, i: int)
    requires
        0 <= i < s.len(),
    ensures
        match_at(p, s, i) matches Some(m) ==> found_within(m, i, s.len() as int),
{
    reveal_strlit("add_json_object(\"");
    reveal_strlit("add_property_to_object(\"");
    reveal_strlit("\")");
    reveal_strlit(".html");
    reveal_strlit("id");
    match p {
        Pattern::JsonObject => {
            if occurs_at(s, i, "add_json_object(\""@) {
                lemma_run_end(s, i + 17, CharClass::Name);
            }
        },
        Pattern::Property => {
            if occurs_at(s, i, "add_property_to_object(\""@) {
                lemma_pair_tail(s, i + 24, i);
            }
        },
        Pattern::Action => {
            lemma_action_from(s, i, 0);
        },
        Pattern::HtmlPath => {
            if s[i] == '"' {
                lemma_run_end(s, i + 1, CharClass::Path);
            }
        },
        Pattern::IdAttribute => {
            if occurs_at(s, i, "id"@) {
                lemma_run_end(s, i + 2, CharClass::Space);
                let j = run_end(s, i + 2, CharClass::Space);
                if j < s.len() && s[j] == '=' {
                    lemma_run_end(s, j + 1, CharClass::Space);
                    let k = run_end(s, j + 1, CharClass::Space);
                    if k < s.len() {
                        lemma_run_end(s, k + 1, CharClass::NotQuote);
                    }
                    lemma_run_end(s, k, CharClass::Bare);
                }
            }
        },
    }
}

/// Where the longest run of `k` characters from `a` ends, when it is known to end at `b`.
proof fn lemma_run_end_exact(s: Seq<char>, a: int, b: int, k: CharClass)
    requires
        0 <= a <= b <= s.len(),
        forall|j: int| a <= j < b ==> in_class(k, #[trigger] s[j]),
        b < s.len() ==> !in_class(k, s[b]),
    ensures
        run_end(s, a, k) == b,
    decreases b - a,
{
    if a < b {
        lemma_run_end_exact(s, a + 1, b, k);
    }
}

/// A literal that differs from the text at position `j` does not occur at its start.
proof fn lemma_no_prefix(s: Seq<char>, lit: Seq<char>, j: int)
    requires
        0 <= j < lit.len(),
        j < s.len(),
        s[j] != lit[j],
    ensures
        !occurs_at(s, 0, lit),
{
    if occurs_at(s, 0, lit) {
        assert(s.subrange(0, lit.len() as int)[j] == s[j]);
    }
}

proof fn lemma_action_skip(s: Seq<char>, i: int, m: int, n: int)
    requires
        0 <= m <= n < 6,
        forall|x: int| m <= x < n ==> !occurs_at(s, i, #[trigger] action_prefix(x)),
    ensures
        action_from(s, i, m) == action_from(s, i, n),
    decreases n - m,
{
    if m < n {
        lemma_action_skip(s, i, m + 1, n);
    }
}

proof fn lemma_action_hit(s: Seq<char>, i: int, n: int)
    requires
        0 <= n < 6,
        occurs_at(s, i, action_prefix(n)),
        pair_tail(s, i + action_prefix(n).len()) is Some,
    ensures
        action_from(s, i, n) == pair_tail(s, i + action_prefix(n).len()),
{
}

proof fn lemma_action_none(s: Seq<char>, i: int, n: int)
    requires
        0 <= n <= 6,
        forall|x: int| n <= x < 6 ==> !occurs_at(s, i, #[trigger] action_prefix(x)),
    ensures
        action_from(s, i, n) is None,
    decreases 6 - n,
{
    if n < 6 {
        lemma_action_none(s, i, n + 1);
    }
}

/// Every action literal is at least two characters long.
proof fn lemma_action_prefix_lengths(n: int)
    requires
        0 <= n < 6,
    ensures
        action_prefix(n).len() >= 2,
{
    reveal_strlit("handleButtonClick(\"");
    reveal_strlit("handleSelectUpdate(\"");
    reveal_strlit("handleCheckBoxUpdate(\"");
    reveal_strlit("handleTextAreaUpdate(\"");
    reveal_strlit("handleTextAreaUpdateArray(\"");
    reveal_strlit("handleCheckBoxUpdateArray(\"");
}

/// `O","K"` at `a`, with `O` and `K` made of name characters.
proof fn lemma_pair_tail_exact(s: Seq<char>, a: int, o: Seq<char>, k: Seq<char>)
    requires
        0 <= a,
        o.len() > 0,
        k.len() > 0,
        a + o.len() + 3 + k.len() < s.len(),
        s.subrange(a, a + o.len()) == o,
        s.subrange(a + o.len(), a + o.len() + 3) == "\",\""@,
        s.subrange(a + o.len() + 3, a + o.len() + 3 + k.len()) == k,
        s[a + o.len() + 3 + k.len()] == '"',
        forall|j: int| 0 <= j < o.len() ==> ('A' <= #[trigger] o[j] <= 'Z' || '0' <= o[j] <= '9'
            || o[j] == '_'),
        forall|j: int| 0 <= j < k.len() ==> ('A' <= #[trigger] k[j] <= 'Z' || '0' <= k[j] <= '9'
            || k[j] == '_'),
    ensures
        pair_tail(s, a) == Some(
            (
                a + o.len() + 3 + k.len() + 1,
                a,
                a + o.len(),
                a + o.len() + 3,
                a + o.len() + 3 + k.len(),
            ),
        ),
{
    reveal_strlit("\",\"");
    let e1 = a + o.len();
    let b = e1 + 3;
    let e2 = b + k.len();
    assert forall|j: int| a <= j < e1 implies in_class(CharClass::Name, #[trigger] s[j]) by {
        assert(s.subrange(a, e1)[j - a] == s[j]);
    }
    assert(s[e1] == '"') by {
        assert(s.subrange(e1, e1 + 3)[0] == s[e1]);
    }
    lemma_run_end_exact(s, a, e1, CharClass::Name);
    assert forall|j: int| b <= j < e2 implies in_class(CharClass::Name, #[trigger] s[j]) by {
        assert(s.subrange(b, e2)[j - b] == s[j]);
    }
    lemma_run_end_exact(s, b, e2, CharClass::Name);
    assert(occurs_at(s, e1, "\",\""@));
}

/// At the start of a call of `handleButtonClick`, the action alternatives find that handler.
proof fn lemma_handler_at_0(s: Seq<char>)
    requires
        "handleButtonClick"@.len() + 2int <= s.len(),
        s.subrange(0, "handleButtonClick"@.len() + 2int) == "handleButtonClick"@ + "(\""@,
        pair_tail(s, "handleButtonClick"@.len() + 2int) is Some,
    ensures
        action_from(s, 0, 0) == pair_tail(s, "handleButtonClick"@.len() + 2int),
{
    reveal_strlit("handleButtonClick");
    reveal_strlit("(\"");
    reveal_strlit("handleButtonClick(\"");
    assert(action_prefix(0) =~= "handleButtonClick"@ + "(\""@);
    lemma_action_skip(s, 0, 0, 0);
    lemma_action_hit(s, 0, 0);
}

/// At the start of a call of `handleSelectUpdate`, the action alternatives find that handler.
proof fn lemma_handler_at_1(s: Seq<char>)
    requires
        "handleSelectUpdate"@.len() + 2int <= s.len(),
        s.subrange(0, "handleSelectUpdate"@.len() + 2int) == "handleSelectUpdate"@ + "(\""@,
        pair_tail(s, "handleSelectUpdate"@.len() + 2int) is Some,
    ensures
        action_from(s, 0, 0) == pair_tail(s, "handleSelectUpdate"@.len() + 2int),
{
    reveal_strlit("handleSelectUpdate");
    reveal_strlit("(\"");
    reveal_strlit("handleSelectUpdate(\"");
    reveal_strlit("handleButtonClick(\"");
    assert(action_prefix(1) =~= "handleSelectUpdate"@ + "(\""@);
    assert(s.subrange(0, 20)[6] == s[6]);
    lemma_no_prefix(s, action_prefix(0), 6);
    lemma_action_skip(s, 0, 0, 1);
    lemma_action_hit(s, 0, 1);
}

/// At the start of a call of `handleCheckBoxUpdate`, the action alternatives find that handler.
proof fn lemma_handler_at_2(s: Seq<char>)
    requires
        "handleCheckBoxUpdate"@.len() + 2int <= s.len(),
        s.subrange(0, "handleCheckBoxUpdate"@.len() + 2int) == "handleCheckBoxUpdate"@ + "(\""@,
        pair_tail(s, "handleCheckBoxUpdate"@.len() + 2int) is Some,
    ensures
        action_from(s, 0, 0) == pair_tail(s, "handleCheckBoxUpdate"@.len() + 2int),
{
    reveal_strlit("handleCheckBoxUpdate");
    reveal_strlit("(\"");
    reveal_strlit("handleCheckBoxUpdate(\"");
    reveal_strlit("handleButtonClick(\"");
    reveal_strlit("handleSelectUpdate(\"");
    assert(action_prefix(2) =~= "handleCheckBoxUpdate"@ + "(\""@);
    assert(s.subrange(0, 22)[6] == s[6]);
    lemma_no_prefix(s, action_prefix(0), 6);
    assert(s.subrange(0, 22)[6] == s[6]);
    lemma_no_prefix(s, action_prefix(1), 6);
    lemma_action_skip(s, 0, 0, 2);
    lemma_action_hit(s, 0, 2);
}

/// At the start of a call of `handleTextAreaUpdate`, the action alternatives find that handler.
proof fn lemma_handler_at_3(s: Seq<char>)
    requires
        "handleTextAreaUpdate"@.len() + 2int <= s.len(),
        s.subrange(0, "handleTextAreaUpdate"@.len() + 2int) == "handleTextAreaUpdate"@ + "(\""@,
        pair_tail(s, "handleTextAreaUpdate"@.len() + 2int) is Some,
    ensures
        action_from(s, 0, 0) == pair_tail(s, "handleTextAreaUpdate"@.len() + 2int),
{
    reveal_strlit("handleTextAreaUpdate");
    reveal_strlit("(\"");
    reveal_strlit("handleTextAreaUpdate(\"");
    reveal_strlit("handleButtonClick(\"");
    reveal_strlit("handleSelectUpdate(\"");
    reveal_strlit("handleCheckBoxUpdate(\"");
    assert(action_prefix(3) =~= "handleTextAreaUpdate"@ + "(\""@);
    assert(s.subrange(0, 22)[6] == s[6]);
    lemma_no_prefix(s, action_prefix(0), 6);
    assert(s.subrange(0, 22)[6] == s[6]);
    lemma_no_prefix(s, action_prefix(1), 6);
    assert(s.subrange(0, 22)[6] == s[6]);
    lemma_no_prefix(s, action_prefix(2), 6);
    lemma_action_skip(s, 0, 0, 3);
    lemma_action_hit(s, 0, 3);
}

/// At the start of a call of `handleTextAreaUpdateArray`, the action alternatives find that handler.
proof fn lemma_handler_at_4(s: Seq<char>)
    requires
        "handleTextAreaUpdateArray"@.len() + 2int <= s.len(),
        s.subrange(0, "handleTextAreaUpdateArray"@.len() + 2int) == "handleTextAreaUpdateArray"@ + "(\""@,
        pair_tail(s, "handleTextAreaUpdateArray"@.len() + 2int) is Some,
    ensures
        action_from(s, 0, 0) == pair_tail(s, "handleTextAreaUpdateArray"@.len() + 2int),
{
    reveal_strlit("handleTextAreaUpdateArray");
    reveal_strlit("(\"");
    reveal_strlit("handleTextAreaUpdateArray(\"");
    reveal_strlit("handleButtonClick(\"");
    reveal_strlit("handleSelectUpdate(\"");
    reveal_strlit("handleCheckBoxUpdate(\"");
    reveal_strlit("handleTextAreaUpdate(\"");
    assert(action_prefix(4) =~= "handleTextAreaUpdateArray"@ + "(\""@);
    assert(s.subrange(0, 27)[6] == s[6]);
    lemma_no_prefix(s, action_prefix(0), 6);
    assert(s.subrange(0, 27)[6] == s[6]);
    lemma_no_prefix(s, action_prefix(1), 6);
    assert(s.subrange(0, 27)[6] == s[6]);
    lemma_no_prefix(s, action_prefix(2), 6);
    assert(s.subrange(0, 27)[20] == s[20]);
    lemma_no_prefix(s, action_prefix(3), 20);
    lemma_action_skip(s, 0, 0, 4);
    lemma_action_hit(s, 0, 4);
}

/// At the start of a call of `handleCheckBoxUpdateArray`, the action alternatives find that handler.
proof fn lemma_handler_at_5(s: Seq<char>)
    requires
        "handleCheckBoxUpdateArray"@.len() + 2int <= s.len(),
        s.subrange(0, "handleCheckBoxUpdateArray"@.len() + 2int) == "handleCheckBoxUpdateArray"@ + "(\""@,
        pair_tail(s, "handleCheckBoxUpdateArray"@.len() + 2int) is Some,
    ensures
        action_from(s, 0, 0) == pair_tail(s, "handleCheckBoxUpdateArray"@.len() + 2int),
{
    reveal_strlit("handleCheckBoxUpdateArray");
    reveal_strlit("(\"");
    reveal_strlit("handleCheckBoxUpdateArray(\"");
    reveal_strlit("handleButtonClick(\"");
    reveal_strlit("handleSelectUpdate(\"");
    reveal_strlit("handleCheckBoxUpdate(\"");
    reveal_strlit("handleTextAreaUpdate(\"");
    reveal_strlit("handleTextAreaUpdateArray(\"");
    assert(action_prefix(5) =~= "handleCheckBoxUpdateArray"@ + "(\""@);
    assert(s.subrange(0, 27)[6] == s[6]);
    lemma_no_prefix(s, action_prefix(0), 6);
    assert(s.subrange(0, 27)[6] == s[6]);
    lemma_no_prefix(s, action_prefix(1), 6);
    assert(s.subrange(0, 27)[20] == s[20]);
    lemma_no_prefix(s, action_prefix(2), 20);
    assert(s.subrange(0, 27)[6] == s[6]);
    lemma_no_prefix(s, action_prefix(3), 6);
    assert(s.subrange(0, 27)[6] == s[6]);
    lemma_no_prefix(s, action_prefix(4), 6);
    lemma_action_skip(s, 0, 0, 5);
    lemma_action_hit(s, 0, 5);
}

/// The action alternatives find nothing at the last character of a text.
proof fn lemma_action_tail_empty(s: Seq<char>)
    requires
        s.len() >= 1,
    ensures
        scan(Pattern::Action, s, s.len() - 1) == Seq::<Found>::empty(),
{
    assert forall|x: int| 0 <= x < 6 implies !occurs_at(s, s.len() - 1, #[trigger] action_prefix(x)) by {
        lemma_action_prefix_lengths(x);
    }
    lemma_action_none(s, s.len() - 1, 0);
    assert(scan(Pattern::Action, s, s.len() as int) == Seq::<Found>::empty());
}

/// Where the parts of `h("O","K")` lie.
proof fn lemma_call_layout(h: Seq<char>, o: Seq<char>, k: Seq<char>)
    ensures
        ({
            let s = h + "(\""@ + o + "\",\""@ + k + "\")"@;
            let a = h.len() + 2int;
            let b = a + o.len() + 3;
            &&& s.len() == b + k.len() + 2
            &&& s.subrange(0, a) == h + "(\""@
            &&& s.subrange(a, a + o.len()) == o
            &&& s.subrange(a + o.len(), b) == "\",\""@
            &&& s.subrange(b, b + k.len()) == k
            &&& s[b + k.len()] == '"'
        }),
{
    reveal_strlit("(\"");
    reveal_strlit("\",\"");
    reveal_strlit("\")");
    let s = h + "(\""@ + o + "\",\""@ + k + "\")"@;
    let a = h.len() + 2int;
    let b = a + o.len() + 3;
    assert(s.subrange(0, a) =~= h + "(\""@);
    assert(s.subrange(a, a + o.len()) =~= o);
    assert(s.subrange(a + o.len(), b) =~= "\",\""@);
    assert(s.subrange(b, b + k.len()) =~= k);
}

/// A control handler call in the script is found: for each of the six handlers the web UI wires
/// controls with, the text `h("O","K")` with `O` and `K` names made of `A`-`Z`, `0`-`9` and `_`
/// holds exactly one action match, whose groups are `O` and `K`.
#[verifier::spinoff_prover]
pub proof fn lemma_handler_call_found(h: Seq<char>, o: Seq<char>, k: Seq<char>)
    requires
        h == "handleButtonClick"@ ||
            h == "handleSelectUpdate"@ ||
            h == "handleCheckBoxUpdate"@ ||
            h == "handleTextAreaUpdate"@ ||
            h == "handleTextAreaUpdateArray"@ ||
            h == "handleCheckBoxUpdateArray"@,
        o.len() > 0,
        k.len() > 0,
        forall|j: int| 0 <= j < o.len() ==> ('A' <= #[trigger] o[j] <= 'Z' || '0' <= o[j] <= '9'
            || o[j] == '_'),
        forall|j: int| 0 <= j < k.len() ==> ('A' <= #[trigger] k[j] <= 'Z' || '0' <= k[j] <= '9'
            || k[j] == '_'),
    ensures
        ({
            let s = h + "(\""@ + o + "\",\""@ + k + "\")"@;
            let m = (
                s.len() - 1,
                h.len() + 2int,
                h.len() + 2int + o.len(),
                h.len() + 5int + o.len(),
                h.len() + 5int + o.len() + k.len(),
            );
            &&& scan(Pattern::Action, s, 0) == seq![m]
            &&& group1(s, m) == o
            &&& group2(s, m) == k
        }),
{
    let s = h + "(\""@ + o + "\",\""@ + k + "\")"@;
    let a = h.len() + 2int;
    let b = a + o.len() + 3;
    lemma_call_layout(h, o, k);
    lemma_pair_tail_exact(s, a, o, k);
    if h == "handleButtonClick"@ {
        lemma_handler_at_0(s);
    } else if h == "handleSelectUpdate"@ {
        lemma_handler_at_1(s);
    } else if h == "handleCheckBoxUpdate"@ {
        lemma_handler_at_2(s);
    } else if h == "handleTextAreaUpdate"@ {
        lemma_handler_at_3(s);
    } else if h == "handleTextAreaUpdateArray"@ {
        lemma_handler_at_4(s);
    } else {
        lemma_handler_at_5(s);
    }
    let m = (s.len() - 1, a, a + o.len(), b, b + k.len());
    assert(match_at(Pattern::Action, s, 0) == Some(m));
    lemma_action_tail_empty(s);
    assert(scan(Pattern::Action, s, 0) =~= seq![m]);
    assert(group1(s, m) =~= o);
    assert(group2(s, m) =~= k);
}

/// A quoted page path is found wherever it stands: when `"p"` occurs at `i`, with `p` made of
/// `A`-`Z`, `a`-`z`, `0`-`9`, `_`, `.`, `/` and `-`, at least one of them before a final
/// `.html`, the page-path pattern matches at `i` with `p` as its group.
pub proof fn lemma_html_path_found(s: Seq<char>, i: int, p: Seq<char>)
    requires
        0 <= i,
        i + p.len() + 2 <= s.len(),
        s[i] == '"',
        s.subrange(i + 1, i + 1 + p.len()) == p,
        s[i + 1 + p.len()] == '"',
        p.len() >= 6,
        p.subrange(p.len() - 5, p.len() as int) == ".html"@,
        forall|j: int| 0 <= j < p.len() ==> ('A' <= #[trigger] p[j] <= 'Z' || 'a' <= p[j] <= 'z'
            || '0' <= p[j] <= '9' || p[j] == '_' || p[j] == '.' || p[j] == '/' || p[j] == '-'),
    ensures
        match_at(Pattern::HtmlPath, s, i) == Some((i + p.len() + 2, i + 1, i + 1 + p.len(), 0int, 0int)),
        group1(s, (i + p.len() + 2, i + 1, i + 1 + p.len(), 0int, 0int)) == p,
{
    reveal_strlit(".html");
    let a = i + 1;
    let e = a + p.len();
    assert forall|j: int| a <= j < e implies in_class(CharClass::Path, #[trigger] s[j]) by {
        assert(s.subrange(a, e)[j - a] == s[j]);
    }
    lemma_run_end_exact(s, a, e, CharClass::Path);
    assert(s.subrange(e - 5, e) =~= p.subrange(p.len() - 5, p.len() as int));
}

/// A text that is one quoted page path holds exactly that one page-path match.
pub proof fn lemma_quoted_html_path(p: Seq<char>)
    requires
        p.len() >= 6,
        p.subrange(p.len() - 5, p.len() as int) == ".html"@,
        forall|j: int| 0 <= j < p.len() ==> ('A' <= #[trigger] p[j] <= 'Z' || 'a' <= p[j] <= 'z'
            || '0' <= p[j] <= '9' || p[j] == '_' || p[j] == '.' || p[j] == '/' || p[j] == '-'),
    ensures
        scan(Pattern::HtmlPath, seq!['"'] + p + seq!['"'], 0) == seq![
            (p.len() + 2int, 1int, p.len() + 1int, 0int, 0int),
        ],
{
    let s = seq!['"'] + p + seq!['"'];
    assert(s.subrange(1, 1 + p.len() as int) =~= p);
    lemma_html_path_found(s, 0, p);
    assert(scan(Pattern::HtmlPath, s, s.len() as int) == Seq::<Found>::empty());
    assert(scan(Pattern::HtmlPath, s, 0) =~= seq![(p.len() + 2int, 1int, p.len() + 1int, 0int, 0int)]);
}

/// A registration of an object is found: the text `add_json_object("O")`, with `O` a name made
/// of `A`-`Z`, `0`-`9` and `_`, holds exactly one object-registration match, whose group is `O`.
pub proof fn lemma_json_object_found(o: Seq<char>)
    requires
        o.len() > 0,
        forall|j: int| 0 <= j < o.len() ==> ('A' <= #[trigger] o[j] <= 'Z' || '0' <= o[j] <= '9'
            || o[j] == '_'),
    ensures
        ({
            let s = "add_json_object(\""@ + o + "\")"@;
            let m = (s.len() as int, 17int, 17int + o.len(), 0int, 0int);
            &&& scan(Pattern::JsonObject, s, 0) == seq![m]
            &&& group1(s, m) == o
        }),
{
    reveal_strlit("add_json_object(\"");
    reveal_strlit("\")");
    let s = "add_json_object(\""@ + o + "\")"@;
    let e = 17int + o.len();
    assert(s.len() == e + 2);
    assert(s.subrange(0, 17) =~= "add_json_object(\""@);
    assert forall|j: int| 17 <= j < e implies in_class(CharClass::Name, #[trigger] s[j]) by {
        assert(s[j] == o[j - 17]);
    }
    assert(s[e] == '"');
    lemma_run_end_exact(s, 17, e, CharClass::Name);
    assert(s.subrange(e, e + 2) =~= "\")"@);
    let m = (s.len() as int, 17int, e, 0int, 0int);
    assert(match_at(Pattern::JsonObject, s, 0) == Some(m));
    assert(scan(Pattern::JsonObject, s, s.len() as int) == Seq::<Found>::empty());
    assert(scan(Pattern::JsonObject, s, 0) =~= seq![m]);
    assert(group1(s, m) =~= o);
}

/// A property of an object is found: the text `add_property_to_object("O","K")`, with `O` and
/// `K` names made of `A`-`Z`, `0`-`9` and `_`, holds exactly one property match, whose groups
/// are `O` and `K`.
pub proof fn lemma_property_found(o: Seq<char>, k: Seq<char>)
    requires
        o.len() > 0,
        k.len() > 0,
        forall|j: int| 0 <= j < o.len() ==> ('A' <= #[trigger] o[j] <= 'Z' || '0' <= o[j] <= '9'
            || o[j] == '_'),
        forall|j: int| 0 <= j < k.len() ==> ('A' <= #[trigger] k[j] <= 'Z' || '0' <= k[j] <= '9'
            || k[j] == '_'),
    ensures
        ({
            let s = "add_property_to_object(\""@ + o + "\",\""@ + k + "\")"@;
            let m = (s.len() - 1, 24int, 24int + o.len(), 27int + o.len(), 27int + o.len() + k.len());
            &&& scan(Pattern::Property, s, 0) == seq![m]
            &&& group1(s, m) == o
            &&& group2(s, m) == k
        }),
{
    reveal_strlit("add_property_to_object(\"");
    reveal_strlit("\",\"");
    reveal_strlit("\")");
    let s = "add_property_to_object(\""@ + o + "\",\""@ + k + "\")"@;
    let a = 24int;
    let b = a + o.len() + 3;
    assert(s.len() == b + k.len() + 2);
    assert(s.subrange(0, 24) =~= "add_property_to_object(\""@);
    assert(s.subrange(a, a + o.len()) =~= o);
    assert(s.subrange(a + o.len(), b) =~= "\",\""@);
    assert(s.subrange(b, b + k.len()) =~= k);
    assert(s[b + k.len()] == '"');
    lemma_pair_tail_exact(s, a, o, k);
    let m = (s.len() - 1, a, a + o.len(), b, b + k.len());
    assert(match_at(Pattern::Property, s, 0) == Some(m));
    assert(!occurs_at(s, s.len() - 1, "add_property_to_object(\""@));
    assert(scan(Pattern::Property, s, s.len() as int) == Seq::<Found>::empty());
    assert(scan(Pattern::Property, s, s.len() - 1) == Seq::<Found>::empty());
    assert(scan(Pattern::Property, s, 0) =~= seq![m]);
    assert(group1(s, m) =~= o);
    assert(group2(s, m) =~= k);
}

/// An element id in double quotes is found: the text `id="v"`, with `v` not empty and free of
/// `"`, holds exactly one id match, whose group is `v`.
pub proof fn lemma_quoted_id_found(v: Seq<char>)
    requires
        v.len() > 0,
        forall|j: int| 0 <= j < v.len() ==> #[trigger] v[j] != '"',
    ensures
        ({
            let s = "id=\""@ + v + seq!['"'];
            let m = (s.len() as int, 4int, 4int + v.len(), 0int, 0int);
            &&& scan(Pattern::IdAttribute, s, 0) == seq![m]
            &&& group1(s, m) == v
        }),
{
    reveal_strlit("id=\"");
    reveal_strlit("id");
    let s = "id=\""@ + v + seq!['"'];
    let q = 4int + v.len();
    assert(s.len() == q + 1);
    assert(s.subrange(0, 2) =~= "id"@);
    assert(s[2] == '=' && s[3] == '"');
    lemma_run_end_exact(s, 2, 2, CharClass::Space);
    lemma_run_end_exact(s, 3, 3, CharClass::Space);
    assert forall|j: int| 4 <= j < q implies in_class(CharClass::NotQuote, #[trigger] s[j]) by {
        assert(s[j] == v[j - 4]);
    }
    lemma_run_end_exact(s, 4, q, CharClass::NotQuote);
    let m = (s.len() as int, 4int, q, 0int, 0int);
    assert(match_at(Pattern::IdAttribute, s, 0) == Some(m));
    assert(scan(Pattern::IdAttribute, s, s.len() as int) == Seq::<Found>::empty());
    assert(scan(Pattern::IdAttribute, s, 0) =~= seq![m]);
    assert(group1(s, m) =~= v);
}

/// An unquoted element id is found: the text `id=v`, with `v` not empty, not starting with `"`,
/// and free of white space and `>`, holds exactly one id match, whose group is `v`.
pub proof fn lemma_bare_id_found(v: Seq<char>)
    requires
        v.len() > 0,
        v[0] != '"',
        forall|j: int| 0 <= j < v.len() ==> !is_white_space(#[trigger] v[j]) && v[j] != '>',
    ensures
        ({
            let s = "id="@ + v;
            let m = (s.len() as int, 3int, s.len() as int, 0int, 0int);
            &&& scan(Pattern::IdAttribute, s, 0) == seq![m]
            &&& group1(s, m) == v
        }),
{
    reveal_strlit("id=");
    reveal_strlit("id");
    let s = "id="@ + v;
    assert(s.len() == 3 + v.len());
    assert(s.subrange(0, 2) =~= "id"@);
    assert(s[2] == '=' && s[3] == v[0]);
    lemma_run_end_exact(s, 2, 2, CharClass::Space);
    lemma_run_end_exact(s, 3, 3, CharClass::Space);
    assert forall|j: int| 3 <= j < s.len() implies in_class(CharClass::Bare, #[trigger] s[j]) by {
        assert(s[j] == v[j - 3]);
    }
    lemma_run_end_exact(s, 3, s.len() as int, CharClass::Bare);
    let m = (s.len() as int, 3int, s.len() as int, 0int, 0int);
    assert(match_at(Pattern::IdAttribute, s, 0) == Some(m));
    assert(scan(Pattern::IdAttribute, s, s.len() as int) == Seq::<Found>::empty());
    assert(scan(Pattern::IdAttribute, s, 0) =~= seq![m]);
    assert(group1(s, m) =~= v);
}

/// The literal texts the patterns are made of, read once per scan.
struct Literals {
    json_object: Vec<char>,
    close_call: Vec<char>,
    property: Vec<char>,
    between_args: Vec<char>,
    actions: Vec<Vec<char>>,
    html: Vec<char>,
    id: Vec<char>,
}

impl Literals {
    spec fn wf(&self) -> bool {
        &&& self.json_object@ == "add_json_object(\""@
        &&& self.close_call@ == "\")"@
        &&& self.property@ == "add_property_to_object(\""@
        &&& self.between_args@ == "\",\""@
        &&& self.actions@.len() == 6
        &&& forall|n: int| 0 <= n < 6 ==> (#[trigger] self.actions@[n])@ == action_prefix(n)
        &&& self.html@ == ".html"@
        &&& self.id@ == "id"@
    }

    fn new() -> (r: Literals)
        ensures
            r.wf(),
    {
        let mut actions: Vec<Vec<char>> = Vec::new();
        actions.push(chars_of("handleButtonClick(\""));
        actions.push(chars_of("handleSelectUpdate(\""));
        actions.push(chars_of("handleCheckBoxUpdate(\""));
        actions.push(chars_of("handleTextAreaUpdate(\""));
        actions.push(chars_of("handleTextAreaUpdateArray(\""));
        actions.push(chars_of("handleCheckBoxUpdateArray(\""));
        Literals {
            json_object: chars_of("add_json_object(\""),
            close_call: chars_of("\")"),
            property: chars_of("add_property_to_object(\""),
            between_args: chars_of("\",\""),
            actions,
            html: chars_of(".html"),
            id: chars_of("id"),
        }
    }
}

/// A match as it is kept while scanning: the same five positions as [`Found`].
pub type FoundAt = (usize, usize, usize, usize, usize);

pub open spec fn found_of(m: FoundAt) -> Found {
    (m.0 as int, m.1 as int, m.2 as int, m.3 as int, m.4 as int)
}

pub open spec fn founds_of(v: Seq<FoundAt>) -> Seq<Found> {
    v.map_values(|m: FoundAt| found_of(m))
}

fn pair_tail_exec(cs: &[char], a: usize, lits: &Literals) -> (r: Option<FoundAt>)
    requires
        lits.wf(),
        0 < a <= cs@.len(),
    ensures
        match r {
            Some(m) => pair_tail(cs@, a as int) == Some(found_of(m)),
            None => pair_tail(cs@, a as int) is None,
        },
{
    proof {
        lemma_run_end(cs@, a as int, CharClass::Name);
        lemma_literal_lengths();
    }
    let e1 = run_end_exec(cs, a, CharClass::Name);
    if e1 > a && chars_at(cs, e1, &lits.between_args) {
        assert(e1 + 3 <= cs.len());
        let b = e1 + 3;
        proof {
            lemma_run_end(cs@, b as int, CharClass::Name);
        }
        let e2 = run_end_exec(cs, b, CharClass::Name);
        if e2 > b && e2 < cs.len() && cs[e2] == '"' {
            return Some((e2 + 1, a, e1, b, e2));
        }
    }
    None
}

fn action_exec(cs: &[char], i: usize, lits: &Literals) -> (r: Option<FoundAt>)
    requires
        lits.wf(),
        i < cs@.len(),
    ensures
        match r {
            Some(m) => action_from(cs@, i as int, 0) == Some(found_of(m)),
            None => action_from(cs@, i as int, 0) is None,
        },
{
    proof {
        lemma_literal_lengths();
    }
    let mut n: usize = 0;
    while n < 6
        invariant
            lits.wf(),
            i < cs@.len(),
            n <= 6,
            action_from(cs@, i as int, 0) == action_from(cs@, i as int, n as int),
        decreases 6 - n,
    {
        proof {
            lemma_literal_lengths();
        }
        let prefix = &lits.actions[n];
        if chars_at(cs, i, prefix) {
            assert(prefix@ == action_prefix(n as int));
            assert(action_prefix(n as int).len() > 0);
            assert(i + prefix@.len() <= cs.len());
            let tail = pair_tail_exec(cs, i + prefix.len(), lits);
            if tail.is_some() {
                return tail;
            }
        }
        n = n + 1;
    }
    None
}

fn match_exec(p: Pattern, cs: &[char], i: usize, lits: &Literals) -> (r: Option<FoundAt>)
    requires
        lits.wf(),
        i < cs@.len(),
    ensures
        match r {
            Some(m) => match_at(p, cs@, i as int) == Some(found_of(m)),
            None => match_at(p, cs@, i as int) is None,
        },
{
    proof {
        lemma_literal_lengths();
    }
    match p {
        Pattern::JsonObject => {
            if chars_at(cs, i, &lits.json_object) {
                assert(i + 17 <= cs.len());
                let a = i + lits.json_object.len();
                proof {
                    lemma_run_end(cs@, a as int, CharClass::Name);
                }
                let e = run_end_exec(cs, a, CharClass::Name);
                if e > a && chars_at(cs, e, &lits.close_call) {
                    assert(e + 2 <= cs.len());
                    return Some((e + 2, a, e, 0, 0));
                }
            }
            None
        },
        Pattern::Property => {
            if chars_at(cs, i, &lits.property) {
                assert(i + 24 <= cs.len());
                pair_tail_exec(cs, i + lits.property.len(), lits)
            } else {
                None
            }
        },
        Pattern::Action => action_exec(cs, i, lits),
        Pattern::HtmlPath => {
            if cs[i] == '"' {
                let a = i + 1;
                proof {
                    lemma_run_end(cs@, a as int, CharClass::Path);
                }
                let e = run_end_exec(cs, a, CharClass::Path);
                if e < cs.len() && cs[e] == '"' && e - a >= 6 && chars_at(cs, e - 5, &lits.html) {
                    return Some((e + 1, a, e, 0, 0));
                }
            }
            None
        },
        Pattern::IdAttribute => {
            if !chars_at(cs, i, &lits.id) {
                return None;
            }
            assert(i + 2 <= cs.len());
            proof {
                lemma_run_end(cs@, i + 2, CharClass::Space);
            }
            let j = run_end_exec(cs, i + 2, CharClass::Space);
            if !(j < cs.len() && cs[j] == '=') {
                return None;
            }
            proof {
                lemma_run_end(cs@, j + 1, CharClass::Space);
            }
            let k = run_end_exec(cs, j + 1, CharClass::Space);
            if k < cs.len() && cs[k] == '"' {
                proof {
                    lemma_run_end(cs@, k + 1, CharClass::NotQuote);
                }
                let q = run_end_exec(cs, k + 1, CharClass::NotQuote);
                if q > k + 1 && q < cs.len() {
                    return Some((q + 1, k + 1, q, 0, 0));
                }
            }
            proof {
                lemma_run_end(cs@, k as int, CharClass::Bare);
            }
            let r = run_end_exec(cs, k, CharClass::Bare);
            if r > k {
                Some((r, k, r, 0, 0))
            } else {
                None
            }
        },
    }
}

/// Every match of `p` in `cs`, earliest first.
fn scan_exec(p: Pattern, cs: &[char], lits: &Literals) -> (r: Vec<FoundAt>)
    requires
        lits.wf(),
    ensures
        founds_of(r@) == scan(p, cs@, 0),
        forall|k: int| 0 <= k < r@.len() ==> found_within(found_of(#[trigger] r@[k]), 0, cs@.len() as int),
{
    let mut out: Vec<FoundAt> = Vec::new();
    let mut i: usize = 0;
    while i < cs.len()
        invariant
            lits.wf(),
            i <= cs@.len(),
            scan(p, cs@, 0) == founds_of(out@) + scan(p, cs@, i as int),
            forall|k: int| 0 <= k < out@.len() ==> found_within(found_of(#[trigger] out@[k]), 0, cs@.len() as int),
        decreases cs.len() - i,
    {
        proof {
            lemma_match_within(p, cs@, i as int);
        }
        match match_exec(p, cs, i, lits) {
            Some(m) => {
                let ghost prev = out@;
                out.push(m);
                assert(founds_of(out@) =~= founds_of(prev) + seq![found_of(m)]);
                assert(founds_of(prev) + scan(p, cs@, i as int) =~= founds_of(out@) + scan(p, cs@, m.0 as int));
                i = m.0;
            },
            None => {
                i = i + 1;
            },
        }
    }
    assert(scan(p, cs@, i as int) =~= Seq::<Found>::empty());
    assert(founds_of(out@) + Seq::<Found>::empty() =~= founds_of(out@));
    out
}

/// Every match of `p` in `cs`, earliest first.
pub fn scan_text(p: Pattern, cs: &[char]) -> (r: Vec<FoundAt>)
    ensures
        founds_of(r@) == scan(p, cs@, 0),
        forall|k: int| 0 <= k < r@.len() ==> found_within(found_of(#[trigger] r@[k]), 0, cs@.len() as int),
{
    let lits = Literals::new();
    scan_exec(p, cs, &lits)
}

} // verus!
