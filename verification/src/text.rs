//! Character-level helpers shared by the decoder, the path normalisers and the page scanners.
//!
//! Everything here works on the `Seq<char>` view of a string, which is what `str` and `String`
//! are to Verus.
use vstd::prelude::*;

verus! {

/// The Unicode `White_Space` property, which is what `char::is_whitespace`, `str::trim` and the
/// `\s` class of a Unicode regular expression all test.
pub open spec fn is_white_space(c: char) -> bool {
    let u = c as u32;
    ||| 0x9 <= u && u <= 0xD
    ||| u == 0x20
    ||| u == 0x85
    ||| u == 0xA0
    ||| u == 0x1680
    ||| 0x2000 <= u && u <= 0x200A
    ||| u == 0x2028
    ||| u == 0x2029
    ||| u == 0x202F
    ||| u == 0x205F
    ||| u == 0x3000
}

/// Whether every character of `s` is white space, i.e. `s.trim()` is empty.
pub open spec fn is_blank(s: Seq<char>) -> bool {
    forall|i: int| 0 <= i < s.len() ==> #[trigger] is_white_space(s[i])
}

/// Whether `s` begins with `prefix`.
pub open spec fn has_prefix(s: Seq<char>, prefix: Seq<char>) -> bool {
    prefix.len() <= s.len() && s.subrange(0, prefix.len() as int) == prefix
}

/// Whether `lit` occurs in `s` starting at position `i`.
pub open spec fn occurs_at(s: Seq<char>, i: int, lit: Seq<char>) -> bool {
    0 <= i && i + lit.len() <= s.len() && s.subrange(i, i + lit.len()) == lit
}

pub fn white_space(c: char) -> (r: bool)
    ensures
        r == is_white_space(c),
{
    let u = c as u32;
    (0x9 <= u && u <= 0xD) || u == 0x20 || u == 0x85 || u == 0xA0 || u == 0x1680 || (0x2000 <= u
        && u <= 0x200A) || u == 0x2028 || u == 0x2029 || u == 0x202F || u == 0x205F || u == 0x3000
}

/// Whether every character of `s` is white space.
pub fn blank(s: &str) -> (r: bool)
    ensures
        r == is_blank(s@),
{
    let cs = chars_of(s);
    let mut i: usize = 0;
    while i < cs.len()
        invariant
            cs@ == s@,
            i <= cs.len(),
            forall|j: int| 0 <= j < i ==> #[trigger] is_white_space(cs@[j]),
        decreases cs.len() - i,
    {
        if !white_space(cs[i]) {
            return false;
        }
        i = i + 1;
    }
    true
}

/// Appends one character to a string through std's `String::push`.
/// Trusted: the contract claims only what std documents, that the character
/// is added at the end and the earlier characters stay as they were.
#[verifier::external_body]
pub(crate) fn push_char(s: &mut String, c: char)
    ensures
        final(s)@ == old(s)@.push(c),
{
    s.push(c);
}

/// The characters of `s`, in order.
pub fn chars_of(s: &str) -> (r: Vec<char>)
    ensures
        r@ == s@,
{
    let mut r: Vec<char> = Vec::new();
    for c in it: s.chars()
        invariant
            r@ == it.seq().take(it.index() as int),
            it.seq() == s@,
    {
        r.push(c);
    }
    r
}

/// Appends `cs[from..to]` to `out`.
pub fn push_range(out: &mut String, cs: &[char], from: usize, to: usize)
    requires
        from <= to <= cs@.len(),
    ensures
        final(out)@ == old(out)@ + cs@.subrange(from as int, to as int),
{
    let ghost start = out@;
    let mut i = from;
    while i < to
        invariant
            from <= i <= to <= cs@.len(),
            out@ == start + cs@.subrange(from as int, i as int),
        decreases to - i,
    {
        push_char(out, cs[i]);
        assert(cs@.subrange(from as int, i + 1) == cs@.subrange(from as int, i as int).push(cs@[i as int]));
        i = i + 1;
    }
}

/// The string made of `cs[from..to]`.
pub fn string_of(cs: &[char], from: usize, to: usize) -> (r: String)
    requires
        from <= to <= cs@.len(),
    ensures
        r@ == cs@.subrange(from as int, to as int),
{
    let mut r = String::new();
    push_range(&mut r, cs, from, to);
    assert(Seq::<char>::empty() + cs@.subrange(from as int, to as int) =~= cs@.subrange(from as int, to as int));
    r
}

/// Whether `cs` holds `lit` at position `at`.
pub fn chars_at(cs: &[char], at: usize, lit: &[char]) -> (r: bool)
    ensures
        r == occurs_at(cs@, at as int, lit@),
{
    if lit.len() > cs.len() || at > cs.len() - lit.len() {
        return false;
    }
    let mut j: usize = 0;
    while j < lit.len()
        invariant
            at + lit@.len() <= cs@.len(),
            j <= lit@.len(),
            forall|k: int| 0 <= k < j ==> cs@[at + k] == lit@[k],
        decreases lit.len() - j,
    {
        assert(at + j < cs.len());
        if cs[at + j] != lit[j] {
            assert(cs@.subrange(at as int, at + lit@.len())[j as int] != lit@[j as int]);
            return false;
        }
        j = j + 1;
    }
    assert(cs@.subrange(at as int, at + lit@.len()) =~= lit@);
    true
}

/// Whether the two character sequences are equal.
pub fn same_chars(a: &[char], b: &[char]) -> (r: bool)
    ensures
        r == (a@ == b@),
{
    if a.len() != b.len() {
        return false;
    }
    let r = chars_at(a, 0, b);
    assert(a@.subrange(0, b@.len() as int) =~= a@);
    r
}

/// Whether the two strings are equal.
pub fn str_eq(a: &str, b: &str) -> (r: bool)
    ensures
        r == (a@ == b@),
{
    let x = chars_of(a);
    let y = chars_of(b);
    same_chars(&x, &y)
}

/// `path` with a `/` put in front of it unless it already starts with one.
pub open spec fn spec_with_leading_slash(path: Seq<char>) -> Seq<char> {
    if path.len() > 0 && path[0] == '/' {
        path
    } else {
        seq!['/'] + path
    }
}

/// Puts a `/` in front of `path` unless it already starts with one.
pub fn with_leading_slash(path: &str) -> (r: String)
    ensures
        r@ == spec_with_leading_slash(path@),
{
    let cs = chars_of(path);
    let mut r = String::new();
    if !(cs.len() > 0 && cs[0] == '/') {
        push_char(&mut r, '/');
    }
    push_range(&mut r, &cs, 0, cs.len());
    assert(cs@.subrange(0, cs@.len() as int) =~= cs@);
    assert(Seq::<char>::empty() + cs@ =~= cs@);
    r
}

/// Normalises the route the metrics are served at: a leading slash is added when it is missing.
pub fn normalize_metrics_path(path: &str) -> (r: String)
    ensures
        r@ == spec_with_leading_slash(path@),
{
    with_leading_slash(path)
}

/// Normalising a path twice gives what normalising it once gives.
pub proof fn lemma_leading_slash_idempotent(path: Seq<char>)
    ensures
        spec_with_leading_slash(spec_with_leading_slash(path)) == spec_with_leading_slash(path),
        spec_with_leading_slash(path).len() > 0,
        spec_with_leading_slash(path)[0] == '/',
{
    if !(path.len() > 0 && path[0] == '/') {
        assert((seq!['/'] + path)[0] == '/');
    }
}

/// Adding the leading slash keeps the path: the result is the path itself when it already
/// starts with `/`, and otherwise `/` followed by the path; a path and the same path with one
/// `/` in front normalise alike.
pub proof fn lemma_leading_slash_keeps_path(path: Seq<char>)
    ensures
        spec_with_leading_slash(path) == path || spec_with_leading_slash(path) == seq!['/'] + path,
        spec_with_leading_slash(path).drop_first() == path || spec_with_leading_slash(path) == path,
        path.len() > 0 && path[0] == '/' ==> spec_with_leading_slash(path) == path,
        !(path.len() > 0 && path[0] == '/') ==> spec_with_leading_slash(path) == seq!['/'] + path,
        spec_with_leading_slash(seq!['/'] + path) == seq!['/'] + path,
        !(path.len() > 0 && path[0] == '/') ==> spec_with_leading_slash(seq!['/'] + path)
            == spec_with_leading_slash(path),
{
    assert((seq!['/'] + path).drop_first() =~= path);
    assert((seq!['/'] + path)[0] == '/');
}

/// White space is Unicode's `White_Space` set, the characters `char::is_whitespace` accepts:
/// tab, line feed, vertical tab, form feed, carriage return, space, next line, no-break space,
/// ogham space mark, the spaces from en quad to hair space, line and paragraph separator,
/// narrow no-break space, medium mathematical space and ideographic space.
pub proof fn lemma_white_space_set(c: char)
    ensures
        is_white_space(c) <==> (c == '\t' || c == '\n' || c == '\u{0B}' || c == '\u{0C}' || c
            == '\r' || c == ' ' || c == '\u{85}' || c == '\u{A0}' || c == '\u{1680}' || ('\u{2000}'
            <= c && c <= '\u{200A}') || c == '\u{2028}' || c == '\u{2029}' || c == '\u{202F}' || c
            == '\u{205F}' || c == '\u{3000}'),
{
}

} // verus!
