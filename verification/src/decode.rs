//! Decoding the hex-typed value strings a SENEC v3 answers with.
//!
//! A value is a token such as `fl_41C80000` or `i3_FFFFFFF6`, or a list of them written as a JSON
//! array. The prefix before the first `_` names the type: `fl` an IEEE-754 single-precision bit
//! pattern, `i1`, `i3` and `i8` two's-complement integers of 16, 32 and 8 bits, and `u1`, `u3`,
//! `u6` and `u8` unsigned integers. The digits after it are read the way `from_str_radix(_, 16)`
//! reads them. Anything else is not a number and is skipped.
use vstd::prelude::*;

use crate::text::{chars_at, chars_of, is_white_space, push_char, white_space};

verus! {

/// One decoded number, held exactly as the device encoded it.
///
/// Turning it into a floating-point sample is left to the caller: a `Float` is the bit pattern of
/// an `f32`, the integers are the integers the token denotes.
#[derive(Debug, Clone, Copy, PartialEq, Eq, Structural)]
pub enum RawNumber {
    /// The bits of an IEEE-754 single-precision number (`fl_`).
    Float(u32),
    /// An unsigned integer (`u1_`, `u3_`, `u6_`, `u8_`).
    Unsigned(u64),
    /// A signed integer (`i1_`, `i3_`, `i8_`).
    Signed(i128),
}

/// The characters a value string is cut at: white space, `[`, `]`, `"` and `,`.
pub open spec fn is_token_separator(c: char) -> bool {
    is_white_space(c) || c == '[' || c == ']' || c == '"' || c == ','
}

/// `s` cut at every separator, the way `str::split` cuts it: `n` separators give `n + 1`
/// pieces, some of which may be empty.
pub open spec fn split_pieces(s: Seq<char>) -> Seq<Seq<char>>
    decreases s.len(),
{
    if s.len() == 0 {
        seq![Seq::empty()]
    } else {
        let p = split_pieces(s.drop_last());
        if is_token_separator(s.last()) {
            p.push(Seq::empty())
        } else {
            p.update(p.len() - 1, p.last().push(s.last()))
        }
    }
}

/// The predicate that keeps non-empty pieces.
pub open spec fn non_empty() -> spec_fn(Seq<char>) -> bool {
    |t: Seq<char>| t.len() > 0
}

/// The tokens of a value string: its pieces between separators, empty ones dropped.
pub open spec fn spec_typed_tokens(s: Seq<char>) -> Seq<Seq<char>> {
    split_pieces(s).filter(non_empty())
}

/// The value of a hexadecimal digit.
pub open spec fn hex_digit(c: char) -> Option<int> {
    if '0' <= c && c <= '9' {
        Some(c as int - '0' as int)
    } else if 'a' <= c && c <= 'f' {
        Some(c as int - 'a' as int + 10)
    } else if 'A' <= c && c <= 'F' {
        Some(c as int - 'A' as int + 10)
    } else {
        None
    }
}

/// Every character of `d` is a hexadecimal digit.
pub open spec fn all_hex(d: Seq<char>) -> bool {
    forall|i: int| 0 <= i < d.len() ==> #[trigger] hex_digit(d[i]) is Some
}

/// The number the hexadecimal digits `d` write, most significant first.
pub open spec fn hex_value(d: Seq<char>) -> int
    decreases d.len(),
{
    if d.len() == 0 {
        0
    } else {
        hex_value(d.drop_last()) * 16 + hex_digit(d.last())->0
    }
}

/// What `from_str_radix(s, 16)` reads: an optional `+` (or, for a signed type, `-`) followed by
/// at least one hexadecimal digit. The range of the target type is checked by the caller.
pub open spec fn parse_hex(s: Seq<char>, signed: bool) -> Option<int> {
    if s.len() > 0 && s[0] == '+' {
        if s.len() > 1 && all_hex(s.drop_first()) {
            Some(hex_value(s.drop_first()))
        } else {
            None
        }
    } else if signed && s.len() > 0 && s[0] == '-' {
        if s.len() > 1 && all_hex(s.drop_first()) {
            Some(-hex_value(s.drop_first()))
        } else {
            None
        }
    } else if s.len() > 0 && all_hex(s) {
        Some(hex_value(s))
    } else {
        None
    }
}

/// `from_str_radix(s, 16)` into a type whose values run from `min` to `max`.
pub open spec fn parse_hex_in(s: Seq<char>, signed: bool, min: int, max: int) -> Option<int> {
    match parse_hex(s, signed) {
        Some(v) => if min <= v && v <= max {
            Some(v)
        } else {
            None
        },
        None => None,
    }
}

pub open spec fn two_pow_128() -> int {
    0x1_0000_0000_0000_0000_0000_0000_0000_0000int
}

/// Reads `r`, an `i128`, as a two's-complement number of `2 * half` values: when the bit worth
/// `half` is set in the 128-bit pattern of `r`, `2 * half` is subtracted, and the difference
/// wraps at the bottom of the `i128` range the way a release build's subtraction does.
pub open spec fn sign_extend(r: int, half: int) -> int {
    let pattern = if r < 0 {
        r + two_pow_128()
    } else {
        r
    };
    if (pattern / half) % 2 == 1 {
        let v = r - 2 * half;
        if v < i128::MIN {
            v + two_pow_128()
        } else {
            v
        }
    } else {
        r
    }
}

/// `i1_`, `i3_` or `i8_` digits with a sign bit worth `half`.
pub open spec fn spec_signed(value: Seq<char>, half: int) -> Option<RawNumber> {
    match parse_hex_in(value, true, i128::MIN as int, i128::MAX as int) {
        Some(r) => Some(RawNumber::Signed(sign_extend(r, half) as i128)),
        None => None,
    }
}

/// The position of the first `_` in `t`.
pub open spec fn first_underscore(t: Seq<char>) -> Option<int>
    decreases t.len(),
{
    if t.len() == 0 {
        None
    } else if t[0] == '_' {
        Some(0)
    } else {
        match first_underscore(t.drop_first()) {
            Some(k) => Some(k + 1),
            None => None,
        }
    }
}

/// What one token decodes to: its type prefix picks how the digits after the first `_` are read.
pub open spec fn spec_decode_token(t: Seq<char>) -> Option<RawNumber> {
    match first_underscore(t) {
        None => None,
        Some(p) => {
            let kind = t.take(p);
            let value = t.skip(p + 1);
            if kind == "fl"@ {
                match parse_hex_in(value, false, 0, u32::MAX as int) {
                    Some(v) => Some(RawNumber::Float(v as u32)),
                    None => None,
                }
            } else if kind == "u8"@ || kind == "u1"@ || kind == "u3"@ || kind == "u6"@ {
                match parse_hex_in(value, false, 0, u64::MAX as int) {
                    Some(v) => Some(RawNumber::Unsigned(v as u64)),
                    None => None,
                }
            } else if kind == "i8"@ {
                spec_signed(value, 0x80)
            } else if kind == "i1"@ {
                spec_signed(value, 0x8000)
            } else if kind == "i3"@ {
                spec_signed(value, 0x8000_0000)
            } else {
                None
            }
        },
    }
}

/// The numbers the tokens decode to, in order, tokens that are not numbers skipped.
pub open spec fn decode_all(tokens: Seq<Seq<char>>) -> Seq<RawNumber>
    decreases tokens.len(),
{
    if tokens.len() == 0 {
        Seq::empty()
    } else {
        let prev = decode_all(tokens.drop_last());
        match spec_decode_token(tokens.last()) {
            Some(n) => prev.push(n),
            None => prev,
        }
    }
}

/// The numbers a raw value string holds.
pub open spec fn spec_decode_values(raw: Seq<char>) -> Seq<RawNumber> {
    decode_all(spec_typed_tokens(raw))
}

pub proof fn lemma_split_pieces_nonempty(s: Seq<char>)
    ensures
        split_pieces(s).len() >= 1,
    decreases s.len(),
{
    if s.len() > 0 {
        lemma_split_pieces_nonempty(s.drop_last());
    }
}

fn token_separator(c: char) -> (r: bool)
    ensures
        r == is_token_separator(c),
{
    white_space(c) || c == '[' || c == ']' || c == '"' || c == ','
}

/// Splits a raw value into its typed tokens.
pub fn typed_tokens(raw: &str) -> (r: Vec<String>)
    ensures
        r@.map_values(|t: String| t@) == spec_typed_tokens(raw@),
{
    let cs = chars_of(raw);
    let mut tokens: Vec<String> = Vec::new();
    let mut cur = String::new();
    let ghost mut pieces: Seq<Seq<char>> = Seq::empty();
    let mut i: usize = 0;
    assert(cs@.take(0) =~= Seq::<char>::empty());
    while i < cs.len()
        invariant
            cs@ == raw@,
            i <= cs@.len(),
            split_pieces(cs@.take(i as int)) == pieces.push(cur@),
            tokens@.map_values(|t: String| t@) == pieces.filter(non_empty()),
        decreases cs.len() - i,
    {
        let c = cs[i];
        let ghost before = cs@.take(i as int);
        assert(cs@.take(i + 1).drop_last() =~= before);
        assert(cs@.take(i + 1).last() == c);
        if token_separator(c) {
            proof {
                pieces.lemma_filter_push(cur@, non_empty());
                pieces = pieces.push(cur@);
            }
            if !cur.as_str().is_empty() {
                assert(cur@.len() > 0);
                tokens.push(cur);
            } else {
                assert(cur@.len() == 0);
            }
            cur = String::new();
            assert(tokens@.map_values(|t: String| t@) =~= pieces.filter(non_empty()));
        } else {
            push_char(&mut cur, c);
            assert(pieces.push(cur@) =~= split_pieces(before).update(
                split_pieces(before).len() - 1,
                split_pieces(before).last().push(c),
            ));
        }
        i = i + 1;
    }
    assert(cs@.take(cs@.len() as int) =~= cs@);
    proof {
        pieces.lemma_filter_push(cur@, non_empty());
    }
    if !cur.as_str().is_empty() {
        tokens.push(cur);
    }
    assert(tokens@.map_values(|t: String| t@) =~= spec_typed_tokens(raw@));
    tokens
}

fn hex_digit_value(c: char) -> (r: Option<u8>)
    ensures
        match r {
            Some(d) => hex_digit(c) == Some(d as int) && d < 16,
            None => hex_digit(c) is None,
        },
{
    if '0' <= c && c <= '9' {
        Some(((c as u32) - ('0' as u32)) as u8)
    } else if 'a' <= c && c <= 'f' {
        Some(((c as u32) - ('a' as u32) + 10) as u8)
    } else if 'A' <= c && c <= 'F' {
        Some(((c as u32) - ('A' as u32) + 10) as u8)
    } else {
        None
    }
}

proof fn lemma_hex_value_nonneg(d: Seq<char>)
    requires
        all_hex(d),
    ensures
        hex_value(d) >= 0,
    decreases d.len(),
{
    if d.len() > 0 {
        assert(hex_digit(d[d.len() - 1]) is Some);
        assert(all_hex(d.drop_last())) by {
            assert forall|i: int| 0 <= i < d.drop_last().len() implies #[trigger] hex_digit(
                d.drop_last()[i],
            ) is Some by {
                assert(d.drop_last()[i] == d[i]);
            }
        }
        lemma_hex_value_nonneg(d.drop_last());
    }
}

/// Reading more digits never gives a smaller number.
proof fn lemma_hex_value_prefix(d: Seq<char>, k: int)
    requires
        all_hex(d),
        0 <= k <= d.len(),
    ensures
        hex_value(d.take(k)) <= hex_value(d),
    decreases d.len(),
{
    if k < d.len() {
        assert(all_hex(d.drop_last())) by {
            assert forall|i: int| 0 <= i < d.drop_last().len() implies #[trigger] hex_digit(
                d.drop_last()[i],
            ) is Some by {
                assert(d.drop_last()[i] == d[i]);
            }
        }
        lemma_hex_value_prefix(d.drop_last(), k);
        assert(d.drop_last().take(k) =~= d.take(k));
        lemma_hex_value_nonneg(d.drop_last());
        assert(hex_digit(d[d.len() - 1]) is Some);
    } else {
        assert(d.take(k) =~= d);
    }
}

/// Reads the hexadecimal digits `cs[from..]` as a number no larger than `limit`.
fn hex_digits_up_to(cs: &[char], from: usize, limit: u128) -> (r: Option<u128>)
    requires
        from <= cs@.len(),
        limit >= 16,
    ensures
        ({
            let d = cs@.skip(from as int);
            match r {
                Some(v) => d.len() > 0 && all_hex(d) && hex_value(d) == v && v <= limit,
                None => !(d.len() > 0 && all_hex(d) && hex_value(d) <= limit),
            }
        }),
{
    let ghost d = cs@.skip(from as int);
    if from == cs.len() {
        return None;
    }
    let mut acc: u128 = 0;
    let mut i = from;
    assert(d.take(0) =~= Seq::<char>::empty());
    while i < cs.len()
        invariant
            from <= i <= cs@.len(),
            d == cs@.skip(from as int),
            all_hex(d.take(i - from)),
            hex_value(d.take(i - from)) == acc as int,
            acc <= limit,
            limit >= 16,
        decreases cs.len() - i,
    {
        let ghost t = d.take(i - from);
        let ghost t1 = d.take(i + 1 - from);
        assert(t1.drop_last() =~= t);
        assert(t1.last() == cs@[i as int]);
        match hex_digit_value(cs[i]) {
            None => {
                assert(hex_digit(d[i - from]) is None);
                return None;
            },
            Some(dv) => {
                assert(all_hex(t1)) by {
                    assert forall|k: int| 0 <= k < t1.len() implies #[trigger] hex_digit(
                        t1[k],
                    ) is Some by {
                        if k < t.len() {
                            assert(t1[k] == t[k]);
                        }
                    }
                }
                if acc > (limit - dv as u128) / 16 {
                    proof {
                        assert(acc * 16 + dv > limit) by (nonlinear_arith)
                            requires
                                acc > (limit - dv as u128) / 16,
                                dv < 16,
                                dv <= limit || true,
                        ;
                        if all_hex(d) {
                            lemma_hex_value_prefix(d, i + 1 - from);
                        }
                    }
                    return None;
                }
                proof {
                    assert(acc * 16 + dv <= limit) by (nonlinear_arith)
                        requires
                            acc <= (limit - dv as u128) / 16,
                            dv < 16,
                    ;
                }
                acc = acc * 16 + dv as u128;
            },
        }
        i = i + 1;
    }
    assert(d.take(cs@.len() - from) =~= d);
    Some(acc)
}

/// `from_str_radix(value, 16)` for an unsigned type whose largest value is `limit`.
fn parse_unsigned(cs: &[char], from: usize, limit: u128) -> (r: Option<u128>)
    requires
        from <= cs@.len(),
        limit >= 16,
    ensures
        ({
            let p = parse_hex_in(cs@.skip(from as int), false, 0, limit as int);
            match r {
                Some(v) => p == Some(v as int),
                None => p is None,
            }
        }),
{
    let ghost s = cs@.skip(from as int);
    if from < cs.len() && cs[from] == '+' {
        assert(s.drop_first() =~= cs@.skip(from + 1));
        if from + 1 == cs.len() {
            return None;
        }
        hex_digits_up_to(cs, from + 1, limit)
    } else {
        let r = hex_digits_up_to(cs, from, limit);
        proof {
            if r is Some {
                assert(s[0] != '+');
            }
        }
        r
    }
}

/// `from_str_radix(value, 16)` into an `i128`.
fn parse_i128(cs: &[char], from: usize) -> (r: Option<i128>)
    requires
        from <= cs@.len(),
    ensures
        ({
            let p = parse_hex_in(cs@.skip(from as int), true, i128::MIN as int, i128::MAX as int);
            match r {
                Some(v) => p == Some(v as int),
                None => p is None,
            }
        }),
{
    let ghost s = cs@.skip(from as int);
    if from < cs.len() && (cs[from] == '+' || cs[from] == '-') {
        assert(s.drop_first() =~= cs@.skip(from + 1));
        if from + 1 == cs.len() {
            return None;
        }
        if cs[from] == '+' {
            match hex_digits_up_to(cs, from + 1, i128::MAX as u128) {
                Some(v) => Some(v as i128),
                None => None,
            }
        } else {
            match hex_digits_up_to(cs, from + 1, 0x8000_0000_0000_0000_0000_0000_0000_0000u128) {
                Some(v) => {
                    if v == 0x8000_0000_0000_0000_0000_0000_0000_0000u128 {
                        Some(i128::MIN)
                    } else {
                        Some(-(v as i128))
                    }
                },
                None => {
                    proof {
                        if all_hex(s.drop_first()) {
                            lemma_hex_value_nonneg(s.drop_first());
                        }
                    }
                    None
                },
            }
        }
    } else {
        let r = hex_digits_up_to(cs, from, i128::MAX as u128);
        proof {
            if all_hex(s) {
                lemma_hex_value_nonneg(s);
            }
        }
        match r {
            Some(v) => Some(v as i128),
            None => None,
        }
    }
}

/// Reads `r` as a two's-complement number whose sign bit is worth `half`.
fn sign_extend_exec(r: i128, half: u128) -> (v: i128)
    requires
        half == 0x80 || half == 0x8000 || half == 0x8000_0000,
    ensures
        v as int == sign_extend(r as int, half as int),
{
    let pattern: u128 = if r < 0 {
        let magnitude: u128 = if r == i128::MIN {
            0x8000_0000_0000_0000_0000_0000_0000_0000u128
        } else {
            (-r) as u128
        };
        (u128::MAX - magnitude) + 1
    } else {
        r as u128
    };
    assert(pattern as int == if r < 0 {
        r + two_pow_128()
    } else {
        r as int
    });
    if (pattern / half) % 2 == 1 {
        let full = (2 * half) as i128;
        if r >= i128::MIN + full {
            r - full
        } else {
            (r - i128::MIN) + (i128::MAX - full + 1)
        }
    } else {
        r
    }
}

/// The position of the first `_` in `cs`.
fn find_underscore(cs: &[char]) -> (r: Option<usize>)
    ensures
        match r {
            Some(p) => first_underscore(cs@) == Some(p as int),
            None => first_underscore(cs@) is None,
        },
{
    let mut i: usize = 0;
    while i < cs.len()
        invariant
            i <= cs@.len(),
            forall|k: int| 0 <= k < i ==> cs@[k] != '_',
        decreases cs.len() - i,
    {
        if cs[i] == '_' {
            proof {
                lemma_first_underscore(cs@, i as int);
            }
            return Some(i);
        }
        i = i + 1;
    }
    proof {
        lemma_no_underscore(cs@);
    }
    None
}

proof fn lemma_first_underscore(t: Seq<char>, i: int)
    requires
        0 <= i < t.len(),
        t[i] == '_',
        forall|k: int| 0 <= k < i ==> t[k] != '_',
    ensures
        first_underscore(t) == Some(i),
    decreases i,
{
    if i > 0 {
        lemma_first_underscore(t.drop_first(), i - 1);
    }
}

proof fn lemma_no_underscore(t: Seq<char>)
    requires
        forall|k: int| 0 <= k < t.len() ==> t[k] != '_',
    ensures
        first_underscore(t) is None,
    decreases t.len(),
{
    if t.len() > 0 {
        lemma_no_underscore(t.drop_first());
    }
}

/// Whether the type prefix `cs[..p]` is the two letters `a`, `b`.
fn kind_is(cs: &[char], p: usize, a: char, b: char) -> (r: bool)
    requires
        p <= cs@.len(),
    ensures
        r == (cs@.take(p as int) == seq![a, b]),
{
    if p != 2 {
        assert(cs@.take(p as int).len() == p);
        return false;
    }
    let r = cs[0] == a && cs[1] == b;
    assert(r == (cs@.take(2) =~= seq![a, b]));
    r
}

/// Decodes one token.
pub fn decode_token(token: &str) -> (r: Option<RawNumber>)
    ensures
        r == spec_decode_token(token@),
{
    let cs = chars_of(token);
    let p = match find_underscore(&cs) {
        Some(p) => p,
        None => {
            return None;
        },
    };
    proof {
        reveal_strlit("fl");
        reveal_strlit("u8");
        reveal_strlit("u1");
        reveal_strlit("u3");
        reveal_strlit("u6");
        reveal_strlit("i8");
        reveal_strlit("i1");
        reveal_strlit("i3");
    }
    assert(p < cs@.len()) by {
        lemma_first_underscore_in_range(cs@);
    }
    assert(p < cs.len());
    assert("fl"@ =~= seq!['f', 'l']);
    assert("u8"@ =~= seq!['u', '8']);
    assert("u1"@ =~= seq!['u', '1']);
    assert("u3"@ =~= seq!['u', '3']);
    assert("u6"@ =~= seq!['u', '6']);
    assert("i8"@ =~= seq!['i', '8']);
    assert("i1"@ =~= seq!['i', '1']);
    assert("i3"@ =~= seq!['i', '3']);
    let from = p + 1;
    if kind_is(&cs, p, 'f', 'l') {
        match parse_unsigned(&cs, from, u32::MAX as u128) {
            Some(v) => Some(RawNumber::Float(v as u32)),
            None => None,
        }
    } else if kind_is(&cs, p, 'u', '8') || kind_is(&cs, p, 'u', '1') || kind_is(&cs, p, 'u', '3')
        || kind_is(&cs, p, 'u', '6') {
        match parse_unsigned(&cs, from, u64::MAX as u128) {
            Some(v) => Some(RawNumber::Unsigned(v as u64)),
            None => None,
        }
    } else if kind_is(&cs, p, 'i', '8') {
        signed_token(&cs, from, 0x80)
    } else if kind_is(&cs, p, 'i', '1') {
        signed_token(&cs, from, 0x8000)
    } else if kind_is(&cs, p, 'i', '3') {
        signed_token(&cs, from, 0x8000_0000)
    } else {
        None
    }
}

proof fn lemma_first_underscore_in_range(t: Seq<char>)
    ensures
        first_underscore(t) matches Some(p) ==> 0 <= p < t.len() && t[p] == '_',
    decreases t.len(),
{
    if t.len() > 0 && t[0] != '_' {
        lemma_first_underscore_in_range(t.drop_first());
    }
}

fn signed_token(cs: &[char], from: usize, half: u128) -> (r: Option<RawNumber>)
    requires
        from <= cs@.len(),
        half == 0x80 || half == 0x8000 || half == 0x8000_0000,
    ensures
        r == spec_signed(cs@.skip(from as int), half as int),
{
    match parse_i128(cs, from) {
        Some(v) => Some(RawNumber::Signed(sign_extend_exec(v, half))),
        None => None,
    }
}

/// Every number a raw value string holds, in order.
///
/// A value that is a list yields one number per element; tokens that are not typed numbers,
/// such as `st_text` or a refusal word, are skipped.
pub fn decode_numeric_values(raw: &str) -> (r: Vec<RawNumber>)
    ensures
        r@ == spec_decode_values(raw@),
{
    let tokens = typed_tokens(raw);
    let ghost ts = tokens@.map_values(|t: String| t@);
    let mut out: Vec<RawNumber> = Vec::new();
    let mut i: usize = 0;
    assert(ts.take(0) =~= Seq::<Seq<char>>::empty());
    while i < tokens.len()
        invariant
            ts == tokens@.map_values(|t: String| t@),
            ts == spec_typed_tokens(raw@),
            i <= tokens@.len(),
            out@ == decode_all(ts.take(i as int)),
        decreases tokens.len() - i,
    {
        assert(ts.take(i + 1).drop_last() =~= ts.take(i as int));
        assert(ts.take(i + 1).last() == tokens@[i as int]@);
        if let Some(n) = decode_token(tokens[i].as_str()) {
            out.push(n);
        }
        i = i + 1;
    }
    assert(ts.take(tokens@.len() as int) =~= ts);
    out
}

/// Cutting `a`, a separator and `b` gives the pieces of `a` followed by the pieces of `b`.
proof fn lemma_split_concat(a: Seq<char>, c: char, b: Seq<char>)
    requires
        is_token_separator(c),
    ensures
        split_pieces(a.push(c) + b) == split_pieces(a) + split_pieces(b),
    decreases b.len(),
{
    lemma_split_pieces_nonempty(a);
    if b.len() == 0 {
        assert(a.push(c) + b =~= a.push(c));
        assert(a.push(c).drop_last() =~= a);
        assert(split_pieces(a) + split_pieces(b) =~= split_pieces(a).push(Seq::empty()));
    } else {
        lemma_split_concat(a, c, b.drop_last());
        lemma_split_pieces_nonempty(b.drop_last());
        let whole = a.push(c) + b;
        assert(whole.drop_last() =~= a.push(c) + b.drop_last());
        assert(whole.last() == b.last());
        let pa = split_pieces(a);
        let pb = split_pieces(b.drop_last());
        if is_token_separator(b.last()) {
            assert((pa + pb).push(Seq::empty()) =~= pa + pb.push(Seq::empty()));
        } else {
            assert((pa + pb).update((pa + pb).len() - 1, (pa + pb).last().push(b.last())) =~= pa
                + pb.update(pb.len() - 1, pb.last().push(b.last())));
        }
    }
}

proof fn lemma_decode_all_concat(x: Seq<Seq<char>>, y: Seq<Seq<char>>)
    ensures
        decode_all(x + y) == decode_all(x) + decode_all(y),
    decreases y.len(),
{
    if y.len() == 0 {
        assert(x + y =~= x);
        assert(decode_all(x) + decode_all(y) =~= decode_all(x));
    } else {
        lemma_decode_all_concat(x, y.drop_last());
        assert((x + y).drop_last() =~= x + y.drop_last());
        assert((x + y).last() == y.last());
        match spec_decode_token(y.last()) {
            Some(n) => {
                assert(decode_all(x) + decode_all(y.drop_last()).push(n) =~= (decode_all(x)
                    + decode_all(y.drop_last())).push(n));
            },
            None => {},
        }
    }
}

/// A value that is a list decodes to the numbers of its elements in order: the numbers of two
/// texts joined by a separator (white space, a bracket, a quote or a comma) are the numbers of
/// the first followed by the numbers of the second.
pub proof fn lemma_decode_values_concat(a: Seq<char>, c: char, b: Seq<char>)
    requires
        is_token_separator(c),
    ensures
        spec_decode_values(a.push(c) + b) == spec_decode_values(a) + spec_decode_values(b),
{
    lemma_split_concat(a, c, b);
    Seq::filter_distributes_over_add(split_pieces(a), split_pieces(b), non_empty());
    lemma_decode_all_concat(spec_typed_tokens(a), spec_typed_tokens(b));
}

/// `i1_`, `i3_` and `i8_` digits that fit the type's width are read as a two's-complement number
/// of that width: below the sign bit as they are, from it on less the width's range. So
/// `i1_FFFF` is -1, `i3_FFFFFFF6` is -10 and `i8_7F` is 127.
pub proof fn lemma_sign_extend_in_width(r: int, half: int)
    requires
        half == 0x80 || half == 0x8000 || half == 0x8000_0000,
        0 <= r < 2 * half,
    ensures
        sign_extend(r, half) == if r < half {
            r
        } else {
            r - 2 * half
        },
{
    if r < half {
        assert(r / half == 0) by (nonlinear_arith)
            requires
                0 <= r < half,
        ;
    } else {
        assert(r / half == 1) by (nonlinear_arith)
            requires
                half <= r < 2 * half,
        ;
    }
}

/// Every ASCII hexadecimal digit is read at its value, in either case, and no other character
/// is a digit.
pub proof fn lemma_hex_digit_values(c: char)
    ensures
        hex_digit('0') == Some(0int),
        hex_digit('1') == Some(1int),
        hex_digit('2') == Some(2int),
        hex_digit('3') == Some(3int),
        hex_digit('4') == Some(4int),
        hex_digit('5') == Some(5int),
        hex_digit('6') == Some(6int),
        hex_digit('7') == Some(7int),
        hex_digit('8') == Some(8int),
        hex_digit('9') == Some(9int),
        hex_digit('a') == Some(10int),
        hex_digit('b') == Some(11int),
        hex_digit('c') == Some(12int),
        hex_digit('d') == Some(13int),
        hex_digit('e') == Some(14int),
        hex_digit('f') == Some(15int),
        hex_digit('A') == Some(10int),
        hex_digit('B') == Some(11int),
        hex_digit('C') == Some(12int),
        hex_digit('D') == Some(13int),
        hex_digit('E') == Some(14int),
        hex_digit('F') == Some(15int),
        hex_digit(c) is Some <==> ('0' <= c <= '9' || 'a' <= c <= 'f' || 'A' <= c <= 'F'),
{
}

/// The upper-case hexadecimal digit worth `d`.
pub open spec fn upper_hex(d: int) -> char {
    "0123456789ABCDEF"@[d]
}

/// `n`, below 65536, written with four upper-case hexadecimal digits.
pub open spec fn hex4(n: int) -> Seq<char> {
    seq![upper_hex(n / 4096), upper_hex((n / 256) % 16), upper_hex((n / 16) % 16), upper_hex(n % 16)]
}

proof fn lemma_upper_hex(d: int)
    requires
        0 <= d < 16,
    ensures
        hex_digit(upper_hex(d)) == Some(d),
        upper_hex(d) != '+',
        upper_hex(d) != '-',
        upper_hex(d) != '_',
{
    reveal_strlit("0123456789ABCDEF");
    if d == 0 {
        assert(upper_hex(d) == '0');
    } else if d == 1 {
        assert(upper_hex(d) == '1');
    } else if d == 2 {
        assert(upper_hex(d) == '2');
    } else if d == 3 {
        assert(upper_hex(d) == '3');
    } else if d == 4 {
        assert(upper_hex(d) == '4');
    } else if d == 5 {
        assert(upper_hex(d) == '5');
    } else if d == 6 {
        assert(upper_hex(d) == '6');
    } else if d == 7 {
        assert(upper_hex(d) == '7');
    } else if d == 8 {
        assert(upper_hex(d) == '8');
    } else if d == 9 {
        assert(upper_hex(d) == '9');
    } else if d == 10 {
        assert(upper_hex(d) == 'A');
    } else if d == 11 {
        assert(upper_hex(d) == 'B');
    } else if d == 12 {
        assert(upper_hex(d) == 'C');
    } else if d == 13 {
        assert(upper_hex(d) == 'D');
    } else if d == 14 {
        assert(upper_hex(d) == 'E');
    } else if d == 15 {
        assert(upper_hex(d) == 'F');
    }
}

proof fn lemma_hex4(n: int)
    requires
        0 <= n < 0x10000,
    ensures
        hex4(n).len() == 4,
        all_hex(hex4(n)),
        hex_value(hex4(n)) == n,
        forall|i: int| 0 <= i < 4 ==> #[trigger] hex4(n)[i] != '_' && hex4(n)[i] != '+'
            && hex4(n)[i] != '-',
{
    let d0 = n / 4096;
    let d1 = (n / 256) % 16;
    let d2 = (n / 16) % 16;
    let d3 = n % 16;
    assert(0 <= d0 < 16 && 0 <= d1 < 16 && 0 <= d2 < 16 && 0 <= d3 < 16) by (nonlinear_arith)
        requires
            0 <= n < 0x10000,
            d0 == n / 4096,
            d1 == (n / 256) % 16,
            d2 == (n / 16) % 16,
            d3 == n % 16,
    ;
    lemma_upper_hex(d0);
    lemma_upper_hex(d1);
    lemma_upper_hex(d2);
    lemma_upper_hex(d3);
    let h = hex4(n);
    assert forall|i: int| 0 <= i < h.len() implies #[trigger] hex_digit(h[i]) is Some by {}
    assert(h.drop_last() =~= seq![upper_hex(d0), upper_hex(d1), upper_hex(d2)]);
    assert(h.drop_last().drop_last() =~= seq![upper_hex(d0), upper_hex(d1)]);
    assert(h.drop_last().drop_last().drop_last() =~= seq![upper_hex(d0)]);
    assert(h.drop_last().drop_last().drop_last().drop_last() =~= Seq::<char>::empty());
    reveal_with_fuel(hex_value, 5);
    assert(((d0 * 16 + d1) * 16 + d2) * 16 + d3 == n) by (nonlinear_arith)
        requires
            0 <= n < 0x10000,
            d0 == n / 4096,
            d1 == (n / 256) % 16,
            d2 == (n / 16) % 16,
            d3 == n % 16,
    ;
}

/// The digits after the type prefix of a two-letter prefix and `_`.
proof fn lemma_token_parts(kind: Seq<char>, t: Seq<char>, n: int)
    requires
        0 <= n < 0x10000,
        kind.len() == 2,
        kind[0] != '_',
        kind[1] != '_',
        t == kind + seq!['_'] + hex4(n),
    ensures
        first_underscore(t) == Some(2int),
        t.take(2) == kind,
        t.skip(3) == hex4(n),
{
    lemma_hex4(n);
    lemma_first_underscore(t, 2);
    assert(t.take(2) =~= kind);
    assert(t.skip(3) =~= hex4(n));
}

/// A text with no separator in it is one piece.
proof fn lemma_split_single(t: Seq<char>)
    requires
        forall|i: int| 0 <= i < t.len() ==> !is_token_separator(#[trigger] t[i]),
    ensures
        split_pieces(t) == seq![t],
    decreases t.len(),
{
    if t.len() == 0 {
        assert(t =~= Seq::<char>::empty());
    } else {
        let p = t.drop_last();
        assert forall|i: int| 0 <= i < p.len() implies !is_token_separator(#[trigger] p[i]) by {
            assert(p[i] == t[i]);
        }
        lemma_split_single(p);
        assert(p.push(t.last()) =~= t);
        assert(!is_token_separator(t[t.len() - 1]));
        assert(seq![p].update(0, p.push(t.last())) =~= seq![t]);
    }
}

/// The numbers of a value that is one token with no separator in it: that token's number.
proof fn lemma_single_token_values(t: Seq<char>)
    requires
        t.len() > 0,
        forall|i: int| 0 <= i < t.len() ==> !is_token_separator(#[trigger] t[i]),
    ensures
        spec_decode_values(t) == match spec_decode_token(t) {
            Some(n) => seq![n],
            None => Seq::<RawNumber>::empty(),
        },
{
    lemma_split_single(t);
    reveal_with_fuel(Seq::filter, 2);
    assert(seq![t].drop_last() =~= Seq::<Seq<char>>::empty());
    assert(spec_typed_tokens(t) =~= seq![t]);
    assert(seq![t].last() == t);
    reveal_with_fuel(decode_all, 2);
}

/// A hexadecimal digit is no separator.
proof fn lemma_hex_token_chars(kind: Seq<char>, n: int)
    requires
        0 <= n < 0x10000,
        kind.len() == 2,
        forall|i: int| 0 <= i < 2 ==> ('a' <= #[trigger] kind[i] <= 'z' || '0' <= kind[i] <= '9'),
    ensures
        forall|i: int| 0 <= i < (kind + seq!['_'] + hex4(n)).len() ==> !is_token_separator(
            #[trigger] (kind + seq!['_'] + hex4(n))[i],
        ),
{
    lemma_hex4(n);
    let t = kind + seq!['_'] + hex4(n);
    assert forall|i: int| 0 <= i < t.len() implies !is_token_separator(#[trigger] t[i]) by {
        if i >= 3 {
            assert(t[i] == hex4(n)[i - 3]);
            assert(hex_digit(hex4(n)[i - 3]) is Some);
        }
    }
}

/// A `u1_` token of four upper-case hexadecimal digits decodes to the 16-bit number they
/// write: `u1_000D` is 13 and `u1_FFFF` is 65535. As a whole value, it holds that one number.
#[verifier::spinoff_prover]
pub proof fn lemma_u1_token(n: u16)
    ensures
        spec_decode_token("u1_"@ + hex4(n as int)) == Some(RawNumber::Unsigned(n as u64)),
        spec_decode_values("u1_"@ + hex4(n as int)) == seq![RawNumber::Unsigned(n as u64)],
{
    reveal_strlit("u1_");
    reveal_strlit("u1");
    reveal_strlit("fl");
    reveal_strlit("u8");
    let t = "u1_"@ + hex4(n as int);
    assert("u1_"@ + hex4(n as int) =~= seq!['u', '1'] + seq!['_'] + hex4(n as int));
    lemma_token_parts(seq!['u', '1'], t, n as int);
    lemma_hex4(n as int);
    assert("u1"@ =~= seq!['u', '1']);
    assert(t.take(2)[0] != "fl"@[0]);
    assert(t.take(2) != "fl"@);
    assert(t.take(2) == "u1"@);
    lemma_hex_token_chars(seq!['u', '1'], n as int);
    lemma_single_token_values(t);
}

/// An `i1_` token of four upper-case hexadecimal digits decodes to the 16-bit two's-complement
/// number they write: `i1_000D` is 13, `i1_7FFF` is 32767, `i1_8000` is -32768 and `i1_FFFF`
/// is -1. As a whole value, it holds that one number.
#[verifier::spinoff_prover]
pub proof fn lemma_i1_token(n: u16)
    ensures
        spec_decode_token("i1_"@ + hex4(n as int)) == Some(
            RawNumber::Signed(
                if n < 0x8000 {
                    n as i128
                } else {
                    (n as int - 0x10000) as i128
                },
            ),
        ),
        spec_decode_values("i1_"@ + hex4(n as int)) == seq![
            RawNumber::Signed(
                if n < 0x8000 {
                    n as i128
                } else {
                    (n as int - 0x10000) as i128
                },
            ),
        ],
{
    reveal_strlit("i1_");
    reveal_strlit("i1");
    reveal_strlit("i8");
    reveal_strlit("fl");
    reveal_strlit("u8");
    reveal_strlit("u1");
    reveal_strlit("u3");
    reveal_strlit("u6");
    let t = "i1_"@ + hex4(n as int);
    assert("i1_"@ + hex4(n as int) =~= seq!['i', '1'] + seq!['_'] + hex4(n as int));
    lemma_token_parts(seq!['i', '1'], t, n as int);
    lemma_hex4(n as int);
    let k = t.take(2);
    assert(k[0] == 'i' && k[1] == '1');
    assert(k != "fl"@) by { assert(k[0] != "fl"@[0]); }
    assert(k != "u8"@) by { assert(k[0] != "u8"@[0]); }
    assert(k != "u1"@) by { assert(k[0] != "u1"@[0]); }
    assert(k != "u3"@) by { assert(k[0] != "u3"@[0]); }
    assert(k != "u6"@) by { assert(k[0] != "u6"@[0]); }
    assert(k != "i8"@) by { assert(k[1] != "i8"@[1]); }
    assert(k =~= "i1"@);
    lemma_sign_extend_in_width(n as int, 0x8000);
    lemma_hex_token_chars(seq!['i', '1'], n as int);
    lemma_single_token_values(t);
}

/// Reveals the eight type prefixes, letter by letter.
proof fn lemma_kind_letters()
    ensures
        "fl"@ =~= seq!['f', 'l'],
        "u8"@ =~= seq!['u', '8'],
        "u1"@ =~= seq!['u', '1'],
        "u3"@ =~= seq!['u', '3'],
        "u6"@ =~= seq!['u', '6'],
        "i8"@ =~= seq!['i', '8'],
        "i1"@ =~= seq!['i', '1'],
        "i3"@ =~= seq!['i', '3'],
{
    reveal_strlit("fl");
    reveal_strlit("u8");
    reveal_strlit("u1");
    reveal_strlit("u3");
    reveal_strlit("u6");
    reveal_strlit("i8");
    reveal_strlit("i1");
    reveal_strlit("i3");
}

/// The prefix, `_` and digits of a typed token.
proof fn lemma_typed_parts(kind: Seq<char>, d: Seq<char>)
    requires
        kind.len() == 2,
        kind[0] != '_',
        kind[1] != '_',
        forall|i: int| 0 <= i < d.len() ==> ('0' <= #[trigger] d[i] <= '9' || 'a' <= d[i] <= 'f'
            || 'A' <= d[i] <= 'F'),
        d.len() > 0,
    ensures
        first_underscore(kind + seq!['_'] + d) == Some(2int),
        (kind + seq!['_'] + d).take(2) == kind,
        (kind + seq!['_'] + d).skip(3) == d,
        parse_hex(d, false) == Some(hex_value(d)),
        parse_hex(d, true) == Some(hex_value(d)),
        hex_value(d) >= 0,
{
    let t = kind + seq!['_'] + d;
    lemma_first_underscore(t, 2);
    assert(t.take(2) =~= kind);
    assert(t.skip(3) =~= d);
    assert forall|i: int| 0 <= i < d.len() implies #[trigger] hex_digit(d[i]) is Some by {}
    assert(d[0] != '+' && d[0] != '-');
    lemma_hex_value_nonneg(d);
}

/// An `fl_`, `u8_`, `u1_`, `u3_` or `u6_` token whose digits are hexadecimal, in either case,
/// decodes to the number they write: a 32-bit pattern for `fl_`, a 64-bit unsigned number for
/// the others, and nothing when the number does not fit.
#[verifier::spinoff_prover]
pub proof fn lemma_unsigned_token(kind: Seq<char>, d: Seq<char>)
    requires
        kind == "fl"@ || kind == "u8"@ || kind == "u1"@ || kind == "u3"@ || kind == "u6"@,
        d.len() > 0,
        forall|i: int| 0 <= i < d.len() ==> ('0' <= #[trigger] d[i] <= '9' || 'a' <= d[i] <= 'f'
            || 'A' <= d[i] <= 'F'),
    ensures
        spec_decode_token(kind + seq!['_'] + d) == if kind == "fl"@ {
            if hex_value(d) <= 0xFFFF_FFFF {
                Some(RawNumber::Float(hex_value(d) as u32))
            } else {
                None
            }
        } else {
            if hex_value(d) <= 0xFFFF_FFFF_FFFF_FFFF {
                Some(RawNumber::Unsigned(hex_value(d) as u64))
            } else {
                None
            }
        },
{
    lemma_kind_letters();
    assert(kind.len() == 2 && kind[0] != '_' && kind[1] != '_');
    lemma_typed_parts(kind, d);
}

/// An `i8_`, `i1_` or `i3_` token whose hexadecimal digits write a number that fits 8, 16 or 32
/// bits decodes to that number read as two's complement of that width: as it is below the
/// sign bit, less the width's range from it on.
#[verifier::spinoff_prover]
pub proof fn lemma_signed_token(kind: Seq<char>, d: Seq<char>)
    requires
        kind == "i8"@ || kind == "i1"@ || kind == "i3"@,
        d.len() > 0,
        forall|i: int| 0 <= i < d.len() ==> ('0' <= #[trigger] d[i] <= '9' || 'a' <= d[i] <= 'f'
            || 'A' <= d[i] <= 'F'),
        hex_value(d) < if kind == "i8"@ {
            0x100int
        } else if kind == "i1"@ {
            0x1_0000int
        } else {
            0x1_0000_0000int
        },
    ensures
        ({
            let range = if kind == "i8"@ {
                0x100int
            } else if kind == "i1"@ {
                0x1_0000int
            } else {
                0x1_0000_0000int
            };
            let v = hex_value(d);
            spec_decode_token(kind + seq!['_'] + d) == Some(
                RawNumber::Signed(
                    if v < range / 2 {
                        v as i128
                    } else {
                        (v - range) as i128
                    },
                ),
            )
        }),
{
    lemma_kind_letters();
    assert(kind.len() == 2 && kind[0] != '_' && kind[1] != '_');
    lemma_typed_parts(kind, d);
    let v = hex_value(d);
    if kind == "i8"@ {
        lemma_sign_extend_in_width(v, 0x80);
    } else if kind == "i1"@ {
        lemma_sign_extend_in_width(v, 0x8000);
    } else {
        lemma_sign_extend_in_width(v, 0x8000_0000);
    }
}

/// A token is a number only under one of the eight type prefixes: a token with no `_`, or whose
/// text before its first `_` is none of `fl`, `u8`, `u1`, `u3`, `u6`, `i8`, `i1` and `i3` (such
/// as `st_text`), decodes to nothing.
pub proof fn lemma_untyped_token(kind: Seq<char>, rest: Seq<char>)
    requires
        forall|i: int| 0 <= i < kind.len() ==> #[trigger] kind[i] != '_',
        kind != "fl"@,
        kind != "u8"@,
        kind != "u1"@,
        kind != "u3"@,
        kind != "u6"@,
        kind != "i8"@,
        kind != "i1"@,
        kind != "i3"@,
    ensures
        spec_decode_token(kind + seq!['_'] + rest) is None,
        spec_decode_token(kind) is None,
{
    let t = kind + seq!['_'] + rest;
    lemma_first_underscore(t, kind.len() as int);
    assert(t.take(kind.len() as int) =~= kind);
    lemma_no_underscore(kind);
}

/// A value string is cut into tokens at white space, `[`, `]`, `"` and `,`, and nowhere else: a
/// text free of those characters is one token, and two such texts with one of those characters
/// between them are two tokens.
#[verifier::spinoff_prover]
pub proof fn lemma_token_cuts(a: Seq<char>, c: char, b: Seq<char>)
    requires
        a.len() > 0,
        b.len() > 0,
        forall|i: int| 0 <= i < a.len() ==> !(is_white_space(#[trigger] a[i]) || a[i] == '['
            || a[i] == ']' || a[i] == '"' || a[i] == ','),
        forall|i: int| 0 <= i < b.len() ==> !(is_white_space(#[trigger] b[i]) || b[i] == '['
            || b[i] == ']' || b[i] == '"' || b[i] == ','),
    ensures
        spec_typed_tokens(a) == seq![a],
        (is_white_space(c) || c == '[' || c == ']' || c == '"' || c == ',') ==> spec_typed_tokens(
            a.push(c) + b,
        ) == seq![a, b],
        !(is_white_space(c) || c == '[' || c == ']' || c == '"' || c == ',') ==> spec_typed_tokens(
            a.push(c) + b,
        ) == seq![a.push(c) + b],
{
    lemma_split_single(a);
    lemma_split_single(b);
    reveal_with_fuel(Seq::filter, 3);
    assert(seq![a].drop_last() =~= Seq::<Seq<char>>::empty());
    assert(spec_typed_tokens(a) =~= seq![a]);
    if is_token_separator(c) {
        lemma_split_concat(a, c, b);
        assert(seq![a] + seq![b] =~= seq![a, b]);
        assert(seq![a, b].drop_last() =~= seq![a]);
        assert(spec_typed_tokens(a.push(c) + b) =~= seq![a, b]);
    } else {
        let t = a.push(c) + b;
        assert forall|i: int| 0 <= i < t.len() implies !is_token_separator(#[trigger] t[i]) by {
            if i < a.len() {
                assert(t[i] == a[i]);
            } else if i > a.len() {
                assert(t[i] == b[i - a.len() - 1]);
            }
        }
        lemma_split_single(t);
        assert(seq![t].drop_last() =~= Seq::<Seq<char>>::empty());
        assert(spec_typed_tokens(t) =~= seq![t]);
    }
}

} // verus!
