//! The order `String` keys sort in, and sorted, duplicate-free lists of strings.
//!
//! `str`'s `Ord` compares UTF-8 bytes, which orders strings the same way as comparing their
//! characters by code point. A strictly increasing list of strings is what iterating a
//! `BTreeSet<String>`, or the keys of a `BTreeMap<String, _>`, yields; the library keeps its
//! string-keyed collections in that shape.
use vstd::prelude::*;

use crate::text::{chars_of, str_eq};

verus! {

/// Lexicographic order on character sequences, comparing characters by code point.
pub open spec fn lex_lt(a: Seq<char>, b: Seq<char>) -> bool
    decreases a.len(),
{
    if b.len() == 0 {
        false
    } else if a.len() == 0 {
        true
    } else if a[0] < b[0] {
        true
    } else if a[0] == b[0] {
        lex_lt(a.drop_first(), b.drop_first())
    } else {
        false
    }
}

/// Every element is smaller than every later one.
pub open spec fn strictly_sorted(s: Seq<Seq<char>>) -> bool {
    forall|i: int, j: int| 0 <= i < j < s.len() ==> lex_lt(#[trigger] s[i], #[trigger] s[j])
}

/// The characters of each string of `v`.
pub open spec fn strs(v: Seq<String>) -> Seq<Seq<char>> {
    v.map_values(|s: String| s@)
}

/// The strictly increasing list that holds exactly the strings of `x`.
pub open spec fn sorted_distinct(x: Set<Seq<char>>) -> Seq<Seq<char>> {
    choose|s: Seq<Seq<char>>| strictly_sorted(s) && s.to_set() == x
}

pub proof fn lemma_lex_irreflexive(a: Seq<char>)
    ensures
        !lex_lt(a, a),
    decreases a.len(),
{
    if a.len() > 0 {
        lemma_lex_irreflexive(a.drop_first());
    }
}

pub proof fn lemma_lex_asymmetric(a: Seq<char>, b: Seq<char>)
    ensures
        lex_lt(a, b) ==> !lex_lt(b, a),
    decreases a.len(),
{
    if a.len() > 0 && b.len() > 0 && a[0] == b[0] {
        lemma_lex_asymmetric(a.drop_first(), b.drop_first());
    }
}

pub proof fn lemma_lex_transitive(a: Seq<char>, b: Seq<char>, c: Seq<char>)
    ensures
        lex_lt(a, b) && lex_lt(b, c) ==> lex_lt(a, c),
    decreases a.len(),
{
    if a.len() > 0 && b.len() > 0 && c.len() > 0 {
        lemma_lex_transitive(a.drop_first(), b.drop_first(), c.drop_first());
    }
}

pub proof fn lemma_lex_total(a: Seq<char>, b: Seq<char>)
    ensures
        a != b ==> lex_lt(a, b) || lex_lt(b, a),
    decreases a.len(),
{
    if a.len() > 0 && b.len() > 0 {
        lemma_lex_total(a.drop_first(), b.drop_first());
        if a[0] == b[0] && a.drop_first() == b.drop_first() {
            assert(a =~= seq![a[0]] + a.drop_first());
            assert(b =~= seq![b[0]] + b.drop_first());
        }
    } else if a.len() == 0 && b.len() == 0 {
        assert(a =~= b);
    }
}

/// The first element of a strictly sorted list is the least of its elements.
proof fn lemma_sorted_first_is_least(s: Seq<Seq<char>>, x: Seq<char>)
    requires
        strictly_sorted(s),
        s.contains(x),
    ensures
        x == s[0] || lex_lt(s[0], x),
{
    let k = choose|k: int| 0 <= k < s.len() && s[k] == x;
    if k > 0 {
        assert(lex_lt(s[0], s[k]));
    }
}

/// Two strictly sorted lists with the same elements are the same list.
pub proof fn lemma_sorted_unique(a: Seq<Seq<char>>, b: Seq<Seq<char>>)
    requires
        strictly_sorted(a),
        strictly_sorted(b),
        a.to_set() == b.to_set(),
    ensures
        a == b,
    decreases a.len(),
{
    if a.len() == 0 {
        if b.len() > 0 {
            assert(b.to_set().contains(b[0]));
        }
        assert(a =~= b);
    } else {
        assert(a.to_set().contains(a[0]));
        assert(b.to_set().contains(a[0]));
        assert(b.len() > 0);
        assert(a.to_set().contains(b[0]));
        lemma_sorted_first_is_least(a, b[0]);
        lemma_sorted_first_is_least(b, a[0]);
        lemma_lex_asymmetric(a[0], b[0]);
        assert(a[0] == b[0]);
        let ra = a.drop_first();
        let rb = b.drop_first();
        assert forall|x: Seq<char>| ra.to_set().contains(x) implies rb.to_set().contains(x) by {
            let k = choose|k: int| 0 <= k < ra.len() && ra[k] == x;
            assert(lex_lt(a[0], a[k + 1]));
            lemma_lex_irreflexive(x);
            assert(b.to_set().contains(x));
            let m = choose|m: int| 0 <= m < b.len() && b[m] == x;
            assert(m != 0);
            assert(rb[m - 1] == x);
        }
        assert forall|x: Seq<char>| rb.to_set().contains(x) implies ra.to_set().contains(x) by {
            let k = choose|k: int| 0 <= k < rb.len() && rb[k] == x;
            assert(lex_lt(b[0], b[k + 1]));
            lemma_lex_irreflexive(x);
            assert(a.to_set().contains(x));
            let m = choose|m: int| 0 <= m < a.len() && a[m] == x;
            assert(m != 0);
            assert(ra[m - 1] == x);
        }
        assert(ra.to_set() =~= rb.to_set());
        lemma_sorted_unique(ra, rb);
        assert(a =~= seq![a[0]] + ra);
        assert(b =~= seq![b[0]] + rb);
    }
}

/// A strictly sorted list is the `sorted_distinct` of its own elements.
pub proof fn lemma_sorted_distinct_is(s: Seq<Seq<char>>)
    requires
        strictly_sorted(s),
    ensures
        sorted_distinct(s.to_set()) == s,
{
    let t = sorted_distinct(s.to_set());
    assert(strictly_sorted(t) && t.to_set() == s.to_set());
    lemma_sorted_unique(t, s);
}

/// Puts `x` where it sorts in the strictly sorted `t`, unless it is there already.
proof fn sorted_insert_spec(t: Seq<Seq<char>>, x: Seq<char>) -> (u: Seq<Seq<char>>)
    requires
        strictly_sorted(t),
    ensures
        strictly_sorted(u),
        u.to_set() == t.to_set().insert(x),
    decreases t.len(),
{
    if t.len() == 0 {
        let u = seq![x];
        assert(u.to_set() =~= t.to_set().insert(x)) by {
            assert(u[0] == x);
        }
        u
    } else if t.last() == x {
        assert(t.to_set().contains(x)) by {
            assert(t[t.len() - 1] == x);
        }
        assert(t.to_set().insert(x) =~= t.to_set());
        t
    } else if lex_lt(t.last(), x) {
        let u = t.push(x);
        assert forall|i: int, j: int| 0 <= i < j < u.len() implies lex_lt(
            #[trigger] u[i],
            #[trigger] u[j],
        ) by {
            if j == t.len() && i < t.len() - 1 {
                assert(lex_lt(t[i], t[t.len() - 1]));
                lemma_lex_transitive(t[i], t[t.len() - 1], x);
            }
        }
        lemma_seq_push_to_set(t, x);
        u
    } else {
        let last = t.last();
        let rest = t.drop_last();
        lemma_lex_total(last, x);
        assert(strictly_sorted(rest));
        let v = sorted_insert_spec(rest, x);
        let u = v.push(last);
        assert forall|i: int| 0 <= i < v.len() implies lex_lt(#[trigger] v[i], last) by {
            assert(v.to_set().contains(v[i]));
            if v[i] != x {
                let k = choose|k: int| 0 <= k < rest.len() && rest[k] == v[i];
                assert(lex_lt(t[k], t[t.len() - 1]));
            }
        }
        assert forall|i: int, j: int| 0 <= i < j < u.len() implies lex_lt(
            #[trigger] u[i],
            #[trigger] u[j],
        ) by {
            if j == v.len() {
                assert(lex_lt(v[i], last));
            } else {
                assert(lex_lt(v[i], v[j]));
            }
        }
        lemma_seq_push_to_set(v, last);
        lemma_seq_push_to_set(rest, last);
        assert(t =~= rest.push(last));
        assert(u.to_set() =~= t.to_set().insert(x));
        u
    }
}

proof fn lemma_seq_push_to_set(s: Seq<Seq<char>>, x: Seq<char>)
    ensures
        s.push(x).to_set() == s.to_set().insert(x),
{
    assert forall|y: Seq<char>| s.push(x).to_set().contains(y) implies s.to_set().insert(x).contains(y) by {
        let k = choose|k: int| 0 <= k < s.push(x).len() && s.push(x)[k] == y;
        if k < s.len() {
            assert(s[k] == y);
        }
    }
    assert forall|y: Seq<char>| s.to_set().insert(x).contains(y) implies s.push(x).to_set().contains(y) by {
        if y == x {
            assert(s.push(x)[s.len() as int] == y);
        } else {
            let k = choose|k: int| 0 <= k < s.len() && s[k] == y;
            assert(s.push(x)[k] == y);
        }
    }
    assert(s.push(x).to_set() =~= s.to_set().insert(x));
}

/// The elements of any list can be listed strictly sorted.
pub proof fn lemma_sorted_exists(s: Seq<Seq<char>>)
    ensures
        exists|t: Seq<Seq<char>>| strictly_sorted(t) && t.to_set() == s.to_set(),
    decreases s.len(),
{
    if s.len() == 0 {
        let t = Seq::<Seq<char>>::empty();
        assert(t.to_set() =~= s.to_set());
        assert(strictly_sorted(t));
    } else {
        lemma_sorted_exists(s.drop_last());
        let t = choose|t: Seq<Seq<char>>| strictly_sorted(t) && t.to_set() == s.drop_last().to_set();
        let u = sorted_insert_spec(t, s.last());
        lemma_seq_push_to_set(s.drop_last(), s.last());
        assert(s =~= s.drop_last().push(s.last()));
        assert(strictly_sorted(u) && u.to_set() == s.to_set());
    }
}

/// `sorted_distinct` of the elements of a list is strictly sorted and holds exactly them.
pub proof fn lemma_sorted_distinct(s: Seq<Seq<char>>)
    ensures
        strictly_sorted(sorted_distinct(s.to_set())),
        sorted_distinct(s.to_set()).to_set() == s.to_set(),
{
    lemma_sorted_exists(s);
}

/// Whether `a` sorts before `b`.
pub fn str_lt(a: &str, b: &str) -> (r: bool)
    ensures
        r == lex_lt(a@, b@),
{
    let x = chars_of(a);
    let y = chars_of(b);
    let mut i: usize = 0;
    assert(x@.skip(0) =~= x@);
    assert(y@.skip(0) =~= y@);
    while i < x.len() && i < y.len()
        invariant
            x@ == a@,
            y@ == b@,
            i <= x@.len(),
            i <= y@.len(),
            lex_lt(a@, b@) == lex_lt(x@.skip(i as int), y@.skip(i as int)),
        decreases x.len() - i,
    {
        let ghost xs = x@.skip(i as int);
        let ghost ys = y@.skip(i as int);
        assert(xs.drop_first() =~= x@.skip(i + 1));
        assert(ys.drop_first() =~= y@.skip(i + 1));
        if x[i] != y[i] {
            assert(xs[0] == x@[i as int] && ys[0] == y@[i as int]);
            return x[i] < y[i];
        }
        i = i + 1;
    }
    // one of the two is exhausted
    i < y.len()
}

/// Inserts `x` into the strictly sorted list `v`, unless it is already there.
pub fn insert_sorted(v: &mut Vec<String>, x: String)
    requires
        strictly_sorted(strs(old(v)@)),
    ensures
        strictly_sorted(strs(final(v)@)),
        strs(final(v)@).to_set() == strs(old(v)@).to_set().insert(x@),
{
    let ghost old_s = strs(v@);
    let mut i: usize = 0;
    while i < v.len()
        invariant
            v@ == old(v)@,
            old_s == strs(v@),
            strictly_sorted(old_s),
            i <= v@.len(),
            forall|k: int| 0 <= k < i ==> lex_lt(#[trigger] old_s[k], x@),
        ensures
            v@ == old(v)@,
            i <= v@.len(),
            forall|k: int| 0 <= k < i ==> lex_lt(#[trigger] old_s[k], x@),
            i < v@.len() ==> !lex_lt(old_s[i as int], x@),
        decreases v.len() - i,
    {
        if !str_lt(v[i].as_str(), x.as_str()) {
            break;
        }
        i = i + 1;
    }
    if i < v.len() && str_eq(v[i].as_str(), x.as_str()) {
        proof {
            assert(old_s[i as int] == x@);
            assert(old_s.to_set().insert(x@) =~= old_s.to_set());
        }
        return ;
    }
    proof {
        if i < v@.len() {
            assert(!lex_lt(old_s[i as int], x@));
        }
    }
    let ghost xs = x@;
    v.insert(i, x);
    proof {
        let s = strs(v@);
        assert(s =~= old_s.insert(i as int, xs));
        if i < old_s.len() {
            lemma_lex_total(old_s[i as int], xs);
        }
        assert forall|p: int, q: int| 0 <= p < q < s.len() implies lex_lt(
            #[trigger] s[p],
            #[trigger] s[q],
        ) by {
            if p < i && q == i {
            } else if p < i && q > i {
                assert(lex_lt(old_s[p], old_s[q - 1]));
            } else if p == i && q > i {
                if q - 1 > i {
                    assert(lex_lt(old_s[i as int], old_s[q - 1]));
                    lemma_lex_transitive(xs, old_s[i as int], old_s[q - 1]);
                }
            } else if q < i {
                assert(lex_lt(old_s[p], old_s[q]));
            } else {
                assert(lex_lt(old_s[p - 1], old_s[q - 1]));
            }
        }
        assert(s.to_set() =~= old_s.to_set().insert(xs)) by {
            assert forall|y: Seq<char>| s.to_set().contains(y) implies old_s.to_set().insert(
                xs,
            ).contains(y) by {
                let k = choose|k: int| 0 <= k < s.len() && s[k] == y;
                if k < i {
                    assert(old_s[k] == y);
                } else if k > i {
                    assert(old_s[k - 1] == y);
                }
            }
            assert forall|y: Seq<char>| old_s.to_set().insert(xs).contains(y) implies s.to_set().contains(
                y,
            ) by {
                if y == xs {
                    assert(s[i as int] == y);
                } else {
                    let k = choose|k: int| 0 <= k < old_s.len() && old_s[k] == y;
                    if k < i {
                        assert(s[k] == y);
                    } else {
                        assert(s[k + 1] == y);
                    }
                }
            }
        }
    }
}

/// The order is code-point lexicographic: a string sorts before every longer string it is the
/// start of, and two strings that first differ at some position sort as the characters there
/// do, whatever follows.
pub proof fn lemma_lex_order(p: Seq<char>, a: Seq<char>, b: Seq<char>, x: char, y: char)
    ensures
        a.len() > 0 ==> lex_lt(p, p + a),
        (x as u32) < (y as u32) ==> lex_lt(p + seq![x] + a, p + seq![y] + b),
    decreases p.len(),
{
    if p.len() > 0 {
        lemma_lex_order(p.drop_first(), a, b, x, y);
        assert((p + a).drop_first() =~= p.drop_first() + a);
        assert((p + seq![x] + a).drop_first() =~= p.drop_first() + seq![x] + a);
        assert((p + seq![y] + b).drop_first() =~= p.drop_first() + seq![y] + b);
        assert((p + a)[0] == p[0]);
        assert((p + seq![x] + a)[0] == p[0]);
        assert((p + seq![y] + b)[0] == p[0]);
    } else {
        assert(p + a =~= a);
        assert(p + seq![x] + a =~= seq![x] + a);
        assert(p + seq![y] + b =~= seq![y] + b);
        assert((seq![x] + a)[0] == x);
        assert((seq![y] + b)[0] == y);
    }
}

} // verus!
