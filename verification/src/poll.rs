//! What one poll cycle makes of the device's answers: one sample per decoded number, and the two
//! power readings the grid economics are integrated from.
use vstd::prelude::*;

use crate::decode::{decode_numeric_values, spec_decode_values, RawNumber};
use crate::model::names_sorted;
use crate::order::{lemma_lex_irreflexive, lex_lt};
use crate::query::{answers_map, assoc_map, lemma_assoc_map_dom, AnswerEntry, DeviceAnswers, KeyValue};
use crate::text::str_eq;

verus! {

/// One decoded number, with the object, key and list position it came from.
#[derive(Debug, Clone)]
pub struct Sample {
    pub object: String,
    pub key: String,
    pub index: usize,
    pub value: RawNumber,
}

/// A sample as plain values: object, key, index, number.
pub type SampleView = (Seq<char>, Seq<char>, int, RawNumber);

impl View for Sample {
    type V = SampleView;

    open spec fn view(&self) -> SampleView {
        (self.object@, self.key@, self.index as int, self.value)
    }
}

/// What one poll cycle read.
#[derive(Debug)]
pub struct PollReadings {
    /// Every decoded number, object by object and key by key in the answers' order, the numbers
    /// of one key in their list order.
    pub samples: Vec<Sample>,
    /// The first number of `ENERGY.GUI_GRID_POW`: positive while the house draws from the grid.
    pub grid_power: Option<RawNumber>,
    /// The first number of `ENERGY.GUI_HOUSE_POW`.
    pub house_power: Option<RawNumber>,
}

pub open spec fn samples_view(v: Seq<Sample>) -> Seq<SampleView> {
    v.map_values(|s: Sample| s@)
}

/// The samples of one key: its numbers, numbered from zero.
pub open spec fn key_samples(object: Seq<char>, key: Seq<char>, values: Seq<RawNumber>) -> Seq<
    SampleView,
> {
    Seq::new(values.len(), |i: int| (object, key, i, values[i]))
}

/// The samples of one object's answers, key by key.
pub open spec fn object_samples(object: Seq<char>, kvs: Seq<KeyValue>) -> Seq<SampleView>
    decreases kvs.len(),
{
    if kvs.len() == 0 {
        Seq::empty()
    } else {
        object_samples(object, kvs.drop_last()) + key_samples(
            object,
            kvs.last().0,
            spec_decode_values(kvs.last().1),
        )
    }
}

/// The samples of all answers, object by object.
pub open spec fn all_samples(entries: Seq<AnswerEntry>) -> Seq<SampleView>
    decreases entries.len(),
{
    if entries.len() == 0 {
        Seq::empty()
    } else {
        all_samples(entries.drop_last()) + object_samples(entries.last().0, entries.last().1)
    }
}

/// The number the last sample at index 0 of `ENERGY.key` holds.
pub open spec fn energy_reading(samples: Seq<SampleView>, key: Seq<char>) -> Option<RawNumber>
    decreases samples.len(),
{
    if samples.len() == 0 {
        None
    } else {
        let s = samples.last();
        if s.0 == "ENERGY"@ && s.1 == key && s.2 == 0 {
            Some(s.3)
        } else {
            energy_reading(samples.drop_last(), key)
        }
    }
}

/// Decodes every answer into samples and picks out the grid and house power readings.
pub fn collect_readings(answers: &DeviceAnswers) -> (r: PollReadings)
    ensures
        samples_view(r.samples@) == all_samples(answers@),
        r.grid_power == energy_reading(all_samples(answers@), "GUI_GRID_POW"@),
        r.house_power == energy_reading(all_samples(answers@), "GUI_HOUSE_POW"@),
        answers.well_formed() ==> r.grid_power == first_energy_number(
            answers_map(answers@),
            "GUI_GRID_POW"@,
        ),
        answers.well_formed() ==> r.house_power == first_energy_number(
            answers_map(answers@),
            "GUI_HOUSE_POW"@,
        ),
{
    let ghost es = answers@;
    let mut samples: Vec<Sample> = Vec::new();
    let mut grid_power: Option<RawNumber> = None;
    let mut house_power: Option<RawNumber> = None;
    let mut i: usize = 0;
    assert(es.take(0) =~= Seq::<AnswerEntry>::empty());
    while i < answers.objects.len()
        invariant
            es == answers@,
            i <= es.len(),
            samples_view(samples@) == all_samples(es.take(i as int)),
            grid_power == energy_reading(samples_view(samples@), "GUI_GRID_POW"@),
            house_power == energy_reading(samples_view(samples@), "GUI_HOUSE_POW"@),
        decreases answers.objects.len() - i,
    {
        let object = &answers.objects[i].0;
        let values = &answers.objects[i].1;
        let ghost kvs = es[i as int].1;
        let ghost base = samples_view(samples@);
        let is_energy = str_eq(object.as_str(), "ENERGY");
        let mut j: usize = 0;
        assert(kvs.take(0) =~= Seq::<KeyValue>::empty());
        assert(base + object_samples(object@, kvs.take(0)) =~= base);
        while j < values.len()
            invariant
                es == answers@,
                i < es.len(),
                kvs == es[i as int].1,
                object@ == es[i as int].0,
                is_energy == (object@ == "ENERGY"@),
                crate::query::pairs_view(values@) == kvs,
                values@ == answers.objects@[i as int].1@,
                j <= kvs.len(),
                samples_view(samples@) == base + object_samples(object@, kvs.take(j as int)),
                grid_power == energy_reading(samples_view(samples@), "GUI_GRID_POW"@),
                house_power == energy_reading(samples_view(samples@), "GUI_HOUSE_POW"@),
            decreases values.len() - j,
        {
            let key = &values[j].0;
            let raw = &values[j].1;
            assert(kvs[j as int] == (key@, raw@));
            assert(kvs.take(j + 1).drop_last() =~= kvs.take(j as int));
            let numbers = decode_numeric_values(raw.as_str());
            let is_grid = str_eq(key.as_str(), "GUI_GRID_POW");
            let is_house = str_eq(key.as_str(), "GUI_HOUSE_POW");
            let ghost before = samples_view(samples@);
            let mut n: usize = 0;
            while n < numbers.len()
                invariant
                    n <= numbers@.len(),
                    numbers@ == spec_decode_values(raw@),
                    is_energy == (object@ == "ENERGY"@),
                    is_grid == (key@ == "GUI_GRID_POW"@),
                    is_house == (key@ == "GUI_HOUSE_POW"@),
                    samples_view(samples@) == before + key_samples(object@, key@, numbers@).take(
                        n as int,
                    ),
                    grid_power == energy_reading(samples_view(samples@), "GUI_GRID_POW"@),
                    house_power == energy_reading(samples_view(samples@), "GUI_HOUSE_POW"@),
                decreases numbers.len() - n,
            {
                let value = numbers[n];
                if is_energy && n == 0 {
                    if is_grid {
                        grid_power = Some(value);
                    }
                    if is_house {
                        house_power = Some(value);
                    }
                }
                let ghost prev = samples@;
                samples.push(
                    Sample { object: object.clone(), key: key.clone(), index: n, value },
                );
                assert(samples_view(samples@) =~= samples_view(prev).push(
                    (object@, key@, n as int, value),
                ));
                assert(samples_view(samples@).drop_last() =~= samples_view(prev));
                assert(before + key_samples(object@, key@, numbers@).take(n + 1) =~= (before
                    + key_samples(object@, key@, numbers@).take(n as int)).push(
                    (object@, key@, n as int, value),
                ));
                proof {
                    reveal_strlit("GUI_GRID_POW");
                    reveal_strlit("GUI_HOUSE_POW");
                }
                n = n + 1;
            }
            assert(key_samples(object@, key@, numbers@).take(numbers@.len() as int)
                =~= key_samples(object@, key@, numbers@));
            assert(base + object_samples(object@, kvs.take(j + 1)) =~= base + object_samples(
                object@,
                kvs.take(j as int),
            ) + key_samples(object@, key@, spec_decode_values(raw@)));
            j = j + 1;
        }
        assert(kvs.take(kvs.len() as int) =~= kvs);
        assert(es.take(i + 1).drop_last() =~= es.take(i as int));
        assert(es.take(i + 1).last() == es[i as int]);
        i = i + 1;
    }
    assert(es.take(es.len() as int) =~= es);
    proof {
        if answers.well_formed() {
            lemma_power_reading(*answers, "GUI_GRID_POW"@);
            lemma_power_reading(*answers, "GUI_HOUSE_POW"@);
        }
    }
    PollReadings { samples, grid_power, house_power }
}

/// What the answers hold for `key` under `ENERGY`, read as power: the first number of its value,
/// if the answers hold the key and its value holds a number.
pub open spec fn first_energy_number(
    answers: Map<Seq<char>, Map<Seq<char>, Seq<char>>>,
    key: Seq<char>,
) -> Option<RawNumber> {
    if answers.contains_key("ENERGY"@) && answers["ENERGY"@].contains_key(key)
        && spec_decode_values(answers["ENERGY"@][key]).len() > 0 {
        Some(spec_decode_values(answers["ENERGY"@][key])[0])
    } else {
        None
    }
}

proof fn lemma_reading_concat(a: Seq<SampleView>, b: Seq<SampleView>, key: Seq<char>)
    ensures
        energy_reading(a + b, key) == match energy_reading(b, key) {
            Some(x) => Some(x),
            None => energy_reading(a, key),
        },
    decreases b.len(),
{
    if b.len() == 0 {
        assert(a + b =~= a);
    } else {
        assert((a + b).drop_last() =~= a + b.drop_last());
        assert((a + b).last() == b.last());
        lemma_reading_concat(a, b.drop_last(), key);
    }
}

proof fn lemma_reading_key(
    o: Seq<char>,
    k: Seq<char>,
    vals: Seq<RawNumber>,
    n: int,
    key: Seq<char>,
)
    requires
        0 <= n <= vals.len(),
    ensures
        energy_reading(key_samples(o, k, vals).take(n), key) == if o == "ENERGY"@ && k == key && n
            > 0 {
            Some(vals[0])
        } else {
            None
        },
    decreases n,
{
    let t = key_samples(o, k, vals).take(n);
    if n > 0 {
        assert(t.drop_last() =~= key_samples(o, k, vals).take(n - 1));
        assert(t.last() == (o, k, n - 1, vals[n - 1]));
        lemma_reading_key(o, k, vals, n - 1, key);
    }
}

proof fn lemma_reading_object(o: Seq<char>, kvs: Seq<KeyValue>, key: Seq<char>)
    requires
        names_sorted(kvs),
    ensures
        energy_reading(object_samples(o, kvs), key) == if o == "ENERGY"@ && assoc_map(
            kvs,
        ).contains_key(key) && spec_decode_values(assoc_map(kvs)[key]).len() > 0 {
            Some(spec_decode_values(assoc_map(kvs)[key])[0])
        } else {
            None
        },
    decreases kvs.len(),
{
    if kvs.len() > 0 {
        let p = kvs.drop_last();
        let last = kvs.last();
        let vals = spec_decode_values(last.1);
        assert forall|i: int, j: int| 0 <= i < j < p.len() implies lex_lt(
            #[trigger] p[i].0,
            #[trigger] p[j].0,
        ) by {
            assert(p[i] == kvs[i] && p[j] == kvs[j]);
        }
        lemma_reading_object(o, p, key);
        lemma_reading_concat(object_samples(o, p), key_samples(o, last.0, vals), key);
        lemma_reading_key(o, last.0, vals, vals.len() as int, key);
        assert(key_samples(o, last.0, vals).take(vals.len() as int) =~= key_samples(o, last.0, vals));
        assert(assoc_map(kvs) == assoc_map(p).insert(last.0, last.1));
        if last.0 == key {
            lemma_assoc_map_dom(p, key);
            assert forall|i: int| 0 <= i < p.len() implies p[i].0 != key by {
                assert(lex_lt(kvs[i].0, kvs[kvs.len() - 1].0));
                lemma_lex_irreflexive(key);
            }
        }
    }
}

proof fn lemma_reading_all(es: Seq<AnswerEntry>, key: Seq<char>)
    requires
        names_sorted(es),
        forall|i: int| 0 <= i < es.len() ==> names_sorted(#[trigger] es[i].1),
    ensures
        energy_reading(all_samples(es), key) == if assoc_map(es).contains_key("ENERGY"@)
            && assoc_map(assoc_map(es)["ENERGY"@]).contains_key(key) && spec_decode_values(
            assoc_map(assoc_map(es)["ENERGY"@])[key],
        ).len() > 0 {
            Some(spec_decode_values(assoc_map(assoc_map(es)["ENERGY"@])[key])[0])
        } else {
            None
        },
    decreases es.len(),
{
    if es.len() > 0 {
        let p = es.drop_last();
        let last = es.last();
        assert forall|i: int, j: int| 0 <= i < j < p.len() implies lex_lt(
            #[trigger] p[i].0,
            #[trigger] p[j].0,
        ) by {
            assert(p[i] == es[i] && p[j] == es[j]);
        }
        assert forall|i: int| 0 <= i < p.len() implies names_sorted(#[trigger] p[i].1) by {
            assert(p[i] == es[i]);
        }
        assert(names_sorted(es[es.len() - 1].1));
        lemma_reading_all(p, key);
        lemma_reading_object(last.0, last.1, key);
        lemma_reading_concat(all_samples(p), object_samples(last.0, last.1), key);
        assert(assoc_map(es) == assoc_map(p).insert(last.0, last.1));
        if last.0 == "ENERGY"@ {
            lemma_assoc_map_dom(p, "ENERGY"@);
            assert forall|i: int| 0 <= i < p.len() implies p[i].0 != "ENERGY"@ by {
                assert(lex_lt(es[i].0, es[es.len() - 1].0));
                lemma_lex_irreflexive("ENERGY"@);
            }
        }
    }
}

/// The power readings of a poll cycle are the device's answers for `ENERGY.key`: when the
/// answers hold that key and its value holds at least one number, the reading is its first
/// number, whatever kind of number it is (`fl_`, `u*_` or `i*_`); otherwise there is none.
pub proof fn lemma_power_reading(answers: DeviceAnswers, key: Seq<char>)
    requires
        answers.well_formed(),
    ensures
        energy_reading(all_samples(answers@), key) == {
            let m = answers_map(answers@);
            if m.contains_key("ENERGY"@) && m["ENERGY"@].contains_key(key) && spec_decode_values(
                m["ENERGY"@][key],
            ).len() > 0 {
                Some(spec_decode_values(m["ENERGY"@][key])[0])
            } else {
                None
            }
        },
{
    let es = answers@;
    lemma_reading_all(es, key);
    let m = answers_map(es);
    if assoc_map(es).contains_key("ENERGY"@) {
        assert(m.contains_key("ENERGY"@));
        assert(m["ENERGY"@] == assoc_map(assoc_map(es)["ENERGY"@]));
    } else {
        assert(!m.contains_key("ENERGY"@));
    }
}

/// The decimal digit `d`.
pub open spec fn digit_char(d: int) -> char {
    if d == 0 {
        '0'
    } else if d == 1 {
        '1'
    } else if d == 2 {
        '2'
    } else if d == 3 {
        '3'
    } else if d == 4 {
        '4'
    } else if d == 5 {
        '5'
    } else if d == 6 {
        '6'
    } else if d == 7 {
        '7'
    } else if d == 8 {
        '8'
    } else {
        '9'
    }
}

/// `n` written in decimal, without leading zeros.
pub open spec fn decimal(n: nat) -> Seq<char>
    decreases n,
{
    if n < 10 {
        seq![digit_char(n as int)]
    } else {
        decimal(n / 10).push(digit_char((n % 10) as int))
    }
}

/// The `index` label of a sample: its position written in decimal.
pub fn index_label(index: usize) -> (r: String)
    ensures
        r@ == decimal(index as nat),
    decreases index,
{
    let digits: [char; 10] = ['0', '1', '2', '3', '4', '5', '6', '7', '8', '9'];
    if index < 10 {
        let mut r = String::new();
        crate::text::push_char(&mut r, digits[index]);
        assert(r@ =~= seq![digit_char(index as int)]);
        r
    } else {
        let mut r = index_label(index / 10);
        crate::text::push_char(&mut r, digits[index % 10]);
        r
    }
}

/// The number decimal digits write, most significant first.
pub open spec fn digits_value(s: Seq<char>) -> int
    decreases s.len(),
{
    if s.len() == 0 {
        0
    } else {
        digits_value(s.drop_last()) * 10 + (s.last() as int - '0' as int)
    }
}

/// An index label is the index in plain decimal: only the digits `0`-`9`, reading back as the
/// index, with no leading zero.
pub proof fn lemma_decimal(n: nat)
    ensures
        decimal(n).len() > 0,
        forall|i: int| 0 <= i < decimal(n).len() ==> '0' <= #[trigger] decimal(n)[i] <= '9',
        digits_value(decimal(n)) == n,
        n > 0 ==> decimal(n)[0] != '0',
    decreases n,
{
    if n < 10 {
        assert(digit_char(n as int) as int - '0' as int == n);
        assert(seq![digit_char(n as int)].drop_last() =~= Seq::<char>::empty());
        assert(digits_value(Seq::<char>::empty()) == 0);
        assert(digits_value(decimal(n)) == digits_value(Seq::<char>::empty()) * 10 + (digit_char(
            n as int,
        ) as int - '0' as int));
    } else {
        let q = n / 10;
        let d = n % 10;
        lemma_decimal(q as nat);
        assert(digit_char(d as int) as int - '0' as int == d);
        let s = decimal(n);
        assert(s == decimal(q as nat).push(digit_char(d as int)));
        assert(s.drop_last() =~= decimal(q as nat));
        assert(digits_value(s) == digits_value(decimal(q as nat)) * 10 + d);
        assert(q * 10 + d == n) by (nonlinear_arith)
            requires
                q == n / 10,
                d == n % 10,
        ;
        assert(q > 0);
        assert(s[0] == decimal(q as nat)[0]);
        assert forall|i: int| 0 <= i < s.len() implies '0' <= #[trigger] s[i] <= '9' by {
            if i < s.len() - 1 {
                assert(s[i] == decimal(q as nat)[i]);
            }
        }
    }
}

proof fn lemma_concat_contains<A>(a: Seq<A>, b: Seq<A>, x: A)
    ensures
        (a + b).contains(x) <==> a.contains(x) || b.contains(x),
{
    if (a + b).contains(x) {
        let i = choose|i: int| 0 <= i < (a + b).len() && (a + b)[i] == x;
        if i >= a.len() {
            assert(b[i - a.len()] == x);
        }
    }
    if a.contains(x) {
        let i = choose|i: int| 0 <= i < a.len() && a[i] == x;
        assert((a + b)[i] == x);
    }
    if b.contains(x) {
        let i = choose|i: int| 0 <= i < b.len() && b[i] == x;
        assert((a + b)[a.len() + i] == x);
    }
}

proof fn lemma_key_samples_contains(o: Seq<char>, k: Seq<char>, vals: Seq<RawNumber>, x: SampleView)
    ensures
        key_samples(o, k, vals).contains(x) <==> (x.0 == o && x.1 == k && 0 <= x.2 < vals.len()
            && vals[x.2] == x.3),
{
    if x.0 == o && x.1 == k && 0 <= x.2 < vals.len() && vals[x.2] == x.3 {
        assert(key_samples(o, k, vals)[x.2] == x);
    }
}

proof fn lemma_object_samples_contains(o: Seq<char>, kvs: Seq<KeyValue>, x: SampleView)
    requires
        names_sorted(kvs),
    ensures
        object_samples(o, kvs).contains(x) <==> (x.0 == o && assoc_map(kvs).contains_key(x.1) && 0
            <= x.2 < spec_decode_values(assoc_map(kvs)[x.1]).len() && spec_decode_values(
            assoc_map(kvs)[x.1],
        )[x.2] == x.3),
    decreases kvs.len(),
{
    if kvs.len() == 0 {
        assert(!object_samples(o, kvs).contains(x));
    } else {
        let p = kvs.drop_last();
        let last = kvs.last();
        assert forall|i: int, j: int| 0 <= i < j < p.len() implies lex_lt(
            #[trigger] p[i].0,
            #[trigger] p[j].0,
        ) by {
            assert(p[i] == kvs[i] && p[j] == kvs[j]);
        }
        lemma_object_samples_contains(o, p, x);
        lemma_key_samples_contains(o, last.0, spec_decode_values(last.1), x);
        lemma_concat_contains(object_samples(o, p), key_samples(o, last.0, spec_decode_values(last.1)), x);
        assert(assoc_map(kvs) == assoc_map(p).insert(last.0, last.1));
        if x.1 == last.0 {
            lemma_assoc_map_dom(p, last.0);
            assert forall|i: int| 0 <= i < p.len() implies p[i].0 != last.0 by {
                assert(lex_lt(kvs[i].0, kvs[kvs.len() - 1].0));
                lemma_lex_irreflexive(last.0);
            }
        }
    }
}

proof fn lemma_all_samples_contains(es: Seq<AnswerEntry>, x: SampleView)
    requires
        names_sorted(es),
        forall|i: int| 0 <= i < es.len() ==> names_sorted(#[trigger] es[i].1),
    ensures
        all_samples(es).contains(x) <==> (assoc_map(es).contains_key(x.0) && assoc_map(
            assoc_map(es)[x.0],
        ).contains_key(x.1) && 0 <= x.2 < spec_decode_values(
            assoc_map(assoc_map(es)[x.0])[x.1],
        ).len() && spec_decode_values(assoc_map(assoc_map(es)[x.0])[x.1])[x.2] == x.3),
    decreases es.len(),
{
    if es.len() == 0 {
        assert(!all_samples(es).contains(x));
    } else {
        let p = es.drop_last();
        let last = es.last();
        assert forall|i: int, j: int| 0 <= i < j < p.len() implies lex_lt(
            #[trigger] p[i].0,
            #[trigger] p[j].0,
        ) by {
            assert(p[i] == es[i] && p[j] == es[j]);
        }
        assert forall|i: int| 0 <= i < p.len() implies names_sorted(#[trigger] p[i].1) by {
            assert(p[i] == es[i]);
        }
        assert(names_sorted(es[es.len() - 1].1));
        lemma_all_samples_contains(p, x);
        lemma_object_samples_contains(last.0, last.1, x);
        lemma_concat_contains(all_samples(p), object_samples(last.0, last.1), x);
        assert(assoc_map(es) == assoc_map(p).insert(last.0, last.1));
        if x.0 == last.0 {
            lemma_assoc_map_dom(p, last.0);
            assert forall|i: int| 0 <= i < p.len() implies p[i].0 != last.0 by {
                assert(lex_lt(es[i].0, es[es.len() - 1].0));
                lemma_lex_irreflexive(last.0);
            }
        }
    }
}

/// A poll cycle publishes exactly one sample per decoded number: `(o, k, n, v)` is a sample
/// exactly when the answers hold key `k` under object `o` and `v` is the number at position `n`
/// of its value, counting from zero.
pub proof fn lemma_samples(answers: DeviceAnswers, x: SampleView)
    requires
        answers.well_formed(),
    ensures
        all_samples(answers@).contains(x) <==> ({
            let m = answers_map(answers@);
            &&& m.contains_key(x.0)
            &&& m[x.0].contains_key(x.1)
            &&& 0 <= x.2 < spec_decode_values(m[x.0][x.1]).len()
            &&& spec_decode_values(m[x.0][x.1])[x.2] == x.3
        }),
{
    let es = answers@;
    lemma_all_samples_contains(es, x);
    let m = answers_map(es);
    if assoc_map(es).contains_key(x.0) {
        assert(m.contains_key(x.0));
        assert(m[x.0] == assoc_map(assoc_map(es)[x.0]));
    } else {
        assert(!m.contains_key(x.0));
    }
}

} // verus!
