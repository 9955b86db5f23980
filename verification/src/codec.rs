//! The persisted file format and its round trip.
//!
//! A collection is written as one structured text document: an array of
//! day objects, each holding its date and an array of exercise objects
//! (`[{"date":"...","exercises":[{"type":"...","sets":1,"reps":2}]}]`).
//! Labels and dates are byte strings with `\"` and `\\` escapes. This
//! module defines the grammar twice — an encoder and a parser, both as
//! spec functions — and proves that parsing an encoded collection gives
//! the collection back.

use vstd::prelude::*;

use crate::input::all_digits;
use crate::input::is_digit;
use crate::model::DayEntryV;
use crate::model::ExerciseV;

verus! {

// --- string escaping ---

/// How one byte is written inside a quoted string.
pub open spec fn esc_byte(b: u8) -> Seq<u8> {
    if b == 34 || b == 92 {
        seq![92u8, b]
    } else {
        seq![b]
    }
}

/// A byte string with quotes and backslashes escaped.
pub open spec fn esc(s: Seq<u8>) -> Seq<u8>
    decreases s.len(),
{
    if s.len() == 0 {
        Seq::empty()
    } else {
        esc_byte(s[0]) + esc(s.skip(1))
    }
}

/// Escaping distributes over concatenation.
pub proof fn lemma_esc_concat(a: Seq<u8>, b: Seq<u8>)
    ensures
        esc(a + b) == esc(a) + esc(b),
    decreases a.len(),
{
    if a.len() == 0 {
        assert(a + b =~= b);
        assert(esc(a) + esc(b) =~= esc(b));
    } else {
        lemma_esc_concat(a.skip(1), b);
        assert((a + b).skip(1) =~= a.skip(1) + b);
        assert((a + b)[0] == a[0]);
        assert(esc_byte(a[0]) + (esc(a.skip(1)) + esc(b)) =~= (esc_byte(a[0]) + esc(a.skip(1)))
            + esc(b));
    }
}

/// One more byte extends the escaped prefix.
pub proof fn lemma_esc_take_succ(s: Seq<u8>, i: int)
    requires
        0 <= i < s.len(),
    ensures
        esc(s.take(i + 1)) == esc(s.take(i)) + esc_byte(s[i]),
{
    assert(s.take(i + 1) =~= s.take(i) + seq![s[i]]);
    lemma_esc_concat(s.take(i), seq![s[i]]);
    assert(seq![s[i]].skip(1) =~= Seq::<u8>::empty());
    assert(esc(seq![s[i]]) == esc_byte(seq![s[i]][0]) + esc(Seq::<u8>::empty()));
    assert(seq![s[i]][0] == s[i]);
    assert(esc(Seq::<u8>::empty()) =~= Seq::<u8>::empty());
    assert(esc_byte(s[i]) + Seq::<u8>::empty() =~= esc_byte(s[i]));
}

// --- decimal numbers ---

/// A nonnegative number written in decimal, most significant digit
/// first.
pub open spec fn enc_u32(n: int) -> Seq<u8>
    decreases n,
{
    if n < 10 {
        seq![(48 + n) as u8]
    } else {
        enc_u32(n / 10) + seq![(48 + (n % 10)) as u8]
    }
}

/// The value of a digit run read after the digits of `acc`.
pub open spec fn val_with(acc: int, s: Seq<u8>) -> int
    decreases s.len(),
{
    if s.len() == 0 {
        acc
    } else {
        val_with(acc * 10 + (s[0] - 48), s.skip(1))
    }
}

/// Reading one more digit multiplies the value by ten and adds it.
pub proof fn lemma_val_with_snoc(acc: int, a: Seq<u8>, d: u8)
    ensures
        val_with(acc, a.push(d)) == val_with(acc, a) * 10 + (d - 48),
    decreases a.len(),
{
    if a.len() == 0 {
        assert(a.push(d)[0] == d);
        assert(a.push(d).skip(1) =~= Seq::<u8>::empty());
        assert(val_with(acc, a.push(d)) == val_with(acc * 10 + (d - 48), Seq::<u8>::empty()));
        assert(val_with(acc * 10 + (d - 48), Seq::<u8>::empty()) == acc * 10 + (d - 48));
        assert(val_with(acc, a) == acc);
    } else {
        lemma_val_with_snoc(acc * 10 + (a[0] - 48), a.skip(1), d);
        assert(a.push(d).skip(1) =~= a.skip(1).push(d));
        assert(a.push(d)[0] == a[0]);
        assert(val_with(acc, a.push(d)) == val_with(
            acc * 10 + (a[0] - 48),
            a.skip(1).push(d),
        ));
        assert(val_with(acc, a) == val_with(acc * 10 + (a[0] - 48), a.skip(1)));
    }
}

/// The decimal writing of `n` reads back as `n`, is at least one byte,
/// and is all digits.
pub proof fn lemma_enc_u32_val(n: int)
    requires
        n >= 0,
    ensures
        val_with(0, enc_u32(n)) == n,
        enc_u32(n).len() >= 1,
        all_digits(enc_u32(n)),
    decreases n,
{
    if n < 10 {
        assert((48 + n) as u8 == 48 + n);
        assert(enc_u32(n).skip(1) =~= Seq::<u8>::empty());
        assert(val_with(0, enc_u32(n)) == val_with(
            0 * 10 + (enc_u32(n)[0] - 48),
            Seq::<u8>::empty(),
        ));
        assert(is_digit(enc_u32(n)[0]));
    } else {
        lemma_enc_u32_val(n / 10);
        assert((48 + (n % 10)) as u8 == 48 + (n % 10));
        assert(enc_u32(n) =~= enc_u32(n / 10).push((48 + (n % 10)) as u8));
        lemma_val_with_snoc(0, enc_u32(n / 10), (48 + (n % 10)) as u8);
        assert forall|i: int| 0 <= i < enc_u32(n).len() implies is_digit(enc_u32(n)[i]) by {
            if i < enc_u32(n / 10).len() {
                assert(enc_u32(n)[i] == enc_u32(n / 10)[i]);
            }
        }
    }
}

/// Greedily read a run of digits, accumulating onto `acc`; returns the
/// value and what follows the run.
pub open spec fn sp_digits(s: Seq<u8>, acc: int) -> (int, Seq<u8>)
    decreases s.len(),
{
    if s.len() == 0 || !is_digit(s[0]) {
        (acc, s)
    } else {
        sp_digits(s.skip(1), acc * 10 + (s[0] - 48))
    }
}

/// Parse a decimal `u32`: at least one digit, value within range.
pub open spec fn sp_u32(s: Seq<u8>) -> Option<(u32, Seq<u8>)> {
    if s.len() == 0 || !is_digit(s[0]) {
        None
    } else {
        let vr = sp_digits(s, 0);
        if vr.0 <= u32::MAX {
            Some((vr.0 as u32, vr.1))
        } else {
            None
        }
    }
}

/// Reading a digit run before a non-digit yields its value and stops
/// exactly at the non-digit.
pub proof fn lemma_sp_digits(digits: Seq<u8>, rest: Seq<u8>, acc: int)
    requires
        all_digits(digits),
        rest.len() == 0 || !is_digit(rest[0]),
    ensures
        sp_digits(digits + rest, acc) == (val_with(acc, digits), rest),
    decreases digits.len(),
{
    if digits.len() == 0 {
        assert(digits + rest =~= rest);
    } else {
        let s = digits + rest;
        assert(s[0] == digits[0]);
        assert(s.skip(1) =~= digits.skip(1) + rest);
        lemma_sp_digits(digits.skip(1), rest, acc * 10 + (digits[0] - 48));
    }
}

/// Round trip for numbers: the writing of `n` followed by a non-digit
/// parses back as `n`.
pub proof fn lemma_sp_u32_rt(n: int, rest: Seq<u8>)
    requires
        0 <= n <= u32::MAX,
        rest.len() == 0 || !is_digit(rest[0]),
    ensures
        sp_u32(enc_u32(n) + rest) == Some((n as u32, rest)),
{
    lemma_enc_u32_val(n);
    lemma_sp_digits(enc_u32(n), rest, 0);
    assert((enc_u32(n) + rest)[0] == enc_u32(n)[0]);
}

// --- quoted strings ---

/// Parse the body of a quoted string (the opening quote already
/// consumed): bytes up to an unescaped closing quote, honouring the two
/// escapes.
pub open spec fn sp_str_body(s: Seq<u8>) -> Option<(Seq<u8>, Seq<u8>)>
    decreases s.len(),
{
    if s.len() == 0 {
        None
    } else if s[0] == 34 {
        Some((Seq::empty(), s.skip(1)))
    } else if s[0] == 92 {
        if s.len() >= 2 && (s[1] == 34 || s[1] == 92) {
            match sp_str_body(s.skip(2)) {
                None => None,
                Some((v, r)) => Some((seq![s[1]] + v, r)),
            }
        } else {
            None
        }
    } else {
        match sp_str_body(s.skip(1)) {
            None => None,
            Some((v, r)) => Some((seq![s[0]] + v, r)),
        }
    }
}

/// Round trip for strings: an escaped body followed by the closing
/// quote parses back as the body.
pub proof fn lemma_sp_str_rt(v: Seq<u8>, rest: Seq<u8>)
    ensures
        sp_str_body(esc(v) + seq![34u8] + rest) == Some((v, rest)),
    decreases v.len(),
{
    let s = esc(v) + seq![34u8] + rest;
    if v.len() == 0 {
        assert(s =~= seq![34u8] + rest);
        assert(s[0] == 34);
        assert(s.skip(1) =~= rest);
    } else {
        lemma_sp_str_rt(v.skip(1), rest);
        let tail = esc(v.skip(1)) + seq![34u8] + rest;
        if v[0] == 34 || v[0] == 92 {
            assert(s =~= seq![92u8, v[0]] + tail);
            assert(s[0] == 92 && s[1] == v[0]);
            assert(s.skip(2) =~= tail);
            assert(seq![v[0]] + v.skip(1) =~= v);
        } else {
            assert(s =~= seq![v[0]] + tail);
            assert(s[0] == v[0]);
            assert(s.skip(1) =~= tail);
            assert(seq![v[0]] + v.skip(1) =~= v);
        }
    }
}

// --- fixed literals ---

/// Parse an exact literal prefix.
pub open spec fn sp_lit(s: Seq<u8>, lit: Seq<u8>) -> Option<Seq<u8>> {
    if s.len() >= lit.len() && s.take(lit.len() as int) == lit {
        Some(s.skip(lit.len() as int))
    } else {
        None
    }
}

/// Round trip for literals.
pub proof fn lemma_sp_lit_rt(lit: Seq<u8>, rest: Seq<u8>)
    ensures
        sp_lit(lit + rest, lit) == Some(rest),
{
    assert((lit + rest).take(lit.len() as int) =~= lit);
    assert((lit + rest).skip(lit.len() as int) =~= rest);
}

/// Parse one exact byte.
pub open spec fn sp_byte(s: Seq<u8>, b: u8) -> Option<Seq<u8>> {
    if s.len() > 0 && s[0] == b {
        Some(s.skip(1))
    } else {
        None
    }
}

/// `{"type":"` — the head of an exercise object.
pub open spec fn lit_ex_head() -> Seq<u8> {
    seq![123u8, 34u8, 116u8, 121u8, 112u8, 101u8, 34u8, 58u8, 34u8]
}

/// `,"sets":` — between the label and the sets value.
pub open spec fn lit_ex_sets() -> Seq<u8> {
    seq![44u8, 34u8, 115u8, 101u8, 116u8, 115u8, 34u8, 58u8]
}

/// `,"reps":` — between the sets and the reps value.
pub open spec fn lit_ex_reps() -> Seq<u8> {
    seq![44u8, 34u8, 114u8, 101u8, 112u8, 115u8, 34u8, 58u8]
}

/// `{"date":"` — the head of a day object.
pub open spec fn lit_day_head() -> Seq<u8> {
    seq![123u8, 34u8, 100u8, 97u8, 116u8, 101u8, 34u8, 58u8, 34u8]
}

/// `,"exercises":[` — between the date and the exercise array.
pub open spec fn lit_day_exs() -> Seq<u8> {
    seq![44u8, 34u8, 101u8, 120u8, 101u8, 114u8, 99u8, 105u8, 115u8, 101u8, 115u8, 34u8, 58u8, 91u8]
}

// --- objects and arrays ---

/// The writing of one exercise object.
pub open spec fn enc_exercise(e: ExerciseV) -> Seq<u8> {
    lit_ex_head() + esc(e.label) + seq![34u8] + lit_ex_sets() + enc_u32(e.sets as int)
        + lit_ex_reps() + enc_u32(e.reps as int) + seq![125u8]
}

/// The writing of a non-empty exercise array's items, comma separated.
pub open spec fn enc_exs(es: Seq<ExerciseV>) -> Seq<u8>
    decreases es.len(),
{
    if es.len() == 0 {
        Seq::empty()
    } else if es.len() == 1 {
        enc_exercise(es[0])
    } else {
        enc_exercise(es[0]) + seq![44u8] + enc_exs(es.skip(1))
    }
}

/// The writing of one day object.
pub open spec fn enc_day(d: DayEntryV) -> Seq<u8> {
    lit_day_head() + esc(d.date) + seq![34u8] + lit_day_exs() + enc_exs(d.exercises) + seq![
        93u8,
        125u8,
    ]
}

/// The writing of a non-empty day array's items, comma separated.
pub open spec fn enc_days(c: Seq<DayEntryV>) -> Seq<u8>
    decreases c.len(),
{
    if c.len() == 0 {
        Seq::empty()
    } else if c.len() == 1 {
        enc_day(c[0])
    } else {
        enc_day(c[0]) + seq![44u8] + enc_days(c.skip(1))
    }
}

/// The writing of a whole collection.
pub open spec fn enc_collection(c: Seq<DayEntryV>) -> Seq<u8> {
    if c.len() == 0 {
        seq![91u8, 93u8]
    } else {
        seq![91u8] + enc_days(c) + seq![93u8]
    }
}

/// Parse one exercise object.
pub open spec fn sp_exercise(s: Seq<u8>) -> Option<(ExerciseV, Seq<u8>)> {
    match sp_lit(s, lit_ex_head()) {
        None => None,
        Some(s1) => match sp_str_body(s1) {
            None => None,
            Some((label, s2)) => match sp_lit(s2, lit_ex_sets()) {
                None => None,
                Some(s3) => match sp_u32(s3) {
                    None => None,
                    Some((sets, s4)) => match sp_lit(s4, lit_ex_reps()) {
                        None => None,
                        Some(s5) => match sp_u32(s5) {
                            None => None,
                            Some((reps, s6)) => match sp_byte(s6, 125) {
                                None => None,
                                Some(s7) => Some((ExerciseV { label, sets, reps }, s7)),
                            },
                        },
                    },
                },
            },
        },
    }
}

/// Parse the items of a non-empty exercise array, consuming the closing
/// bracket.
pub open spec fn sp_ex_list(s: Seq<u8>) -> Option<(Seq<ExerciseV>, Seq<u8>)>
    decreases s.len(),
{
    match sp_exercise(s) {
        None => None,
        Some((e, r)) => if r.len() > 0 && r[0] == 44 && r.len() <= s.len() {
            match sp_ex_list(r.skip(1)) {
                None => None,
                Some((es, r2)) => Some((seq![e] + es, r2)),
            }
        } else if r.len() > 0 && r[0] == 93 {
            Some((seq![e], r.skip(1)))
        } else {
            None
        },
    }
}

/// Parse one day object.
pub open spec fn sp_day(s: Seq<u8>) -> Option<(DayEntryV, Seq<u8>)> {
    match sp_lit(s, lit_day_head()) {
        None => None,
        Some(s1) => match sp_str_body(s1) {
            None => None,
            Some((date, s2)) => match sp_lit(s2, lit_day_exs()) {
                None => None,
                Some(s3) => match sp_ex_list(s3) {
                    None => None,
                    Some((es, s4)) => match sp_byte(s4, 125) {
                        None => None,
                        Some(s5) => Some((DayEntryV { date, exercises: es }, s5)),
                    },
                },
            },
        },
    }
}

/// Parse the items of a non-empty day array, consuming the closing
/// bracket.
pub open spec fn sp_day_list(s: Seq<u8>) -> Option<(Seq<DayEntryV>, Seq<u8>)>
    decreases s.len(),
{
    match sp_day(s) {
        None => None,
        Some((d, r)) => if r.len() > 0 && r[0] == 44 && r.len() <= s.len() {
            match sp_day_list(r.skip(1)) {
                None => None,
                Some((ds, r2)) => Some((seq![d] + ds, r2)),
            }
        } else if r.len() > 0 && r[0] == 93 {
            Some((seq![d], r.skip(1)))
        } else {
            None
        },
    }
}

/// Parse a whole document: a bracketed day array with nothing after it.
pub open spec fn sp_collection(s: Seq<u8>) -> Option<Seq<DayEntryV>> {
    if s.len() >= 2 && s[0] == 91 && s[1] == 93 {
        if s.len() == 2 {
            Some(Seq::empty())
        } else {
            None
        }
    } else if s.len() >= 1 && s[0] == 91 {
        match sp_day_list(s.skip(1)) {
            None => None,
            Some((ds, r)) => if r.len() == 0 {
                Some(ds)
            } else {
                None
            },
        }
    } else {
        None
    }
}

/// The accumulator only grows as a digit run is read.
pub proof fn lemma_sp_digits_ge(s: Seq<u8>, acc: int)
    requires
        acc >= 0,
    ensures
        sp_digits(s, acc).0 >= acc,
    decreases s.len(),
{
    if s.len() > 0 && is_digit(s[0]) {
        lemma_sp_digits_ge(s.skip(1), acc * 10 + (s[0] - 48));
    }
}

/// One more item extends the written item list by a comma and the
/// item's writing.
pub proof fn lemma_enc_exs_take_succ(es: Seq<ExerciseV>, i: int)
    requires
        0 <= i < es.len(),
    ensures
        enc_exs(es.take(i + 1)) == if i == 0 {
            enc_exercise(es[0])
        } else {
            enc_exs(es.take(i)) + seq![44u8] + enc_exercise(es[i])
        },
    decreases i,
{
    let t = es.take(i + 1);
    if i == 0 {
        assert(t.len() == 1 && t[0] == es[0]);
    } else {
        assert(t[0] == es[0]);
        assert(t.skip(1) =~= es.skip(1).take(i));
        lemma_enc_exs_take_succ(es.skip(1), i - 1);
        assert(es.skip(1)[i - 1] == es[i]);
        if i == 1 {
            assert(es.take(1).len() == 1 && es.take(1)[0] == es[0]);
            assert(enc_exercise(es[0]) + (seq![44u8] + enc_exercise(es[1])) =~= enc_exercise(
                es[0],
            ) + seq![44u8] + enc_exercise(es[1]));
        } else {
            assert(es.take(i)[0] == es[0]);
            assert(es.take(i).skip(1) =~= es.skip(1).take(i - 1));
            assert(enc_exercise(es[0]) + seq![44u8] + (enc_exs(es.skip(1).take(i - 1))
                + seq![44u8] + enc_exercise(es[i])) =~= (enc_exercise(es[0]) + seq![44u8]
                + enc_exs(es.skip(1).take(i - 1))) + seq![44u8] + enc_exercise(es[i]));
        }
    }
}

/// One more day extends the written day list by a comma and the day's
/// writing.
pub proof fn lemma_enc_days_take_succ(c: Seq<DayEntryV>, i: int)
    requires
        0 <= i < c.len(),
    ensures
        enc_days(c.take(i + 1)) == if i == 0 {
            enc_day(c[0])
        } else {
            enc_days(c.take(i)) + seq![44u8] + enc_day(c[i])
        },
    decreases i,
{
    let t = c.take(i + 1);
    if i == 0 {
        assert(t.len() == 1 && t[0] == c[0]);
    } else {
        assert(t[0] == c[0]);
        assert(t.skip(1) =~= c.skip(1).take(i));
        lemma_enc_days_take_succ(c.skip(1), i - 1);
        assert(c.skip(1)[i - 1] == c[i]);
        if i == 1 {
            assert(c.take(1).len() == 1 && c.take(1)[0] == c[0]);
            assert(enc_day(c[0]) + (seq![44u8] + enc_day(c[1])) =~= enc_day(c[0]) + seq![44u8]
                + enc_day(c[1]));
        } else {
            assert(c.take(i)[0] == c[0]);
            assert(c.take(i).skip(1) =~= c.skip(1).take(i - 1));
            assert(enc_day(c[0]) + seq![44u8] + (enc_days(c.skip(1).take(i - 1)) + seq![44u8]
                + enc_day(c[i])) =~= (enc_day(c[0]) + seq![44u8] + enc_days(
                c.skip(1).take(i - 1),
            )) + seq![44u8] + enc_day(c[i]));
        }
    }
}

/// Round trip for one exercise object.
pub proof fn lemma_sp_exercise_rt(e: ExerciseV, rest: Seq<u8>)
    ensures
        sp_exercise(enc_exercise(e) + rest) == Some((e, rest)),
{
    let s = enc_exercise(e) + rest;
    let t6 = seq![125u8] + rest;
    let t5 = enc_u32(e.reps as int) + t6;
    let t4 = lit_ex_reps() + t5;
    let t3 = enc_u32(e.sets as int) + t4;
    let t2 = lit_ex_sets() + t3;
    let t1 = esc(e.label) + seq![34u8] + t2;
    assert(s =~= lit_ex_head() + t1);
    lemma_sp_lit_rt(lit_ex_head(), t1);
    lemma_sp_str_rt(e.label, t2);
    lemma_sp_lit_rt(lit_ex_sets(), t3);
    assert(t4[0] == 44 && !is_digit(44));
    lemma_sp_u32_rt(e.sets as int, t4);
    lemma_sp_lit_rt(lit_ex_reps(), t5);
    assert(t6[0] == 125 && !is_digit(125));
    lemma_sp_u32_rt(e.reps as int, t6);
    assert(t6.skip(1) =~= rest);
    assert(ExerciseV { label: e.label, sets: e.sets, reps: e.reps } == e);
}

/// Round trip for a non-empty exercise array: its items, the closing
/// bracket, then anything.
pub proof fn lemma_sp_ex_list_rt(es: Seq<ExerciseV>, rest: Seq<u8>)
    requires
        es.len() >= 1,
    ensures
        sp_ex_list(enc_exs(es) + seq![93u8] + rest) == Some((es, rest)),
    decreases es.len(),
{
    let s = enc_exs(es) + seq![93u8] + rest;
    if es.len() == 1 {
        let r = seq![93u8] + rest;
        assert(s =~= enc_exercise(es[0]) + r);
        lemma_sp_exercise_rt(es[0], r);
        assert(r[0] == 93);
        assert(r.skip(1) =~= rest);
        assert(seq![es[0]] =~= es);
    } else {
        let tail = enc_exs(es.skip(1)) + seq![93u8] + rest;
        let r = seq![44u8] + tail;
        assert(s =~= enc_exercise(es[0]) + r);
        lemma_sp_exercise_rt(es[0], r);
        assert(r[0] == 44);
        assert(r.len() <= s.len());
        assert(r.skip(1) =~= tail);
        lemma_sp_ex_list_rt(es.skip(1), rest);
        assert(seq![es[0]] + es.skip(1) =~= es);
    }
}

/// Round trip for one day object (its exercise list being non-empty).
pub proof fn lemma_sp_day_rt(d: DayEntryV, rest: Seq<u8>)
    requires
        d.exercises.len() >= 1,
    ensures
        sp_day(enc_day(d) + rest) == Some((d, rest)),
{
    let s = enc_day(d) + rest;
    let t4 = seq![125u8] + rest;
    let t3 = enc_exs(d.exercises) + seq![93u8] + t4;
    let t2 = lit_day_exs() + t3;
    let t1 = esc(d.date) + seq![34u8] + t2;
    assert(s =~= lit_day_head() + t1);
    lemma_sp_lit_rt(lit_day_head(), t1);
    lemma_sp_str_rt(d.date, t2);
    lemma_sp_lit_rt(lit_day_exs(), t3);
    lemma_sp_ex_list_rt(d.exercises, t4);
    assert(t4[0] == 125);
    assert(t4.skip(1) =~= rest);
    assert(DayEntryV { date: d.date, exercises: d.exercises } == d);
}

/// Round trip for a non-empty day array.
pub proof fn lemma_sp_day_list_rt(c: Seq<DayEntryV>, rest: Seq<u8>)
    requires
        c.len() >= 1,
        forall|i: int| 0 <= i < c.len() ==> c[i].exercises.len() >= 1,
    ensures
        sp_day_list(enc_days(c) + seq![93u8] + rest) == Some((c, rest)),
    decreases c.len(),
{
    let s = enc_days(c) + seq![93u8] + rest;
    if c.len() == 1 {
        let r = seq![93u8] + rest;
        assert(s =~= enc_day(c[0]) + r);
        lemma_sp_day_rt(c[0], r);
        assert(r[0] == 93);
        assert(r.skip(1) =~= rest);
        assert(seq![c[0]] =~= c);
    } else {
        let tail = enc_days(c.skip(1)) + seq![93u8] + rest;
        let r = seq![44u8] + tail;
        assert(s =~= enc_day(c[0]) + r);
        lemma_sp_day_rt(c[0], r);
        assert(r[0] == 44);
        assert(r.len() <= s.len());
        assert(r.skip(1) =~= tail);
        lemma_sp_day_list_rt(c.skip(1), rest);
        assert(seq![c[0]] + c.skip(1) =~= c);
    }
}

/// The round trip of the file format: parsing the writing of any
/// collection whose day entries are non-empty yields that collection
/// back, exactly.
pub proof fn lemma_round_trip(c: Seq<DayEntryV>)
    requires
        forall|i: int| 0 <= i < c.len() ==> c[i].exercises.len() >= 1,
    ensures
        sp_collection(enc_collection(c)) == Some(c),
{
    let s = enc_collection(c);
    if c.len() == 0 {
        assert(s =~= seq![91u8, 93u8]);
    } else {
        lemma_sp_day_list_rt(c, Seq::empty());
        let body = enc_days(c) + seq![93u8] + Seq::<u8>::empty();
        assert(s.skip(1) =~= body);
        assert(enc_day(c[0])[0] == 123) by {
            assert(enc_day(c[0])[0] == lit_day_head()[0]);
        }
        assert(enc_days(c)[0] == enc_day(c[0])[0]);
        assert(s[1] == enc_days(c)[0]);
        assert(s[0] == 91 && s[1] == 123);
    }
}

} // verus!
