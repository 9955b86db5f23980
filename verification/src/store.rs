//! The store boundary: writing a collection as the persisted document
//! and reading one back, with the round trip proved. The caller owns
//! the file itself; this module works on the document's bytes.
//!
//! The policy for stored content that does not parse is to surface a
//! `DataFormatError`, never to fall back silently to an empty
//! collection; only an absent file stands for the empty collection.

use vstd::prelude::*;

use crate::codec::enc_collection;
use crate::codec::enc_day;
use crate::codec::enc_days;
use crate::codec::enc_exercise;
use crate::codec::enc_exs;
use crate::codec::enc_u32;
use crate::codec::esc;
use crate::codec::esc_byte;
use crate::codec::lemma_enc_days_take_succ;
use crate::codec::lemma_enc_exs_take_succ;
use crate::codec::lemma_esc_take_succ;
use crate::codec::lit_day_exs;
use crate::codec::lit_day_head;
use crate::codec::lit_ex_head;
use crate::codec::lit_ex_reps;
use crate::codec::lit_ex_sets;
use crate::codec::lemma_round_trip;
use crate::codec::lemma_sp_digits_ge;
use crate::codec::sp_collection;
use crate::codec::sp_day;
use crate::codec::sp_day_list;
use crate::codec::sp_digits;
use crate::codec::sp_ex_list;
use crate::codec::sp_exercise;
use crate::codec::sp_lit;
use crate::codec::sp_str_body;
use crate::codec::sp_u32;
use crate::model::Collection;
use crate::model::DayEntry;
use crate::model::DayEntryV;
use crate::model::Exercise;
use crate::model::bytes_eq;
use crate::model::wf;

verus! {

/// The stored document does not parse as a valid collection.
#[derive(Clone, Copy, Debug, PartialEq, Eq)]
pub struct DataFormatError;

/// Append the decimal writing of `n`.
fn push_u32(out: &mut Vec<u8>, n: u32)
    ensures
        final(out)@ == old(out)@ + enc_u32(n as int),
    decreases n,
{
    if n >= 10 {
        push_u32(out, n / 10);
    }
    out.push(48 + (n % 10) as u8);
    proof {
        if n >= 10 {
            assert(out@ =~= old(out)@ + (enc_u32(n as int / 10) + seq![(48 + (n as int % 10)) as u8]));
        } else {
            assert(out@ =~= old(out)@ + seq![(48 + n as int) as u8]);
        }
    }
}

/// Append `s` with quotes and backslashes escaped.
fn push_esc(out: &mut Vec<u8>, s: &Vec<u8>)
    ensures
        final(out)@ == old(out)@ + esc(s@),
{
    let n = s.len();
    let mut i: usize = 0;
    while i < n
        invariant
            n == s@.len(),
            i <= n,
            out@ == old(out)@ + esc(s@.take(i as int)),
        decreases n - i,
    {
        let b = s[i];
        if b == 34 || b == 92 {
            out.push(92);
        }
        out.push(b);
        proof {
            lemma_esc_take_succ(s@, i as int);
            assert(out@ =~= old(out)@ + (esc(s@.take(i as int)) + esc_byte(s@[i as int])));
        }
        i += 1;
    }
    proof {
        assert(s@.take(n as int) =~= s@);
    }
}

/// Append `{"type":"`.
fn push_ex_head(out: &mut Vec<u8>)
    ensures
        final(out)@ == old(out)@ + lit_ex_head(),
{
    out.push(123);
    out.push(34);
    out.push(116);
    out.push(121);
    out.push(112);
    out.push(101);
    out.push(34);
    out.push(58);
    out.push(34);
    proof {
        assert(out@ =~= old(out)@ + lit_ex_head());
    }
}

/// Append `,"sets":`.
fn push_ex_sets(out: &mut Vec<u8>)
    ensures
        final(out)@ == old(out)@ + lit_ex_sets(),
{
    out.push(44);
    out.push(34);
    out.push(115);
    out.push(101);
    out.push(116);
    out.push(115);
    out.push(34);
    out.push(58);
    proof {
        assert(out@ =~= old(out)@ + lit_ex_sets());
    }
}

/// Append `,"reps":`.
fn push_ex_reps(out: &mut Vec<u8>)
    ensures
        final(out)@ == old(out)@ + lit_ex_reps(),
{
    out.push(44);
    out.push(34);
    out.push(114);
    out.push(101);
    out.push(112);
    out.push(115);
    out.push(34);
    out.push(58);
    proof {
        assert(out@ =~= old(out)@ + lit_ex_reps());
    }
}

/// Append `{"date":"`.
fn push_day_head(out: &mut Vec<u8>)
    ensures
        final(out)@ == old(out)@ + lit_day_head(),
{
    out.push(123);
    out.push(34);
    out.push(100);
    out.push(97);
    out.push(116);
    out.push(101);
    out.push(34);
    out.push(58);
    out.push(34);
    proof {
        assert(out@ =~= old(out)@ + lit_day_head());
    }
}

/// Append `,"exercises":[`.
fn push_day_exs(out: &mut Vec<u8>)
    ensures
        final(out)@ == old(out)@ + lit_day_exs(),
{
    out.push(44);
    out.push(34);
    out.push(101);
    out.push(120);
    out.push(101);
    out.push(114);
    out.push(99);
    out.push(105);
    out.push(115);
    out.push(101);
    out.push(115);
    out.push(34);
    out.push(58);
    out.push(91);
    proof {
        assert(out@ =~= old(out)@ + lit_day_exs());
    }
}

/// Append the writing of one exercise object.
fn push_exercise(out: &mut Vec<u8>, e: &Exercise)
    ensures
        final(out)@ == old(out)@ + enc_exercise(e@),
{
    push_ex_head(out);
    push_esc(out, &e.label);
    out.push(34);
    push_ex_sets(out);
    push_u32(out, e.sets);
    push_ex_reps(out);
    push_u32(out, e.reps);
    out.push(125);
    proof {
        assert(out@ =~= old(out)@ + enc_exercise(e@));
    }
}

/// Append the writing of one day object.
fn push_day(out: &mut Vec<u8>, d: &DayEntry)
    ensures
        final(out)@ == old(out)@ + enc_day(d@),
{
    push_day_head(out);
    push_esc(out, &d.date);
    out.push(34);
    push_day_exs(out);
    let n = d.exercises.len();
    let ghost mid = out@;
    let mut j: usize = 0;
    while j < n
        invariant
            n == d.exercises@.len(),
            j <= n,
            out@ == mid + enc_exs(d@.exercises.take(j as int)),
            d@.exercises.len() == n,
        decreases n - j,
    {
        if j > 0 {
            out.push(44);
        }
        push_exercise(out, &d.exercises[j]);
        proof {
            lemma_enc_exs_take_succ(d@.exercises, j as int);
            assert(d@.exercises[j as int] == d.exercises@[j as int]@);
            if j == 0 {
                assert(out@ =~= mid + enc_exs(d@.exercises.take(1)));
            } else {
                assert(out@ =~= mid + (enc_exs(d@.exercises.take(j as int)) + seq![44u8]
                    + enc_exercise(d@.exercises[j as int])));
            }
        }
        j += 1;
    }
    out.push(93);
    out.push(125);
    proof {
        assert(d@.exercises.take(n as int) =~= d@.exercises);
        assert(out@ =~= old(out)@ + enc_day(d@));
    }
}

/// Write the whole collection as its document.
pub fn save(c: &Collection) -> (out: Vec<u8>)
    ensures
        out@ == enc_collection(c@),
{
    let mut out: Vec<u8> = Vec::new();
    out.push(91);
    let n = c.num_days();
    if n == 0 {
        out.push(93);
        proof {
            assert(out@ =~= enc_collection(c@));
        }
        return out;
    }
    let mut i: usize = 0;
    while i < n
        invariant
            n == c@.len(),
            0 < n,
            i <= n,
            out@ == seq![91u8] + enc_days(c@.take(i as int)),
        decreases n - i,
    {
        if i > 0 {
            out.push(44);
        }
        push_day(&mut out, &c.entries[i]);
        proof {
            lemma_enc_days_take_succ(c@, i as int);
            assert(c@[i as int] == c.entries@[i as int]@);
            if i == 0 {
                assert(out@ =~= seq![91u8] + enc_days(c@.take(1)));
            } else {
                assert(out@ =~= seq![91u8] + (enc_days(c@.take(i as int)) + seq![44u8] + enc_day(
                    c@[i as int],
                )));
            }
        }
        i += 1;
    }
    out.push(93);
    proof {
        assert(c@.take(n as int) =~= c@);
        assert(out@ =~= enc_collection(c@));
    }
    out
}

/// Match an exact literal at `pos`.
fn eat_lit(v: &Vec<u8>, pos: usize, lit: &Vec<u8>) -> (r: Option<usize>)
    requires
        pos <= v@.len(),
    ensures
        match r {
            Some(p2) => pos <= p2 <= v@.len() && sp_lit(v@.skip(pos as int), lit@) == Some(
                v@.skip(p2 as int),
            ),
            None => sp_lit(v@.skip(pos as int), lit@) is None,
        },
{
    let m = lit.len();
    let vlen = v.len();
    if vlen - pos < m {
        return None;
    }
    let mut i: usize = 0;
    while i < m
        invariant
            pos <= v@.len(),
            m == lit@.len(),
            vlen == v@.len(),
            pos + m <= vlen,
            i <= m,
            forall|k: int| 0 <= k < i ==> v@[pos + k] == lit@[k],
        decreases m - i,
    {
        if v[pos + i] != lit[i] {
            proof {
                assert(v@.skip(pos as int).take(m as int)[i as int] == v@[pos + i]);
            }
            return None;
        }
        i += 1;
    }
    proof {
        assert(v@.skip(pos as int).take(m as int) =~= lit@);
        assert(v@.skip(pos as int).skip(m as int) =~= v@.skip(pos + m));
    }
    Some(pos + m)
}

/// Parse a string body (bytes up to an unescaped quote) at `pos`.
fn p_str(v: &Vec<u8>, pos: usize) -> (r: Option<(Vec<u8>, usize)>)
    requires
        pos <= v@.len(),
    ensures
        match r {
            Some(t) => pos <= t.1 <= v@.len() && sp_str_body(v@.skip(pos as int)) == Some(
                (t.0@, v@.skip(t.1 as int)),
            ),
            None => sp_str_body(v@.skip(pos as int)) is None,
        },
{
    let mut out: Vec<u8> = Vec::new();
    let mut cur: usize = pos;
    proof {
        let g = out@;
        assert forall|w: Seq<u8>| #[trigger] (g + w) == w by {
            assert(g + w =~= w);
        }
    }
    while cur < v.len()
        invariant
            pos <= cur <= v@.len(),
            (match sp_str_body(v@.skip(cur as int)) {
                Some(t2) => sp_str_body(v@.skip(pos as int)) == Some((out@ + t2.0, t2.1)),
                None => sp_str_body(v@.skip(pos as int)) is None,
            }),
        decreases v@.len() - cur,
    {
        let b = v[cur];
        if b == 34 {
            proof {
                assert(v@.skip(cur as int)[0] == 34);
                assert(v@.skip(cur as int).skip(1) =~= v@.skip(cur + 1));
                assert(out@ + Seq::<u8>::empty() =~= out@);
            }
            return Some((out, cur + 1));
        } else if b == 92 {
            if cur + 1 < v.len() && (v[cur + 1] == 34 || v[cur + 1] == 92) {
                let b2 = v[cur + 1];
                let ghost g0 = out@;
                out.push(b2);
                proof {
                    let s = v@.skip(cur as int);
                    assert(s[0] == 92 && s.len() >= 2 && s[1] == b2);
                    assert(s.skip(2) =~= v@.skip(cur + 2));
                    assert forall|w: Seq<u8>| #[trigger] (out@ + w) == g0 + (seq![b2] + w) by {
                        assert(out@ + w =~= g0 + (seq![b2] + w));
                    }
                }
                cur = cur + 2;
            } else {
                proof {
                    let s = v@.skip(cur as int);
                    assert(s[0] == 92);
                }
                return None;
            }
        } else {
            let ghost g0 = out@;
            out.push(b);
            proof {
                let s = v@.skip(cur as int);
                assert(s[0] == b);
                assert(s.skip(1) =~= v@.skip(cur + 1));
                assert forall|w: Seq<u8>| #[trigger] (out@ + w) == g0 + (seq![b] + w) by {
                    assert(out@ + w =~= g0 + (seq![b] + w));
                }
            }
            cur = cur + 1;
        }
    }
    None
}

/// Parse a decimal `u32` at `pos`.
fn p_u32(v: &Vec<u8>, pos: usize) -> (r: Option<(u32, usize)>)
    requires
        pos <= v@.len(),
    ensures
        match r {
            Some(t) => pos <= t.1 <= v@.len() && sp_u32(v@.skip(pos as int)) == Some(
                (t.0, v@.skip(t.1 as int)),
            ),
            None => sp_u32(v@.skip(pos as int)) is None,
        },
{
    if pos == v.len() {
        return None;
    }
    let b0 = v[pos];
    if b0 < 48 || b0 > 57 {
        proof {
            assert(v@.skip(pos as int)[0] == b0);
        }
        return None;
    }
    proof {
        assert(v@.skip(pos as int)[0] == b0);
    }
    let mut acc: u64 = 0;
    let mut cur: usize = pos;
    let mut done = false;
    while cur < v.len() && !done
        invariant
            pos <= cur <= v@.len(),
            acc <= u32::MAX,
            sp_digits(v@.skip(pos as int), 0) == sp_digits(v@.skip(cur as int), acc as int),
            v@.skip(pos as int).len() > 0,
            48 <= v@.skip(pos as int)[0] <= 57,
            done ==> (cur == v@.len() || !(48 <= v@[cur as int] <= 57)),
        decreases v@.len() - cur + (if done {
            0int
        } else {
            1int
        }),
    {
        let b = v[cur];
        if b < 48 || b > 57 {
            done = true;
        } else {
            let next: u64 = acc * 10 + (b - 48) as u64;
            proof {
                let s = v@.skip(cur as int);
                assert(s[0] == b);
                assert(s.skip(1) =~= v@.skip(cur + 1));
            }
            if next > u32::MAX as u64 {
                proof {
                    lemma_sp_digits_ge(v@.skip(cur + 1), acc as int * 10 + (b - 48));
                }
                return None;
            }
            acc = next;
            cur += 1;
        }
    }
    proof {
        if cur < v@.len() {
            assert(v@.skip(cur as int)[0] == v@[cur as int]);
        } else {
            assert(v@.skip(cur as int).len() == 0);
        }
    }
    Some((acc as u32, cur))
}

/// Parse one exercise object at `pos`.
fn p_exercise(v: &Vec<u8>, pos: usize) -> (r: Option<(Exercise, usize)>)
    requires
        pos <= v@.len(),
    ensures
        match r {
            Some(t) => pos <= t.1 <= v@.len() && sp_exercise(v@.skip(pos as int)) == Some(
                (t.0@, v@.skip(t.1 as int)),
            ),
            None => sp_exercise(v@.skip(pos as int)) is None,
        },
{
    let mut head: Vec<u8> = Vec::new();
    push_ex_head(&mut head);
    proof {
        assert(head@ =~= lit_ex_head());
    }
    let p1 = match eat_lit(v, pos, &head) {
        Some(p) => p,
        None => {
            return None;
        },
    };
    let (label, p2) = match p_str(v, p1) {
        Some(t) => t,
        None => {
            return None;
        },
    };
    let mut lsets: Vec<u8> = Vec::new();
    push_ex_sets(&mut lsets);
    proof {
        assert(lsets@ =~= lit_ex_sets());
    }
    let p3 = match eat_lit(v, p2, &lsets) {
        Some(p) => p,
        None => {
            return None;
        },
    };
    let (sets, p4) = match p_u32(v, p3) {
        Some(t) => t,
        None => {
            return None;
        },
    };
    let mut lreps: Vec<u8> = Vec::new();
    push_ex_reps(&mut lreps);
    proof {
        assert(lreps@ =~= lit_ex_reps());
    }
    let p5 = match eat_lit(v, p4, &lreps) {
        Some(p) => p,
        None => {
            return None;
        },
    };
    let (reps, p6) = match p_u32(v, p5) {
        Some(t) => t,
        None => {
            return None;
        },
    };
    if p6 < v.len() && v[p6] == 125 {
        proof {
            assert(v@.skip(p6 as int)[0] == 125);
            assert(v@.skip(p6 as int).skip(1) =~= v@.skip(p6 + 1));
        }
        Some((Exercise { label, sets, reps }, p6 + 1))
    } else {
        proof {
            if p6 < v@.len() {
                assert(v@.skip(p6 as int)[0] == v@[p6 as int]);
            } else {
                assert(v@.skip(p6 as int).len() == 0);
            }
        }
        None
    }
}

/// Parse the items of an exercise array at `pos`, through the closing
/// bracket.
fn p_ex_list(v: &Vec<u8>, pos: usize) -> (r: Option<(Vec<Exercise>, usize)>)
    requires
        pos <= v@.len(),
    ensures
        match r {
            Some(t) => pos <= t.1 <= v@.len() && t.0@.len() >= 1 && sp_ex_list(
                v@.skip(pos as int),
            ) == Some((t.0@.map_values(|e: Exercise| e@), v@.skip(t.1 as int))),
            None => sp_ex_list(v@.skip(pos as int)) is None,
        },
{
    let mut acc: Vec<Exercise> = Vec::new();
    let mut cur: usize = pos;
    proof {
        let g = acc@.map_values(|e: Exercise| e@);
        assert forall|w: Seq<crate::model::ExerciseV>| #[trigger] (g + w) == w by {
            assert(g + w =~= w);
        }
    }
    while cur < v.len()
        invariant
            pos <= cur <= v@.len(),
            (match sp_ex_list(v@.skip(cur as int)) {
                Some(t2) => sp_ex_list(v@.skip(pos as int)) == Some(
                    (acc@.map_values(|e: Exercise| e@) + t2.0, t2.1),
                ),
                None => sp_ex_list(v@.skip(pos as int)) is None,
            }),
        decreases v@.len() - cur,
    {
        match p_exercise(v, cur) {
            None => {
                return None;
            },
            Some((e, p2)) => {
                if p2 < v.len() && v[p2] == 44 {
                    let ghost g0 = acc@.map_values(|x: Exercise| x@);
                    let ghost ev = e@;
                    acc.push(e);
                    proof {
                        assert(v@.skip(p2 as int)[0] == 44);
                        assert(v@.skip(p2 as int).skip(1) =~= v@.skip(p2 + 1));
                        let g1 = acc@.map_values(|x: Exercise| x@);
                        assert(g1 =~= g0.push(ev));
                        assert forall|w: Seq<crate::model::ExerciseV>| #[trigger] (g1 + w) == g0 + (
                        seq![ev] + w) by {
                            assert(g1 + w =~= g0 + (seq![ev] + w));
                        }
                    }
                    cur = p2 + 1;
                } else if p2 < v.len() && v[p2] == 93 {
                    let ghost g0 = acc@.map_values(|x: Exercise| x@);
                    let ghost ev = e@;
                    acc.push(e);
                    proof {
                        assert(v@.skip(p2 as int)[0] == 93);
                        assert(v@.skip(p2 as int).skip(1) =~= v@.skip(p2 + 1));
                        let g1 = acc@.map_values(|x: Exercise| x@);
                        assert(g1 =~= g0.push(ev));
                        assert(g1 =~= g0 + seq![ev]);
                    }
                    return Some((acc, p2 + 1));
                } else {
                    proof {
                        if p2 < v@.len() {
                            assert(v@.skip(p2 as int)[0] == v@[p2 as int]);
                        } else {
                            assert(v@.skip(p2 as int).len() == 0);
                        }
                    }
                    return None;
                }
            },
        }
    }
    None
}

/// Parse one day object at `pos`.
fn p_day(v: &Vec<u8>, pos: usize) -> (r: Option<(DayEntry, usize)>)
    requires
        pos <= v@.len(),
    ensures
        match r {
            Some(t) => pos <= t.1 <= v@.len() && t.0@.exercises.len() >= 1 && sp_day(
                v@.skip(pos as int),
            ) == Some((t.0@, v@.skip(t.1 as int))),
            None => sp_day(v@.skip(pos as int)) is None,
        },
{
    let mut head: Vec<u8> = Vec::new();
    push_day_head(&mut head);
    proof {
        assert(head@ =~= lit_day_head());
    }
    let p1 = match eat_lit(v, pos, &head) {
        Some(p) => p,
        None => {
            return None;
        },
    };
    let (date, p2) = match p_str(v, p1) {
        Some(t) => t,
        None => {
            return None;
        },
    };
    let mut lexs: Vec<u8> = Vec::new();
    push_day_exs(&mut lexs);
    proof {
        assert(lexs@ =~= lit_day_exs());
    }
    let p3 = match eat_lit(v, p2, &lexs) {
        Some(p) => p,
        None => {
            return None;
        },
    };
    let (exercises, p4) = match p_ex_list(v, p3) {
        Some(t) => t,
        None => {
            return None;
        },
    };
    if p4 < v.len() && v[p4] == 125 {
        proof {
            assert(v@.skip(p4 as int)[0] == 125);
            assert(v@.skip(p4 as int).skip(1) =~= v@.skip(p4 + 1));
        }
        Some((DayEntry { date, exercises }, p4 + 1))
    } else {
        proof {
            if p4 < v@.len() {
                assert(v@.skip(p4 as int)[0] == v@[p4 as int]);
            } else {
                assert(v@.skip(p4 as int).len() == 0);
            }
        }
        None
    }
}

/// Parse the items of the day array at `pos`, through the closing
/// bracket.
fn p_day_list(v: &Vec<u8>, pos: usize) -> (r: Option<(Vec<DayEntry>, usize)>)
    requires
        pos <= v@.len(),
    ensures
        match r {
            Some(t) => pos <= t.1 <= v@.len() && sp_day_list(v@.skip(pos as int)) == Some(
                (t.0@.map_values(|d: DayEntry| d@), v@.skip(t.1 as int)),
            ) && (forall|k: int| 0 <= k < t.0@.len() ==> t.0@[k]@.exercises.len() >= 1),
            None => sp_day_list(v@.skip(pos as int)) is None,
        },
{
    let mut acc: Vec<DayEntry> = Vec::new();
    let mut cur: usize = pos;
    proof {
        let g = acc@.map_values(|d: DayEntry| d@);
        assert forall|w: Seq<DayEntryV>| #[trigger] (g + w) == w by {
            assert(g + w =~= w);
        }
    }
    while cur < v.len()
        invariant
            pos <= cur <= v@.len(),
            forall|k: int| 0 <= k < acc@.len() ==> acc@[k]@.exercises.len() >= 1,
            (match sp_day_list(v@.skip(cur as int)) {
                Some(t2) => sp_day_list(v@.skip(pos as int)) == Some(
                    (acc@.map_values(|d: DayEntry| d@) + t2.0, t2.1),
                ),
                None => sp_day_list(v@.skip(pos as int)) is None,
            }),
        decreases v@.len() - cur,
    {
        match p_day(v, cur) {
            None => {
                return None;
            },
            Some((d, p2)) => {
                if p2 < v.len() && v[p2] == 44 {
                    let ghost g0 = acc@.map_values(|x: DayEntry| x@);
                    let ghost dv = d@;
                    acc.push(d);
                    proof {
                        assert(v@.skip(p2 as int)[0] == 44);
                        assert(v@.skip(p2 as int).skip(1) =~= v@.skip(p2 + 1));
                        let g1 = acc@.map_values(|x: DayEntry| x@);
                        assert(g1 =~= g0.push(dv));
                        assert forall|w: Seq<DayEntryV>| #[trigger] (g1 + w) == g0 + (seq![dv]
                            + w) by {
                            assert(g1 + w =~= g0 + (seq![dv] + w));
                        }
                    }
                    cur = p2 + 1;
                } else if p2 < v.len() && v[p2] == 93 {
                    let ghost g0 = acc@.map_values(|x: DayEntry| x@);
                    let ghost dv = d@;
                    acc.push(d);
                    proof {
                        assert(v@.skip(p2 as int)[0] == 93);
                        assert(v@.skip(p2 as int).skip(1) =~= v@.skip(p2 + 1));
                        let g1 = acc@.map_values(|x: DayEntry| x@);
                        assert(g1 =~= g0.push(dv));
                        assert(g1 =~= g0 + seq![dv]);
                    }
                    return Some((acc, p2 + 1));
                } else {
                    proof {
                        if p2 < v@.len() {
                            assert(v@.skip(p2 as int)[0] == v@[p2 as int]);
                        } else {
                            assert(v@.skip(p2 as int).len() == 0);
                        }
                    }
                    return None;
                }
            },
        }
    }
    None
}

/// Whether every two day entries carry distinct dates.
fn dates_unique(entries: &Vec<DayEntry>) -> (b: bool)
    ensures
        b == (forall|i: int, j: int|
            0 <= i < j < entries@.len() ==> entries@[i]@.date != entries@[j]@.date),
{
    let n = entries.len();
    let mut i: usize = 0;
    while i < n
        invariant
            n == entries@.len(),
            i <= n,
            forall|a: int, b2: int|
                0 <= a < b2 < n && a < i ==> entries@[a]@.date != entries@[b2]@.date,
        decreases n - i,
    {
        let mut j: usize = i + 1;
        while j < n
            invariant
                n == entries@.len(),
                i < j <= n || (i + 1 == j && j <= n),
                i < n,
                forall|b2: int| i < b2 < j ==> entries@[i as int]@.date != entries@[b2]@.date,
            decreases n - j,
        {
            if bytes_eq(&entries[i].date, &entries[j].date) {
                return false;
            }
            j += 1;
        }
        i += 1;
    }
    true
}

/// Read a collection back from a document's bytes. Fails exactly when
/// the bytes are not the writing of a valid collection: a parse
/// failure, trailing content, or duplicate dates.
pub fn decode(bytes: &Vec<u8>) -> (r: Result<Collection, DataFormatError>)
    ensures
        (r matches Ok(c) ==> sp_collection(bytes@) == Some(c@) && wf(c@)),
        (r is Err ==> sp_collection(bytes@) is None || !wf(sp_collection(bytes@)->Some_0)),
{
    if bytes.len() >= 2 && bytes[0] == 91 && bytes[1] == 93 {
        if bytes.len() == 2 {
            let c = Collection::new();
            proof {
                assert(c@ =~= Seq::<DayEntryV>::empty());
            }
            return Ok(c);
        }
        return Err(DataFormatError);
    }
    if bytes.len() >= 1 && bytes[0] == 91 {
        match p_day_list(bytes, 1) {
            None => Err(DataFormatError),
            Some((days, p2)) => {
                if p2 != bytes.len() {
                    return Err(DataFormatError);
                }
                if !dates_unique(&days) {
                    proof {
                        let cv = days@.map_values(|d: DayEntry| d@);
                        assert(!wf(cv)) by {
                            let (i, j) = choose|i: int, j: int|
                                0 <= i < j < days@.len() && days@[i]@.date == days@[j]@.date;
                            assert(cv[i] == days@[i]@ && cv[j] == days@[j]@);
                        }
                    }
                    return Err(DataFormatError);
                }
                let c = Collection { entries: days };
                Ok(c)
            },
        }
    } else {
        Err(DataFormatError)
    }
}

/// Load a collection from the backing file's contents, where `None`
/// stands for an absent file: an absent file is an empty collection,
/// never an error.
pub fn load(contents: Option<&Vec<u8>>) -> (r: Result<Collection, DataFormatError>)
    ensures
        (contents is None ==> (r matches Ok(c) && c@ == Seq::<DayEntryV>::empty())),
        (contents matches Some(b) ==> {
            &&& (r matches Ok(c) ==> sp_collection(b@) == Some(c@) && wf(c@))
            &&& (r is Err ==> sp_collection(b@) is None || !wf(sp_collection(b@)->Some_0))
        }),
{
    match contents {
        None => {
            let c = Collection::new();
            proof {
                assert(c@ =~= Seq::<DayEntryV>::empty());
            }
            Ok(c)
        },
        Some(b) => decode(b),
    }
}

/// The store round trip: the document written for any valid collection
/// reads back as exactly that collection. Together with the contracts
/// of `save` and `load`, saving and then loading yields an equal
/// collection.
pub proof fn lemma_save_load_round_trip(c: Seq<DayEntryV>)
    requires
        wf(c),
    ensures
        sp_collection(enc_collection(c)) == Some(c),
{
    lemma_round_trip(c);
}

} // verus!
