//! The edit workflow: applying the three per-field replacement inputs
//! of an edit to one exercise. An empty input keeps a field; a
//! non-empty input is parsed, and a failing parse stops the edit with
//! an error while keeping the replacements already applied.

use vstd::prelude::*;

use crate::input::parse_u32;
use crate::input::parse_u32_spec;
use crate::model::Collection;
use crate::model::Exercise;
use crate::model::ExerciseV;
use crate::model::spec_update;
use crate::model::wf;

verus! {

/// A non-empty replacement value failed to parse.
#[derive(Clone, Copy, Debug, PartialEq, Eq)]
pub struct InvalidInputError;

/// What an edit leaves of one exercise, and whether it succeeded. The
/// fields are taken in order (label, then sets, then reps); the first
/// failing parse ends the edit, keeping the fields replaced before it.
pub open spec fn spec_edit_fields(e: ExerciseV, li: Seq<u8>, si: Seq<u8>, ri: Seq<u8>) -> (
    ExerciseV,
    bool,
) {
    let e1 = ExerciseV { label: if li.len() == 0 {
        e.label
    } else {
        li
    }, sets: e.sets, reps: e.reps };
    if si.len() != 0 && parse_u32_spec(si) is None {
        (e1, false)
    } else {
        let e2 = ExerciseV { label: e1.label, sets: if si.len() == 0 {
            e.sets
        } else {
            parse_u32_spec(si)->Some_0
        }, reps: e.reps };
        if ri.len() != 0 && parse_u32_spec(ri) is None {
            (e2, false)
        } else {
            (
                ExerciseV { label: e2.label, sets: e2.sets, reps: if ri.len() == 0 {
                    e.reps
                } else {
                    parse_u32_spec(ri)->Some_0
                } },
                true,
            )
        }
    }
}

/// Log one exercise under the current local date: the date comes from
/// the system clock, the merge into the collection is `add_exercise`.
/// Returns the date that was used.
pub fn add_exercise_today(c: &mut Collection, e: Exercise) -> (date: Vec<u8>)
    requires
        wf(old(c)@),
    ensures
        final(c)@ == crate::model::spec_add(old(c)@, date@, e@),
        wf(final(c)@),
        date@.len() > 0,
{
    let d = crate::clock::today_date();
    let date = copy_bytes(&d);
    c.add_exercise(d, e);
    date
}

/// An edit with an empty label input, a valid sets input and an empty
/// reps input succeeds and changes only the sets field.
pub proof fn lemma_edit_partial_update(e: ExerciseV, si: Seq<u8>)
    requires
        parse_u32_spec(si) is Some,
    ensures
        ({
            let (e2, ok) = spec_edit_fields(e, Seq::<u8>::empty(), si, Seq::<u8>::empty());
            &&& ok
            &&& e2.label == e.label
            &&& e2.reps == e.reps
            &&& e2.sets == parse_u32_spec(si)->Some_0
        }),
{
}

/// An owned copy of a byte string.
pub fn copy_bytes(src: &Vec<u8>) -> (v: Vec<u8>)
    ensures
        v@ == src@,
{
    let mut v: Vec<u8> = Vec::new();
    let mut i: usize = 0;
    while i < src.len()
        invariant
            i <= src@.len(),
            v@ =~= src@.take(i as int),
        decreases src@.len() - i,
    {
        v.push(src[i]);
        proof {
            assert(v@ =~= src@.take(i + 1));
        }
        i += 1;
    }
    proof {
        assert(src@.take(src@.len() as int) =~= src@);
    }
    v
}

/// Apply an edit to the exercise at position `ei` of the day entry at
/// `di`. Empty inputs keep the current field; non-empty inputs replace
/// it with their parsed value; the first unparsable input ends the edit
/// with an error, with the replacements made before it still applied.
pub fn edit_exercise(
    c: &mut Collection,
    di: usize,
    ei: usize,
    label_input: &Vec<u8>,
    sets_input: &Vec<u8>,
    reps_input: &Vec<u8>,
) -> (r: Result<(), InvalidInputError>)
    requires
        wf(old(c)@),
        di < old(c)@.len(),
        ei < old(c)@[di as int].exercises.len(),
    ensures
        ({
            let (e2, ok) = spec_edit_fields(
                old(c)@[di as int].exercises[ei as int],
                label_input@,
                sets_input@,
                reps_input@,
            );
            &&& final(c)@ == spec_update(old(c)@, di as int, ei as int, e2)
            &&& (r is Ok <==> ok)
        }),
        wf(final(c)@),
{
    let cur_sets = c.get_exercise(di, ei).sets;
    let cur_reps = c.get_exercise(di, ei).reps;
    let label: Vec<u8> = if label_input.len() == 0 {
        copy_bytes(&c.get_exercise(di, ei).label)
    } else {
        copy_bytes(label_input)
    };
    let sets: u32;
    if sets_input.len() == 0 {
        sets = cur_sets;
    } else {
        match parse_u32(sets_input) {
            Some(n) => {
                sets = n;
            },
            None => {
                c.update_exercise(di, ei, Exercise { label, sets: cur_sets, reps: cur_reps });
                return Err(InvalidInputError);
            },
        }
    }
    let reps: u32;
    if reps_input.len() == 0 {
        reps = cur_reps;
    } else {
        match parse_u32(reps_input) {
            Some(n) => {
                reps = n;
            },
            None => {
                c.update_exercise(di, ei, Exercise { label, sets, reps: cur_reps });
                return Err(InvalidInputError);
            },
        }
    }
    c.update_exercise(di, ei, Exercise { label, sets, reps });
    Ok(())
}

} // verus!
