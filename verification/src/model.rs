//! The record model: exercises, day entries, and the collection that
//! groups every logged exercise under its calendar date.

use vstd::prelude::*;

verus! {

/// One logged activity: a free-text label (bytes, UTF-8 by convention)
/// and an effort measure of `sets` and `reps` per set.
pub struct Exercise {
    pub label: Vec<u8>,
    pub sets: u32,
    pub reps: u32,
}

/// The mathematical value of an `Exercise`.
#[verifier::ext_equal]
pub ghost struct ExerciseV {
    pub label: Seq<u8>,
    pub sets: u32,
    pub reps: u32,
}

impl View for Exercise {
    type V = ExerciseV;

    open spec fn view(&self) -> ExerciseV {
        ExerciseV { label: self.label@, sets: self.sets, reps: self.reps }
    }
}

/// All exercises logged on one calendar date. The date is a byte string
/// in the form `YYYY-MM-DD` by convention; the model treats it as an
/// opaque grouping key.
pub struct DayEntry {
    pub date: Vec<u8>,
    pub exercises: Vec<Exercise>,
}

/// The mathematical value of a `DayEntry`.
#[verifier::ext_equal]
pub ghost struct DayEntryV {
    pub date: Seq<u8>,
    pub exercises: Seq<ExerciseV>,
}

impl View for DayEntry {
    type V = DayEntryV;

    open spec fn view(&self) -> DayEntryV {
        DayEntryV {
            date: self.date@,
            exercises: self.exercises@.map_values(|e: Exercise| e@),
        }
    }
}

/// The full store: day entries in insertion order, at most one per date,
/// none of them empty.
pub struct Collection {
    pub entries: Vec<DayEntry>,
}

impl View for Collection {
    type V = Seq<DayEntryV>;

    open spec fn view(&self) -> Seq<DayEntryV> {
        self.entries@.map_values(|d: DayEntry| d@)
    }
}

/// The collection invariant: dates are unique and every day entry holds
/// at least one exercise.
pub open spec fn wf(c: Seq<DayEntryV>) -> bool {
    &&& forall|i: int, j: int| 0 <= i < j < c.len() ==> c[i].date != c[j].date
    &&& forall|i: int| 0 <= i < c.len() ==> c[i].exercises.len() > 0
}

/// The index of the entry for `date`, if one exists (dates being unique
/// under `wf`, there is at most one).
pub open spec fn find_day(c: Seq<DayEntryV>, date: Seq<u8>) -> Option<int>
    decreases c.len(),
{
    if c.len() == 0 {
        None
    } else if c[0].date == date {
        Some(0int)
    } else {
        match find_day(c.skip(1), date) {
            None => None,
            Some(i) => Some(i + 1),
        }
    }
}

/// `find_day` returns the first index holding `date`, or `None` when no
/// entry holds it.
pub proof fn lemma_find_day(c: Seq<DayEntryV>, date: Seq<u8>)
    ensures
        match find_day(c, date) {
            Some(i) => 0 <= i < c.len() && c[i].date == date && (forall|j: int|
                0 <= j < i ==> c[j].date != date),
            None => forall|j: int| 0 <= j < c.len() ==> c[j].date != date,
        },
    decreases c.len(),
{
    if c.len() > 0 && c[0].date != date {
        let cs = c.skip(1);
        lemma_find_day(cs, date);
        match find_day(cs, date) {
            None => {
                assert forall|j: int| 0 <= j < c.len() implies c[j].date != date by {
                    if j > 0 {
                        assert(cs[j - 1] == c[j]);
                    }
                }
            },
            Some(i) => {
                assert(cs[i] == c[i + 1]);
                assert forall|j: int| 0 <= j < i + 1 implies c[j].date != date by {
                    if j > 0 {
                        assert(cs[j - 1] == c[j]);
                    }
                }
            },
        }
    }
}

/// What adding one exercise under a date does: append it to the entry
/// for that date if one exists, else append a fresh single-exercise
/// entry at the end.
pub open spec fn spec_add(c: Seq<DayEntryV>, date: Seq<u8>, e: ExerciseV) -> Seq<DayEntryV> {
    match find_day(c, date) {
        Some(i) => c.update(
            i,
            DayEntryV { date: c[i].date, exercises: c[i].exercises.push(e) },
        ),
        None => c.push(DayEntryV { date: date, exercises: seq![e] }),
    }
}

impl Collection {
    /// The empty collection.
    pub fn new() -> (c: Collection)
        ensures
            c@ =~= Seq::<DayEntryV>::empty(),
            wf(c@),
    {
        Collection { entries: Vec::new() }
    }

    /// How many day entries the collection holds.
    pub fn num_days(&self) -> (n: usize)
        ensures
            n == self@.len(),
    {
        self.entries.len()
    }

    /// Log one exercise under `date`, merging into the entry for that
    /// date if one exists.
    pub fn add_exercise(&mut self, date: Vec<u8>, e: Exercise)
        requires
            wf(old(self)@),
        ensures
            final(self)@ == spec_add(old(self)@, date@, e@),
            wf(final(self)@),
    {
        let n = self.entries.len();
        let mut i: usize = 0;
        while i < n
            invariant
                n == self.entries.len(),
                i <= n,
                *self == *old(self),
                wf(old(self)@),
                forall|j: int| 0 <= j < i ==> self@[j].date != date@,
            decreases n - i,
        {
            if bytes_eq(&self.entries[i].date, &date) {
                let mut day = self.entries.remove(i);
                day.exercises.push(e);
                self.entries.insert(i, day);
                proof {
                    lemma_find_day_at(old(self)@, date@, i as int);
                    assert(self@ =~~= spec_add(old(self)@, date@, e@));
                    lemma_add_wf(old(self)@, date@, e@);
                }
                return;
            }
            i += 1;
        }
        let day = DayEntry { date, exercises: vec_of_one(e) };
        self.entries.push(day);
        proof {
            assert(find_day(old(self)@, date@) is None) by {
                lemma_find_day(old(self)@, date@);
            }
            assert(self@ =~~= spec_add(old(self)@, date@, e@));
            lemma_add_wf(old(self)@, date@, e@);
        }
    }
}

/// What deleting one exercise does: drop it from its day entry, and
/// drop the whole entry when it was the sole exercise.
pub open spec fn spec_delete(c: Seq<DayEntryV>, di: int, ei: int) -> Seq<DayEntryV> {
    if c[di].exercises.len() == 1 {
        c.remove(di)
    } else {
        c.update(di, DayEntryV { date: c[di].date, exercises: c[di].exercises.remove(ei) })
    }
}

/// What replacing one exercise does.
pub open spec fn spec_update(c: Seq<DayEntryV>, di: int, ei: int, e: ExerciseV) -> Seq<
    DayEntryV,
> {
    c.update(di, DayEntryV { date: c[di].date, exercises: c[di].exercises.update(ei, e) })
}

impl Collection {
    /// How many exercises the day entry at `di` holds.
    pub fn num_exercises(&self, di: usize) -> (n: usize)
        requires
            di < self@.len(),
        ensures
            n == self@[di as int].exercises.len(),
    {
        self.entries[di].exercises.len()
    }

    /// The date of the day entry at `di`.
    pub fn day_date(&self, di: usize) -> (d: &Vec<u8>)
        requires
            di < self@.len(),
        ensures
            d@ == self@[di as int].date,
    {
        &self.entries[di].date
    }

    /// The exercise at position `ei` of the day entry at `di`.
    pub fn get_exercise(&self, di: usize, ei: usize) -> (e: &Exercise)
        requires
            di < self@.len(),
            ei < self@[di as int].exercises.len(),
        ensures
            e@ == self@[di as int].exercises[ei as int],
    {
        &self.entries[di].exercises[ei]
    }

    /// Remove the exercise at position `ei` of the day entry at `di`;
    /// remove the whole entry when it held nothing else.
    pub fn delete_exercise(&mut self, di: usize, ei: usize)
        requires
            wf(old(self)@),
            di < old(self)@.len(),
            ei < old(self)@[di as int].exercises.len(),
        ensures
            final(self)@ == spec_delete(old(self)@, di as int, ei as int),
            wf(final(self)@),
    {
        if self.entries[di].exercises.len() == 1 {
            self.entries.remove(di);
            proof {
                assert(self@ =~~= spec_delete(old(self)@, di as int, ei as int));
            }
        } else {
            let mut day = self.entries.remove(di);
            day.exercises.remove(ei);
            self.entries.insert(di, day);
            proof {
                assert(self@ =~~= spec_delete(old(self)@, di as int, ei as int));
            }
        }
        proof {
            lemma_delete_wf(old(self)@, di as int, ei as int);
        }
    }

    /// Replace the exercise at position `ei` of the day entry at `di`.
    pub fn update_exercise(&mut self, di: usize, ei: usize, e: Exercise)
        requires
            wf(old(self)@),
            di < old(self)@.len(),
            ei < old(self)@[di as int].exercises.len(),
        ensures
            final(self)@ == spec_update(old(self)@, di as int, ei as int, e@),
            wf(final(self)@),
    {
        let mut day = self.entries.remove(di);
        let _ = day.exercises.remove(ei);
        day.exercises.insert(ei, e);
        self.entries.insert(di, day);
        proof {
            assert(self@ =~~= spec_update(old(self)@, di as int, ei as int, e@));
        }
    }
}

/// Deleting an exercise preserves the collection invariant.
pub proof fn lemma_delete_wf(c: Seq<DayEntryV>, di: int, ei: int)
    requires
        wf(c),
        0 <= di < c.len(),
        0 <= ei < c[di].exercises.len(),
    ensures
        wf(spec_delete(c, di, ei)),
{
    let c2 = spec_delete(c, di, ei);
    if c[di].exercises.len() == 1 {
        assert forall|i: int, j: int| 0 <= i < j < c2.len() implies c2[i].date != c2[j].date by {
            let i0: int = if i < di { i } else { i + 1 };
            let j0: int = if j < di { j } else { j + 1 };
            assert(c2[i] == c[i0] && c2[j] == c[j0]);
        }
        assert forall|i: int| 0 <= i < c2.len() implies c2[i].exercises.len() > 0 by {
            let i0: int = if i < di { i } else { i + 1 };
            assert(c2[i] == c[i0]);
        }
    }
}

/// Deleting the sole exercise of a day removes that date from the
/// collection entirely; deleting one of several keeps the entry, with
/// the remaining exercises in their original relative order, and every
/// other entry untouched.
pub proof fn lemma_delete_empties_day(c: Seq<DayEntryV>, di: int, ei: int)
    requires
        wf(c),
        0 <= di < c.len(),
        0 <= ei < c[di].exercises.len(),
    ensures
        c[di].exercises.len() == 1 ==> spec_delete(c, di, ei) == c.remove(di),
        c[di].exercises.len() == 1 ==> forall|j: int|
            0 <= j < spec_delete(c, di, ei).len() ==> spec_delete(c, di, ei)[j].date != c[di].date,
        c[di].exercises.len() > 1 ==> {
            let c2 = spec_delete(c, di, ei);
            &&& c2.len() == c.len()
            &&& c2[di].date == c[di].date
            &&& c2[di].exercises == c[di].exercises.remove(ei)
            &&& forall|j: int| 0 <= j < c.len() && j != di ==> c2[j] == c[j]
        },
{
    let c2 = spec_delete(c, di, ei);
    if c[di].exercises.len() == 1 {
        assert forall|j: int| 0 <= j < c2.len() implies c2[j].date != c[di].date by {
            let j0: int = if j < di { j } else { j + 1 };
            assert(c2[j] == c[j0]);
        }
    }
}

/// Adding under a date already present merges into that entry; adding
/// twice under an absent date yields exactly one new entry holding both
/// exercises in insertion order.
pub proof fn lemma_add_merges_by_date(c: Seq<DayEntryV>, d: Seq<u8>, e1: ExerciseV, e2: ExerciseV)
    requires
        wf(c),
    ensures
        ({
            let c2 = spec_add(spec_add(c, d, e1), d, e2);
            match find_day(c, d) {
                Some(i) => c2.len() == c.len() && c2[i].date == d && c2[i].exercises
                    == c[i].exercises + seq![e1, e2],
                None => c2.len() == c.len() + 1 && c2[c.len() as int].date == d && c2[c.len() as int].exercises
                    =~= seq![e1, e2],
            }
        }),
{
    lemma_find_day(c, d);
    let c1 = spec_add(c, d, e1);
    lemma_add_wf(c, d, e1);
    match find_day(c, d) {
        Some(i) => {
            lemma_find_day_at(c1, d, i);
            assert(spec_add(c1, d, e2)[i].exercises =~= c[i].exercises + seq![e1, e2]);
        },
        None => {
            lemma_find_day_at(c1, d, c.len() as int);
        },
    }
}

/// Adding single exercises under two distinct absent dates appends two
/// separate day entries, one per date, in order.
pub proof fn lemma_add_two_dates(c: Seq<DayEntryV>, d1: Seq<u8>, d2: Seq<u8>, e1: ExerciseV, e2: ExerciseV)
    requires
        wf(c),
        d1 != d2,
        forall|i: int| 0 <= i < c.len() ==> c[i].date != d1,
        forall|i: int| 0 <= i < c.len() ==> c[i].date != d2,
    ensures
        spec_add(spec_add(c, d1, e1), d2, e2) =~= c + seq![
            DayEntryV { date: d1, exercises: seq![e1] },
            DayEntryV { date: d2, exercises: seq![e2] },
        ],
{
    lemma_find_day(c, d1);
    let c1 = spec_add(c, d1, e1);
    lemma_find_day(c1, d2);
}

/// Adding an exercise preserves the collection invariant.
pub proof fn lemma_add_wf(c: Seq<DayEntryV>, date: Seq<u8>, e: ExerciseV)
    requires
        wf(c),
    ensures
        wf(spec_add(c, date, e)),
{
    lemma_find_day(c, date);
}

/// When no entry before `i` holds `date` and the entry at `i` does,
/// `find_day` returns `i`.
pub proof fn lemma_find_day_at(c: Seq<DayEntryV>, date: Seq<u8>, i: int)
    requires
        0 <= i < c.len(),
        c[i].date == date,
        forall|j: int| 0 <= j < i ==> c[j].date != date,
    ensures
        find_day(c, date) == Some(i),
    decreases c.len(),
{
    if i > 0 {
        lemma_find_day_at(c.skip(1), date, i - 1);
    }
}

/// Exact byte-string equality, the grouping rule for dates and labels.
pub fn bytes_eq(a: &Vec<u8>, b: &Vec<u8>) -> (r: bool)
    ensures
        r == (a@ == b@),
{
    if a.len() != b.len() {
        proof {
            assert(a@ != b@) by {
                assert(a@.len() != b@.len());
            }
        }
        return false;
    }
    let mut i: usize = 0;
    while i < a.len()
        invariant
            a@.len() == b@.len(),
            i <= a@.len(),
            forall|j: int| 0 <= j < i ==> a@[j] == b@[j],
        decreases a@.len() - i,
    {
        if a[i] != b[i] {
            return false;
        }
        i += 1;
    }
    proof {
        assert(a@ =~= b@);
    }
    true
}

/// A one-element vector.
fn vec_of_one(e: Exercise) -> (v: Vec<Exercise>)
    ensures
        v@ =~= seq![e],
{
    let mut v: Vec<Exercise> = Vec::new();
    v.push(e);
    v
}

} // verus!
