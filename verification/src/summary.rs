//! The summary report: totals over every exercise of the collection,
//! and per-label aggregation keyed by exact byte-string equality.

use vstd::prelude::*;

use crate::model::DayEntryV;
use crate::model::ExerciseV;
use crate::model::bytes_eq;
use crate::workflow::copy_bytes;

verus! {

/// Every exercise of the collection, day by day in stored order.
pub open spec fn all_exercises(c: Seq<DayEntryV>) -> Seq<ExerciseV>
    decreases c.len(),
{
    if c.len() == 0 {
        Seq::empty()
    } else {
        all_exercises(c.drop_last()) + c.last().exercises
    }
}

/// The sum of the `sets` fields.
pub open spec fn sum_sets(es: Seq<ExerciseV>) -> int
    decreases es.len(),
{
    if es.len() == 0 {
        0
    } else {
        sum_sets(es.drop_last()) + es.last().sets
    }
}

/// The sum of `sets * reps` over every exercise: the total number of
/// repetitions performed.
pub open spec fn sum_reps(es: Seq<ExerciseV>) -> int
    decreases es.len(),
{
    if es.len() == 0 {
        0
    } else {
        sum_reps(es.drop_last()) + es.last().sets * es.last().reps
    }
}

/// The sum of the `sets` fields over the exercises labelled `l`.
pub open spec fn label_sets(es: Seq<ExerciseV>, l: Seq<u8>) -> int
    decreases es.len(),
{
    if es.len() == 0 {
        0
    } else {
        label_sets(es.drop_last(), l) + if es.last().label == l {
            es.last().sets as int
        } else {
            0
        }
    }
}

/// The sum of `sets * reps` over the exercises labelled `l`.
pub open spec fn label_reps(es: Seq<ExerciseV>, l: Seq<u8>) -> int
    decreases es.len(),
{
    if es.len() == 0 {
        0
    } else {
        label_reps(es.drop_last(), l) + if es.last().label == l {
            es.last().sets * es.last().reps
        } else {
            0
        }
    }
}

/// Whether some exercise carries the label `l`.
pub open spec fn occurs(es: Seq<ExerciseV>, l: Seq<u8>) -> bool {
    exists|i: int| 0 <= i < es.len() && es[i].label == l
}

/// The aggregated totals for one exercise label.
pub struct LabelTotal {
    pub label: Vec<u8>,
    pub sets: u64,
    pub reps: u64,
}

/// The mathematical value of a `LabelTotal`.
#[verifier::ext_equal]
pub ghost struct LabelTotalV {
    pub label: Seq<u8>,
    pub sets: u64,
    pub reps: u64,
}

impl View for LabelTotal {
    type V = LabelTotalV;

    open spec fn view(&self) -> LabelTotalV {
        LabelTotalV { label: self.label@, sets: self.sets, reps: self.reps }
    }
}

/// The summary report: the number of exercises logged, the grand
/// totals, and one aggregate per distinct label.
pub struct Summary {
    pub count: u64,
    pub total_sets: u64,
    pub total_reps: u64,
    pub by_label: Vec<LabelTotal>,
}

/// What a correct per-label aggregation of `es` is: one entry per
/// distinct label occurring in `es`, carrying that label's exact sums.
pub open spec fn by_label_correct(bl: Seq<LabelTotalV>, es: Seq<ExerciseV>) -> bool {
    &&& forall|k: int, k2: int| 0 <= k < k2 < bl.len() ==> bl[k].label != bl[k2].label
    &&& forall|k: int|
        0 <= k < bl.len() ==> occurs(es, bl[k].label) && bl[k].sets == label_sets(es, bl[k].label)
            && bl[k].reps == label_reps(es, bl[k].label)
    &&& forall|i: int|
        0 <= i < es.len() ==> exists|k: int| 0 <= k < bl.len() && bl[k].label == #[trigger] es[i].label
}

/// Whether the totals of `es` fit the report's `u64` fields.
pub open spec fn totals_fit(es: Seq<ExerciseV>) -> bool {
    &&& es.len() <= u64::MAX
    &&& sum_sets(es) <= u64::MAX
    &&& sum_reps(es) <= u64::MAX
}

/// Sums only grow along a prefix: the totals of `es.take(i)` are
/// bounded by the totals of `es`.
pub proof fn lemma_sums_monotone(es: Seq<ExerciseV>, i: int)
    requires
        0 <= i <= es.len(),
    ensures
        0 <= sum_sets(es.take(i)) <= sum_sets(es),
        0 <= sum_reps(es.take(i)) <= sum_reps(es),
    decreases es.len(),
{
    if es.len() == 0 {
    } else if i == es.len() {
        lemma_sums_monotone(es.drop_last(), i - 1);
        assert(es.take(i) =~= es);
        assert(es.drop_last().take(i - 1) =~= es.drop_last());
    } else {
        lemma_sums_monotone(es.drop_last(), i);
        assert(es.drop_last().take(i) =~= es.take(i));
    }
}

/// A label's sums are bounded by the grand sums, and are zero when the
/// label does not occur.
pub proof fn lemma_label_sums(es: Seq<ExerciseV>, l: Seq<u8>)
    ensures
        0 <= label_sets(es, l) <= sum_sets(es),
        0 <= label_reps(es, l) <= sum_reps(es),
        !occurs(es, l) ==> label_sets(es, l) == 0 && label_reps(es, l) == 0,
    decreases es.len(),
{
    if es.len() > 0 {
        lemma_label_sums(es.drop_last(), l);
        if !occurs(es, l) {
            assert(!occurs(es.drop_last(), l)) by {
                assert forall|i: int|
                    0 <= i < es.drop_last().len() implies es.drop_last()[i].label != l by {
                    assert(es.drop_last()[i] == es[i]);
                }
            }
            assert(es.last() == es[es.len() - 1]);
        }
        lemma_sums_monotone(es, es.len() - 1);
        assert(es.take(es.len() - 1) =~= es.drop_last());
    }
}

/// Concatenation splits the sums.
pub proof fn lemma_sum_concat(a: Seq<ExerciseV>, b: Seq<ExerciseV>)
    ensures
        sum_sets(a + b) == sum_sets(a) + sum_sets(b),
        sum_reps(a + b) == sum_reps(a) + sum_reps(b),
    decreases b.len(),
{
    if b.len() == 0 {
        assert(a + b =~= a);
    } else {
        lemma_sum_concat(a, b.drop_last());
        assert((a + b).drop_last() =~= a + b.drop_last());
        assert((a + b).last() == b.last());
    }
}

/// One more day extends the flattened sequence by that day's exercises.
pub proof fn lemma_all_exercises_take_succ(c: Seq<DayEntryV>, i: int)
    requires
        0 <= i < c.len(),
    ensures
        all_exercises(c.take(i + 1)) == all_exercises(c.take(i)) + c[i].exercises,
{
    assert(c.take(i + 1).drop_last() =~= c.take(i));
    assert(c.take(i + 1).last() == c[i]);
}

/// The exercises of the first `i` days plus the first `j` exercises of
/// day `i` are bounded, in count and in sums, by the whole collection.
pub proof fn lemma_prefix_bound(c: Seq<DayEntryV>, i: int, j: int)
    requires
        0 <= i < c.len(),
        0 <= j <= c[i].exercises.len(),
    ensures
        ({
            let p = all_exercises(c.take(i)) + c[i].exercises.take(j);
            &&& p.len() <= all_exercises(c).len()
            &&& 0 <= sum_sets(p) <= sum_sets(all_exercises(c))
            &&& 0 <= sum_reps(p) <= sum_reps(all_exercises(c))
        }),
    decreases c.len(),
{
    let p = all_exercises(c.take(i)) + c[i].exercises.take(j);
    lemma_sums_monotone(p, 0);
    assert(p.take(0) =~= Seq::<ExerciseV>::empty());
    if i == c.len() - 1 {
        assert(c.take(i + 1) =~= c);
        lemma_all_exercises_take_succ(c, i);
        lemma_sum_concat(all_exercises(c.take(i)), c[i].exercises);
        lemma_sum_concat(all_exercises(c.take(i)), c[i].exercises.take(j));
        lemma_sums_monotone(c[i].exercises, j);
    } else {
        let cd = c.drop_last();
        assert(cd.take(i) =~= c.take(i));
        assert(cd[i] == c[i]);
        lemma_prefix_bound(cd, i, j);
        lemma_sum_concat(all_exercises(cd), c.last().exercises);
        lemma_sums_monotone(c.last().exercises, 0);
        assert(c.last().exercises.take(0) =~= Seq::<ExerciseV>::empty());
    }
}

/// The view of a per-label aggregation vector.
pub open spec fn by_label_view(bl: Seq<LabelTotal>) -> Seq<LabelTotalV> {
    bl.map_values(|t: LabelTotal| t@)
}

impl Summary {
    /// Compute the summary report over a collection. Returns `None`
    /// exactly when a total would not fit the report's `u64` fields;
    /// otherwise every total is exact and the per-label aggregation
    /// holds one entry for each distinct label.
    pub fn compute(c: &crate::model::Collection) -> (r: Option<Summary>)
        ensures
            ({
                let es = all_exercises(c@);
                &&& (r is Some <==> totals_fit(es))
                &&& (r matches Some(s) ==> s.count == es.len() && s.total_sets == sum_sets(es)
                    && s.total_reps == sum_reps(es) && by_label_correct(by_label_view(s.by_label@), es))
            }),
    {
        let ghost es_all = all_exercises(c@);
        let mut count: u64 = 0;
        let mut tsets: u64 = 0;
        let mut treps: u64 = 0;
        let mut by: Vec<LabelTotal> = Vec::new();
        let ghost mut processed = Seq::<ExerciseV>::empty();
        let nd = c.num_days();
        let mut i: usize = 0;
        while i < nd
            invariant
                nd == c@.len(),
                i <= nd,
                processed == all_exercises(c@.take(i as int)),
                count == processed.len(),
                tsets == sum_sets(processed),
                treps == sum_reps(processed),
                by_label_correct(by_label_view(by@), processed),
                es_all == all_exercises(c@),
            decreases nd - i,
        {
            let ne = c.num_exercises(i);
            let mut j: usize = 0;
            while j < ne
                invariant
                    nd == c@.len(),
                    i < nd,
                    ne == c@[i as int].exercises.len(),
                    j <= ne,
                    processed == all_exercises(c@.take(i as int)) + c@[i as int].exercises.take(
                        j as int,
                    ),
                    count == processed.len(),
                    tsets == sum_sets(processed),
                    treps == sum_reps(processed),
                    by_label_correct(by_label_view(by@), processed),
                    es_all == all_exercises(c@),
                decreases ne - j,
            {
                let ghost e_v = c@[i as int].exercises[j as int];
                let ex = c.get_exercise(i, j);
                proof {
                    assert(processed.push(e_v) =~= all_exercises(c@.take(i as int)) + c@[
                        i as int
                    ].exercises.take(j + 1));
                    lemma_prefix_bound(c@, i as int, j + 1);
                    assert(processed.push(e_v).drop_last() =~= processed);
                    assert(processed.push(e_v).last() == e_v);
                }
                if count == u64::MAX {
                    return None;
                }
                proof {
                    assert((e_v.sets as u64) * (e_v.reps as u64) <= (u32::MAX as u64) * (
                    u32::MAX as u64)) by (nonlinear_arith)
                        requires
                            e_v.sets <= u32::MAX,
                            e_v.reps <= u32::MAX,
                    ;
                }
                let prod: u64 = (ex.sets as u64) * (ex.reps as u64);
                if (ex.sets as u64) > u64::MAX - tsets {
                    return None;
                }
                if prod > u64::MAX - treps {
                    return None;
                }
                count = count + 1;
                tsets = tsets + ex.sets as u64;
                treps = treps + prod;
                update_label(&mut by, &ex.label, ex.sets as u64, prod, Ghost(processed), Ghost(
                    e_v,
                ));
                proof {
                    processed = processed.push(e_v);
                }
                j += 1;
            }
            proof {
                lemma_all_exercises_take_succ(c@, i as int);
                assert(c@[i as int].exercises.take(ne as int) =~= c@[i as int].exercises);
            }
            i += 1;
        }
        proof {
            assert(c@.take(nd as int) =~= c@);
        }
        Some(Summary { count, total_sets: tsets, total_reps: treps, by_label: by })
    }
}

/// Fold one exercise into the per-label aggregation: merge into the
/// entry carrying its label, or open a new entry for a fresh label.
#[verifier::loop_isolation(false)]
fn update_label(
    by: &mut Vec<LabelTotal>,
    label: &Vec<u8>,
    sets: u64,
    reps: u64,
    Ghost(processed): Ghost<Seq<ExerciseV>>,
    Ghost(e): Ghost<ExerciseV>,
)
    requires
        by_label_correct(by_label_view(old(by)@), processed),
        e.label == label@,
        sets == e.sets,
        reps == e.sets * e.reps,
        sum_sets(processed.push(e)) <= u64::MAX,
        sum_reps(processed.push(e)) <= u64::MAX,
    ensures
        by_label_correct(by_label_view(final(by)@), processed.push(e)),
{
    let ghost p2 = processed.push(e);
    proof {
        assert(p2.drop_last() =~= processed);
        assert(p2.last() == e);
        lemma_label_sums(p2, label@);
        lemma_label_sums(processed, label@);
        assert(occurs(p2, label@)) by {
            assert(p2[p2.len() - 1].label == label@);
        }
    }
    let n = by.len();
    let mut k: usize = 0;
    while k < n
        invariant
            k <= n,
            *by == *old(by),
            forall|k2: int| 0 <= k2 < k ==> by_label_view(by@)[k2].label != label@,
        decreases n - k,
    {
        if bytes_eq(&by[k].label, label) {
            let mut t = by.remove(k);
            proof {
                let bv0 = by_label_view(old(by)@);
                assert(t == old(by)@[k as int]);
                assert(bv0[k as int] == old(by)@[k as int]@);
                assert(bv0[k as int].label == label@);
                assert(t@.sets == label_sets(processed, label@));
                assert(t@.reps == label_reps(processed, label@));
                assert(label_sets(p2, label@) == label_sets(processed, label@) + sets);
                assert(label_reps(p2, label@) == label_reps(processed, label@) + reps);
                assert(label_sets(p2, label@) <= sum_sets(p2));
                assert(label_reps(p2, label@) <= sum_reps(p2));
            }
            t.sets = t.sets + sets;
            t.reps = t.reps + reps;
            by.insert(k, t);
            proof {
                let bv0 = by_label_view(old(by)@);
                let bv = by_label_view(by@);
                assert(bv =~~= bv0.update(
                    k as int,
                    LabelTotalV {
                        label: label@,
                        sets: (bv0[k as int].sets + sets) as u64,
                        reps: (bv0[k as int].reps + reps) as u64,
                    },
                ));
                assert forall|k2: int|
                    0 <= k2 < bv.len() implies occurs(p2, bv[k2].label) && bv[k2].sets
                    == label_sets(p2, bv[k2].label) && bv[k2].reps == label_reps(
                    p2,
                    bv[k2].label,
                ) by {
                    if k2 != k {
                        assert(bv[k2] == bv0[k2]);
                        assert(bv0[k2].label != label@);
                        let i0 = choose|i: int|
                            0 <= i < processed.len() && processed[i].label == bv0[k2].label;
                        assert(p2[i0].label == bv0[k2].label);
                    }
                }
                assert forall|i: int|
                    0 <= i < p2.len() implies exists|k2: int|
                        0 <= k2 < bv.len() && bv[k2].label == #[trigger] p2[i].label by {
                    if i < processed.len() {
                        assert(p2[i] == processed[i]);
                        let k2 = choose|k2: int|
                            0 <= k2 < bv0.len() && bv0[k2].label == processed[i].label;
                        assert(bv[k2].label == p2[i].label);
                    } else {
                        assert(bv[k as int].label == p2[i].label);
                    }
                }
            }
            return;
        }
        k += 1;
    }
    proof {
        assert(!occurs(processed, label@)) by {
            if occurs(processed, label@) {
                let i0 = choose|i: int|
                    0 <= i < processed.len() && processed[i].label == label@;
                let k2 = choose|k2: int|
                    0 <= k2 < by_label_view(by@).len() && by_label_view(by@)[k2].label
                        == processed[i0].label;
                assert(by_label_view(by@)[k2].label != label@);
            }
        }
    }
    let t = LabelTotal { label: copy_bytes(label), sets, reps };
    by.push(t);
    proof {
        let bv0 = by_label_view(old(by)@);
        let bv = by_label_view(by@);
        assert(bv =~~= bv0.push(LabelTotalV { label: label@, sets, reps }));
        assert forall|k2: int|
            0 <= k2 < bv.len() implies occurs(p2, bv[k2].label) && bv[k2].sets == label_sets(
            p2,
            bv[k2].label,
        ) && bv[k2].reps == label_reps(p2, bv[k2].label) by {
            if k2 < bv0.len() {
                assert(bv[k2] == bv0[k2]);
                assert(bv0[k2].label != label@);
                let i0 = choose|i: int|
                    0 <= i < processed.len() && processed[i].label == bv0[k2].label;
                assert(p2[i0].label == bv0[k2].label);
            } else {
                assert(bv[k2].label == label@);
            }
        }
        assert forall|i: int|
            0 <= i < p2.len() implies exists|k2: int|
                0 <= k2 < bv.len() && bv[k2].label == #[trigger] p2[i].label by {
            if i < processed.len() {
                assert(p2[i] == processed[i]);
                let k2 = choose|k2: int|
                    0 <= k2 < bv0.len() && bv0[k2].label == processed[i].label;
                assert(bv[k2].label == p2[i].label);
            } else {
                assert(bv[bv.len() - 1].label == p2[i].label);
            }
        }
    }
}

} // verus!

