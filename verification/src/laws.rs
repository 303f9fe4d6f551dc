//! Laws of the strike search, stated and proved once for all inputs.
use vstd::prelude::*;
use crate::average::{
    avg_le, eval_avg, eval_den, eval_num, grade_den, grade_num, AverageView,
};
use crate::records::{is_candidate, GradeView, ModuleView};
use crate::strike::{admissible, is_best_avg, labels_of, struck_credits, valid_strike};

verus! {

/// Striking nothing is always a valid, admissible combination, and its
/// average is the plain weighted average over all records.
pub proof fn lemma_strike_nothing_admissible(ms: Seq<ModuleView>)
    ensures
        valid_strike(ms, Seq::<int>::empty()),
        struck_credits(ms, Seq::<int>::empty()) == 0,
        admissible(ms, Seq::<int>::empty()),
        labels_of(ms, Seq::<int>::empty()) =~= Seq::<Seq<char>>::empty(),
        eval_avg(ms, labels_of(ms, Seq::<int>::empty())) == eval_avg(
            ms,
            Seq::<Seq<char>>::empty(),
        ),
{
    assert(labels_of(ms, Seq::<int>::empty()) =~= Seq::<Seq<char>>::empty());
}

/// The best average over all admissible combinations is never worse
/// than the strike-nothing average.
pub proof fn lemma_best_not_above_baseline(ms: Seq<ModuleView>, best: AverageView)
    requires
        is_best_avg(ms, best),
    ensures
        avg_le(best, eval_avg(ms, Seq::<Seq<char>>::empty())),
{
    lemma_strike_nothing_admissible(ms);
    assert(admissible(ms, Seq::<int>::empty()));
    assert(avg_le(best, eval_avg(ms, labels_of(ms, Seq::<int>::empty()))));
}

/// A record whose terms are zero affects no evaluation.
proof fn lemma_eval_remove(ms: Seq<ModuleView>, i: int, struck: Seq<Seq<char>>)
    requires
        0 <= i < ms.len(),
        grade_num(ms[i]) == 0,
        grade_den(ms[i]) == 0,
    ensures
        eval_num(ms.remove(i), struck) == eval_num(ms, struck),
        eval_den(ms.remove(i), struck) == eval_den(ms, struck),
    decreases ms.len(),
{
    if i == ms.len() - 1 {
        assert(ms.remove(i) =~= ms.drop_last());
    } else {
        assert(ms.drop_last()[i] == ms[i]);
        lemma_eval_remove(ms.drop_last(), i, struck);
        assert(ms.remove(i).drop_last() =~= ms.drop_last().remove(i));
        assert(ms.remove(i).last() == ms.last());
    }
}

/// A record with weight modifier zero never appears in a valid strike
/// set and never affects any average's numerator or denominator.
pub proof fn lemma_zero_weight_inert(ms: Seq<ModuleView>, i: int, struck: Seq<Seq<char>>)
    requires
        0 <= i < ms.len(),
        ms[i].weight_modifier == 0,
    ensures
        eval_num(ms.remove(i), struck) == eval_num(ms, struck),
        eval_den(ms.remove(i), struck) == eval_den(ms, struck),
        forall|s: Seq<int>| #[trigger] valid_strike(ms, s) ==> !s.contains(i),
{
    assert(grade_num(ms[i]) == 0) by {
        match ms[i].grade {
            GradeView::Numeric(g) => {
                assert(g * ms[i].credits * 0 == 0) by (nonlinear_arith);
            },
            GradeView::Passed => {},
        }
    }
    assert(grade_den(ms[i]) == 0) by {
        match ms[i].grade {
            GradeView::Numeric(_) => {
                assert(ms[i].credits * 0 == 0) by (nonlinear_arith);
            },
            GradeView::Passed => {},
        }
    }
    lemma_eval_remove(ms, i, struck);
    assert forall|s: Seq<int>| #[trigger] valid_strike(ms, s) implies !s.contains(i) by {
        if s.contains(i) {
            let k = choose|k: int| 0 <= k < s.len() && s[k] == i;
            assert(is_candidate(ms[s[k]]));
            assert(false);
        }
    }
}

/// A passed record never appears in a valid strike set and never
/// affects any average's numerator or denominator.
pub proof fn lemma_passed_inert(ms: Seq<ModuleView>, i: int, struck: Seq<Seq<char>>)
    requires
        0 <= i < ms.len(),
        ms[i].grade is Passed,
    ensures
        eval_num(ms.remove(i), struck) == eval_num(ms, struck),
        eval_den(ms.remove(i), struck) == eval_den(ms, struck),
        forall|s: Seq<int>| #[trigger] valid_strike(ms, s) ==> !s.contains(i),
{
    lemma_eval_remove(ms, i, struck);
    assert forall|s: Seq<int>| #[trigger] valid_strike(ms, s) implies !s.contains(i) by {
        if s.contains(i) {
            let k = choose|k: int| 0 <= k < s.len() && s[k] == i;
            assert(is_candidate(ms[s[k]]));
            assert(false);
        }
    }
}

/// Every admissible strike set keeps within the credit cap and strikes
/// at most one candidate per category.
pub proof fn lemma_admissible_shape(ms: Seq<ModuleView>, s: Seq<int>)
    requires
        admissible(ms, s),
    ensures
        struck_credits(ms, s) <= crate::STRIKE_CAP_CENTI as int,
        forall|k: int|
            0 <= k < s.len() ==> 0 <= #[trigger] s[k] < ms.len() && is_candidate(ms[s[k]]),
        forall|k1: int, k2: int|
            0 <= k1 < k2 < s.len() ==> ms[s[k1]].category != ms[s[k2]].category,
{
}

} // verus!
