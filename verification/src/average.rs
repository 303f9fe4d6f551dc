//! The weighted average grade as an exact rational, and its total
//! order.
//!
//! For a set of struck labels, a record contributes to the average iff
//! its grade is numeric and its label is not struck; its numerator term
//! is `grade * credits * weight_modifier` and its denominator term is
//! `credits * weight_modifier`, so passed records and zero-weight
//! records never contribute. A zero denominator means the average is
//! undefined; the order places every defined average below every
//! undefined one, and compares defined averages by cross
//! multiplication, so the order is total and never selects an undefined
//! average over a defined one.
use vstd::prelude::*;
use crate::records::{records_wf, views, Grade, GradeView, Module, ModuleView};
use crate::text::contains_str;

verus! {

/// Largest possible numerator: every record at the largest quantities.
pub const AVG_NUM_BOUND: u128 = 1_000_000_000_000_000_000_000;

/// Largest possible denominator.
pub const AVG_DEN_BOUND: u128 = 10_000_000_000_000_000;

/// A weighted average as an exact rational in centi-grade units; a
/// zero denominator means the average is undefined (no graded,
/// weighted record was included).
#[derive(Debug, Clone, Copy, PartialEq, Eq, Structural)]
pub struct Average {
    pub num: u128,
    pub den: u128,
}

pub struct AverageView {
    pub num: int,
    pub den: int,
}

impl View for Average {
    type V = AverageView;

    open spec fn view(&self) -> AverageView {
        AverageView { num: self.num as int, den: self.den as int }
    }
}

pub open spec fn avg_wf(a: AverageView) -> bool {
    &&& 0 <= a.num <= AVG_NUM_BOUND as int
    &&& 0 <= a.den <= AVG_DEN_BOUND as int
}

/// Numerator term of one record.
pub open spec fn grade_num(m: ModuleView) -> int {
    match m.grade {
        GradeView::Numeric(g) => g * m.credits * m.weight_modifier,
        GradeView::Passed => 0,
    }
}

/// Denominator term of one record.
pub open spec fn grade_den(m: ModuleView) -> int {
    match m.grade {
        GradeView::Numeric(_) => m.credits * m.weight_modifier,
        GradeView::Passed => 0,
    }
}

/// A record is included unless its label is struck.
pub open spec fn included(m: ModuleView, struck: Seq<Seq<char>>) -> bool {
    !struck.contains(m.label)
}

pub open spec fn eval_num(ms: Seq<ModuleView>, struck: Seq<Seq<char>>) -> int
    decreases ms.len(),
{
    if ms.len() == 0 {
        0
    } else {
        eval_num(ms.drop_last(), struck) + if included(ms.last(), struck) {
            grade_num(ms.last())
        } else {
            0
        }
    }
}

pub open spec fn eval_den(ms: Seq<ModuleView>, struck: Seq<Seq<char>>) -> int
    decreases ms.len(),
{
    if ms.len() == 0 {
        0
    } else {
        eval_den(ms.drop_last(), struck) + if included(ms.last(), struck) {
            grade_den(ms.last())
        } else {
            0
        }
    }
}

/// The weighted average of the records not struck.
pub open spec fn eval_avg(ms: Seq<ModuleView>, struck: Seq<Seq<char>>) -> AverageView {
    AverageView { num: eval_num(ms, struck), den: eval_den(ms, struck) }
}

/// Total order on averages: defined averages by value, and every
/// defined average below every undefined one.
pub open spec fn avg_le(a: AverageView, b: AverageView) -> bool {
    if b.den == 0 {
        true
    } else if a.den == 0 {
        false
    } else {
        a.num * b.den <= b.num * a.den
    }
}

/// Averages of equal value (undefined averages are all equal).
pub open spec fn avg_eq(a: AverageView, b: AverageView) -> bool {
    avg_le(a, b) && avg_le(b, a)
}

pub proof fn lemma_avg_le_total(a: AverageView, b: AverageView)
    ensures
        avg_le(a, b) || avg_le(b, a),
{
}

pub proof fn lemma_avg_le_refl(a: AverageView)
    ensures
        avg_le(a, a),
{
}

pub proof fn lemma_avg_le_trans(a: AverageView, b: AverageView, c: AverageView)
    requires
        avg_wf(a),
        avg_wf(b),
        avg_wf(c),
        avg_le(a, b),
        avg_le(b, c),
    ensures
        avg_le(a, c),
{
    if c.den != 0 && b.den != 0 && a.den != 0 {
        assert(a.num * c.den <= c.num * a.den) by (nonlinear_arith)
            requires
                a.num * b.den <= b.num * a.den,
                b.num * c.den <= c.num * b.den,
                a.den > 0,
                b.den > 0,
                c.den > 0,
                a.num >= 0,
                b.num >= 0,
                c.num >= 0,
        ;
    }
}

/// The average depends only on which labels are struck, not on the
/// order or multiplicity of the struck-label list.
pub proof fn lemma_eval_same_membership(
    ms: Seq<ModuleView>,
    l1: Seq<Seq<char>>,
    l2: Seq<Seq<char>>,
)
    requires
        forall|x: Seq<char>| l1.contains(x) <==> l2.contains(x),
    ensures
        eval_num(ms, l1) == eval_num(ms, l2),
        eval_den(ms, l1) == eval_den(ms, l2),
        eval_avg(ms, l1) == eval_avg(ms, l2),
    decreases ms.len(),
{
    if ms.len() > 0 {
        lemma_eval_same_membership(ms.drop_last(), l1, l2);
        assert(included(ms.last(), l1) == included(ms.last(), l2));
    }
}

/// Runtime comparison under the order.
pub fn avg_le_exec(a: &Average, b: &Average) -> (r: bool)
    requires
        avg_wf(a@),
        avg_wf(b@),
    ensures
        r == avg_le(a@, b@),
{
    if b.den == 0 {
        true
    } else if a.den == 0 {
        false
    } else {
        proof {
            assert(a.num * b.den <= AVG_NUM_BOUND * AVG_DEN_BOUND) by (nonlinear_arith)
                requires
                    0 <= a.num <= AVG_NUM_BOUND,
                    0 <= b.den <= AVG_DEN_BOUND,
            ;
            assert(b.num * a.den <= AVG_NUM_BOUND * AVG_DEN_BOUND) by (nonlinear_arith)
                requires
                    0 <= b.num <= AVG_NUM_BOUND,
                    0 <= a.den <= AVG_DEN_BOUND,
            ;
        }
        a.num * b.den <= b.num * a.den
    }
}

/// Runtime equality under the order.
pub fn avg_eq_exec(a: &Average, b: &Average) -> (r: bool)
    requires
        avg_wf(a@),
        avg_wf(b@),
    ensures
        r == avg_eq(a@, b@),
{
    let le = avg_le_exec(a, b);
    let ge = avg_le_exec(b, a);
    le && ge
}

/// Evaluates the weighted average over all records whose label is not
/// in `struck`.
pub fn calculate_grade(modules: &Vec<Module>, struck: &Vec<String>) -> (r: Average)
    requires
        records_wf(views(modules@)),
        modules@.len() <= crate::MAX_RECORDS as int,
    ensures
        r@ == eval_avg(views(modules@), struck.deep_view()),
        avg_wf(r@),
{
    let ghost ms = views(modules@);
    let ghost sk = struck.deep_view();
    let mut num: u128 = 0;
    let mut den: u128 = 0;
    let mut i: usize = 0;
    proof {
        assert(ms.take(0) =~= Seq::<ModuleView>::empty());
    }
    while i < modules.len()
        invariant
            ms == views(modules@),
            sk == struck.deep_view(),
            records_wf(ms),
            ms.len() == modules@.len() <= crate::MAX_RECORDS as int,
            i <= modules@.len(),
            num == eval_num(ms.take(i as int), sk),
            den == eval_den(ms.take(i as int), sk),
            num <= (i as int) * 1_000_000_000_000_000,
            den <= (i as int) * 10_000_000_000,
        decreases modules@.len() - i,
    {
        let m = &modules[i];
        proof {
            assert(ms[i as int] == m@);
            assert(ms.take(i + 1).drop_last() =~= ms.take(i as int));
            assert(ms.take(i + 1).last() == ms[i as int]);
            assert(module_bounds(m@));
        }
        let struck_here = contains_str(struck, m.label.as_str());
        assert(struck_here == !included(m@, sk));
        if !struck_here {
            match m.grade {
                Grade::Numeric(g) => {
                    proof {
                        assert((g as int) * (m.credits as int) * (m.weight_modifier as int)
                            <= 1_000_000_000_000_000int && (m.credits as int) * (
                        m.weight_modifier as int) <= 10_000_000_000int && (g as int) * (
                        m.credits as int) * (m.weight_modifier as int) >= 0 && (m.credits as int) * (
                        m.weight_modifier as int) >= 0) by (nonlinear_arith)
                            requires
                                0 <= g as int <= 100000,
                                0 <= m.credits as int <= 100000,
                                0 <= m.weight_modifier as int <= 100000,
                        ;
                        assert((i as int) * 1_000_000_000_000_000 + 1_000_000_000_000_000 == (i + 1)
                            * 1_000_000_000_000_000) by (nonlinear_arith);
                        assert((i as int) * 10_000_000_000 + 10_000_000_000 == (i + 1)
                            * 10_000_000_000) by (nonlinear_arith);
                        assert((i + 1) * 1_000_000_000_000_000 <= 1_000_000 *
                        1_000_000_000_000_000) by (nonlinear_arith)
                            requires
                                i + 1 <= 1_000_000,
                        ;
                        assert((i + 1) * 10_000_000_000 <= 1_000_000 * 10_000_000_000)
                            by (nonlinear_arith)
                            requires
                                i + 1 <= 1_000_000,
                        ;
                    }
                    proof {
                        assert((g as int) * ((m.credits as int) * (m.weight_modifier as int))
                            == (g as int) * (m.credits as int) * (m.weight_modifier as int))
                            by (nonlinear_arith);
                    }
                    let cw: u128 = (m.credits as u128) * (m.weight_modifier as u128);
                    let term: u128 = (g as u128) * cw;
                    num = num + term;
                    den = den + cw;
                },
                Grade::Passed => {
                    proof {
                        lemma_step_bound(i as int);
                    }
                },
            }
        } else {
            proof {
                lemma_step_bound(i as int);
            }
        }
        i += 1;
    }
    proof {
        assert(ms.take(i as int) =~= ms);
        assert((i as int) * 1_000_000_000_000_000 <= 1_000_000 * 1_000_000_000_000_000)
            by (nonlinear_arith)
            requires
                i as int <= 1_000_000,
        ;
        assert((i as int) * 10_000_000_000 <= 1_000_000 * 10_000_000_000) by (nonlinear_arith)
            requires
                i as int <= 1_000_000,
        ;
    }
    Average { num, den }
}

/// The per-record quantity bounds, as the evaluator uses them.
pub open spec fn module_bounds(m: ModuleView) -> bool {
    crate::records::module_wf(m)
}

proof fn lemma_step_bound(i: int)
    requires
        i >= 0,
    ensures
        i * 1_000_000_000_000_000 <= (i + 1) * 1_000_000_000_000_000,
        i * 10_000_000_000 <= (i + 1) * 10_000_000_000,
{
    assert(i * 1_000_000_000_000_000 <= (i + 1) * 1_000_000_000_000_000) by (nonlinear_arith)
        requires
            i >= 0,
    ;
    assert(i * 10_000_000_000 <= (i + 1) * 10_000_000_000) by (nonlinear_arith)
        requires
            i >= 0,
    ;
}

} // verus!
