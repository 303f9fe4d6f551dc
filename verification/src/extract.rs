//! The transcript row interpreter: a stateful scan over rows of cell
//! text that reconstructs course records and the section (category)
//! each belongs to.
//!
//! Two row shapes are recognized: nine cells
//! `[id, kind, name, grade, annotation, recognized, credits, date, semester]`
//! and, for the final-thesis block only, eight cells with the kind
//! column absent. Any other shape is skipped. A `"RK"` row opens a new
//! section when none is open, or when the open section's remaining
//! credit quota has reached exactly zero and the row carries a positive
//! credit value (the heuristic that detects a section boundary without
//! an explicit delimiter). A `"MK"` row with a non-empty grade cell
//! emits a course record and decrements the open section's remaining
//! quota; the cursor stays open even at zero.
use vstd::prelude::*;
use crate::decimal::{numeral_centi, parse_centi};
use crate::decimal::lemma_numeral_in_range;
use crate::records::{
    lemma_lookup_weight_wf, lookup_weight, module_wf, records_wf, views, weight_table_wf, Grade,
    GradeView, Module, ModuleView, WeightTable,
};
use crate::text::{clone_string_vec, replace_line_breaks, spec_replace_breaks, str_eq};

verus! {

/// Why an extraction failed: an eight-cell row outside the final-thesis
/// block means the assumed layout does not hold; a course row with no
/// open section likewise.
#[derive(Debug, Clone, Copy, PartialEq, Eq, Structural)]
pub enum ErrorKind {
    ThesisLayout,
    NoOpenSection,
}

/// A fatal structural mismatch, with the index of the offending row in
/// the flattened row stream.
#[derive(Debug, Clone, Copy, PartialEq, Eq, Structural)]
pub struct ExtractError {
    pub row: usize,
    pub kind: ErrorKind,
}

/// The open section: its name and its remaining credit quota
/// (advisory bookkeeping; it may go negative).
pub struct SectionView {
    pub name: Seq<char>,
    pub remaining: int,
}

/// Outcome of interpreting one row.
pub enum StepView {
    Fatal(ErrorKind),
    Next(Option<SectionView>, Option<ModuleView>),
}

/// The interpreter state as mathematics: the open section, if any.
pub open spec fn sec_view(st: Option<(String, i128)>) -> Option<SectionView> {
    match st {
        None => None,
        Some(s) => Some(SectionView { name: s.0@, remaining: s.1 as int }),
    }
}

pub open spec fn opt_view(o: Option<Module>) -> Option<ModuleView> {
    match o {
        None => None,
        Some(m) => Some(m@),
    }
}

/// A course-shaped row: opens a section, is skipped, emits a record,
/// or reveals a structural failure.
pub open spec fn course_step(
    st: Option<SectionView>,
    kind: Seq<char>,
    name: Seq<char>,
    grade: Seq<char>,
    cp: Seq<char>,
    wt: Seq<(Seq<char>, int)>,
) -> StepView {
    let label = spec_replace_breaks(name);
    let credits = match numeral_centi(cp) {
        Some(v) => v,
        None => 0,
    };
    if kind == "RK"@ && (st is None || (st->Some_0.remaining == 0 && credits > 0)) {
        StepView::Next(Some(SectionView { name: label, remaining: credits }), None)
    } else if kind != "MK"@ || grade.len() == 0 {
        StepView::Next(st, None)
    } else if st is None {
        StepView::Fatal(ErrorKind::NoOpenSection)
    } else if st->Some_0.name == "Mastervorzugsfächer"@ {
        StepView::Next(st, None)
    } else {
        let sec = st->Some_0;
        let m = ModuleView {
            category: sec.name,
            label: label,
            grade: match numeral_centi(grade) {
                Some(g) => GradeView::Numeric(g),
                None => GradeView::Passed,
            },
            credits: credits,
            weight_modifier: lookup_weight(wt, label),
        };
        StepView::Next(
            Some(SectionView { name: sec.name, remaining: sec.remaining - credits }),
            Some(m),
        )
    }
}

/// One row of the stream. Nine cells are a course-shaped row; eight
/// cells open or continue the final-thesis block; anything else is
/// skipped.
pub open spec fn step_row(
    st: Option<SectionView>,
    row: Seq<Seq<char>>,
    wt: Seq<(Seq<char>, int)>,
) -> StepView {
    if row.len() == 9 {
        course_step(st, row[1], row[2], row[3], row[6], wt)
    } else if row.len() == 8 {
        if row[1] == "Abschlussarbeit"@ {
            StepView::Next(
                Some(SectionView { name: "Abschlussarbeit"@, remaining: 1500 }),
                None,
            )
        } else if !(st matches Some(s) && s.name == "Abschlussarbeit"@) {
            StepView::Fatal(ErrorKind::ThesisLayout)
        } else {
            course_step(st, "MK"@, row[1], row[2], row[5], wt)
        }
    } else {
        StepView::Next(st, None)
    }
}

/// Runs the interpreter over a row stream, from an empty state, and
/// yields the final state and the emitted records, or the first fatal
/// row and its kind.
pub open spec fn run_rows(rows: Seq<Seq<Seq<char>>>, wt: Seq<(Seq<char>, int)>) -> Result<
    (Option<SectionView>, Seq<ModuleView>),
    (int, ErrorKind),
>
    decreases rows.len(),
{
    if rows.len() == 0 {
        Ok((None, Seq::empty()))
    } else {
        match run_rows(rows.drop_last(), wt) {
            Err(e) => Err(e),
            Ok((st, ms)) => match step_row(st, rows.last(), wt) {
                StepView::Fatal(k) => Err((rows.len() - 1, k)),
                StepView::Next(st2, emitted) => Ok(
                    (
                        st2,
                        match emitted {
                            Some(m) => ms.push(m),
                            None => ms,
                        },
                    ),
                ),
            },
        }
    }
}

/// The records extracted from a list of tables: the interpreter run
/// over the concatenation of their rows.
pub open spec fn extract_spec(
    tables: Seq<Seq<Seq<Seq<char>>>>,
    wt: Seq<(Seq<char>, int)>,
) -> Result<Seq<ModuleView>, (int, ErrorKind)> {
    match run_rows(tables.flatten(), wt) {
        Ok(p) => Ok(p.1),
        Err(e) => Err(e),
    }
}

fn course_row(
    st: Option<(String, i128)>,
    kind: &str,
    name: &str,
    grade: &str,
    cp: &str,
    weights: &WeightTable,
) -> (r: (Option<(String, i128)>, Result<Option<Module>, ErrorKind>))
    requires
        weight_table_wf(weights@),
        (sec_view(st) matches Some(s) ==> s.remaining - 100000 > i128::MIN as int
            && s.remaining <= crate::MAX_CENTI as int),
    ensures
        match course_step(sec_view(st), kind@, name@, grade@, cp@, weights@) {
            StepView::Fatal(k) => r.1 == Err::<Option<Module>, ErrorKind>(k),
            StepView::Next(st2, em) => {
                &&& r.1 matches Ok(e) && opt_view(e) == em
                &&& sec_view(r.0) == st2
                &&& (em matches Some(m) ==> module_wf(m))
                &&& (st2 matches Some(s2) ==> s2.remaining <= crate::MAX_CENTI as int && (
                sec_view(st) matches Some(s1) ==> s2.remaining >= s1.remaining - 100000) && (sec_view(
                    st,
                ) is None ==> s2.remaining >= 0))
            },
        },
{
    let label: String = replace_line_breaks(name);
    let credits_u32: u32 = match parse_centi(cp) {
        Some(v) => v,
        None => 0,
    };
    proof {
        lemma_numeral_in_range(cp@);
    }
    let open_new: bool = if str_eq(kind, "RK") {
        match &st {
            None => true,
            Some(s) => s.1 == 0 && credits_u32 > 0,
        }
    } else {
        false
    };
    if open_new {
        return (Some((label, credits_u32 as i128)), Ok(None));
    }
    if !str_eq(kind, "MK") || grade.unicode_len() == 0 {
        return (st, Ok(None));
    }
    match st {
        None => (None, Err(ErrorKind::NoOpenSection)),
        Some((sec_name, rem)) => {
            if str_eq(sec_name.as_str(), "Mastervorzugsfächer") {
                (Some((sec_name, rem)), Ok(None))
            } else {
                let weight: u32 = weights.weight_of(label.as_str());
                proof {
                    lemma_lookup_weight_wf(weights@, label@);
                    lemma_numeral_in_range(grade@);
                }
                let g: Grade = match parse_centi(grade) {
                    Some(gv) => Grade::Numeric(gv),
                    None => Grade::Passed,
                };
                let category: String = sec_name.clone();
                let m = Module {
                    category,
                    label,
                    grade: g,
                    credits: credits_u32,
                    weight_modifier: weight,
                };
                (Some((sec_name, rem - (credits_u32 as i128))), Ok(Some(m)))
            }
        },
    }
}

/// Extraction failures are final: once a fatal row is reached, every
/// longer prefix of the stream fails at that same row.
proof fn lemma_run_rows_err_persists(
    rows: Seq<Seq<Seq<char>>>,
    wt: Seq<(Seq<char>, int)>,
    i: int,
    e: (int, ErrorKind),
)
    requires
        0 <= i <= rows.len(),
        run_rows(rows.take(i), wt) == Err::<(Option<SectionView>, Seq<ModuleView>), (int, ErrorKind)>(e),
    ensures
        run_rows(rows, wt) == Err::<(Option<SectionView>, Seq<ModuleView>), (int, ErrorKind)>(e),
    decreases rows.len(),
{
    if i == rows.len() {
        assert(rows.take(i) =~= rows);
    } else {
        assert(rows.drop_last().take(i) =~= rows.take(i));
        lemma_run_rows_err_persists(rows.drop_last(), wt, i, e);
    }
}

/// Runs the interpreter over a flat row stream.
pub fn extract_rows(rows: &Vec<Vec<String>>, weights: &WeightTable) -> (r: Result<
    Vec<Module>,
    ExtractError,
>)
    requires
        weight_table_wf(weights@),
    ensures
        match r {
            Ok(ms) => run_rows(rows.deep_view(), weights@) matches Ok(p) && p.1 == views(ms@)
                && records_wf(views(ms@)) && ms@.len() <= rows@.len(),
            Err(e) => run_rows(rows.deep_view(), weights@) == Err::<
                (Option<SectionView>, Seq<ModuleView>),
                (int, ErrorKind),
            >((e.row as int, e.kind)) && e.row < rows@.len(),
        },
{
    let ghost rd = rows.deep_view();
    let mut st: Option<(String, i128)> = None;
    let mut out: Vec<Module> = Vec::new();
    let mut i: usize = 0;
    proof {
        assert(rd.take(0) =~= Seq::<Seq<Seq<char>>>::empty());
        assert(views(out@) =~= Seq::<ModuleView>::empty());
    }
    while i < rows.len()
        invariant
            weight_table_wf(weights@),
            rd == rows.deep_view(),
            rd.len() == rows@.len(),
            i <= rows@.len(),
            run_rows(rd.take(i as int), weights@) == Ok::<
                (Option<SectionView>, Seq<ModuleView>),
                (int, ErrorKind),
            >((sec_view(st), views(out@))),
            records_wf(views(out@)),
            out@.len() <= i,
            (sec_view(st) matches Some(s) ==> s.remaining >= -100000 * (i as int)
                && s.remaining <= crate::MAX_CENTI as int),
        decreases rows@.len() - i,
    {
        let ghost old_st = sec_view(st);
        let ghost old_out = views(out@);
        let row = &rows[i];
        proof {
            assert(rd[i as int] == row.deep_view());
            assert(rd.take(i + 1).drop_last() =~= rd.take(i as int));
            assert(rd.take(i + 1).last() == rd[i as int]);
            assert((i as int) * (-100000) - 100000 == (i + 1) * (-100000)) by (nonlinear_arith);
            assert(-100000 * (i as int) - 100000 > i128::MIN as int) by {
                assert(i as int <= 0xffff_ffff_ffff_ffffint);
                assert(100000 * (i as int) <= 100000 * 0xffff_ffff_ffff_ffffint)
                    by (nonlinear_arith)
                    requires i as int <= 0xffff_ffff_ffff_ffffint;
            }
        }
        if row.len() == 9 {
            proof {
                assert(row.deep_view()[1] == row@[1]@);
                assert(row.deep_view()[2] == row@[2]@);
                assert(row.deep_view()[3] == row@[3]@);
                assert(row.deep_view()[6] == row@[6]@);
            }
            let (st2, res) = course_row(
                st,
                row[1].as_str(),
                row[2].as_str(),
                row[3].as_str(),
                row[6].as_str(),
                weights,
            );
            match res {
                Ok(em) => {
                    st = st2;
                    match em {
                        Some(m) => {
                            out.push(m);
                            proof {
                                assert(views(out@) =~= old_out.push(m@));
                            }
                        },
                        None => (),
                    }
                },
                Err(k) => {
                    proof {
                        lemma_run_rows_err_persists(
                            rd,
                            weights@,
                            i + 1,
                            (i as int, k),
                        );
                    }
                    return Err(ExtractError { row: i, kind: k });
                },
            }
        } else if row.len() == 8 {
            proof {
                assert(row.deep_view()[1] == row@[1]@);
                assert(row.deep_view()[2] == row@[2]@);
                assert(row.deep_view()[5] == row@[5]@);
            }
            if str_eq(row[1].as_str(), "Abschlussarbeit") {
                st = Some((String::from_str("Abschlussarbeit"), 1500));
            } else {
                let thesis_open: bool = match &st {
                    Some(s) => str_eq(s.0.as_str(), "Abschlussarbeit"),
                    None => false,
                };
                if !thesis_open {
                    proof {
                        lemma_run_rows_err_persists(
                            rd,
                            weights@,
                            i + 1,
                            (i as int, ErrorKind::ThesisLayout),
                        );
                    }
                    return Err(ExtractError { row: i, kind: ErrorKind::ThesisLayout });
                }
                let (st2, res) = course_row(
                    st,
                    "MK",
                    row[1].as_str(),
                    row[2].as_str(),
                    row[5].as_str(),
                    weights,
                );
                match res {
                    Ok(em) => {
                        st = st2;
                        match em {
                            Some(m) => {
                                out.push(m);
                                proof {
                                    assert(views(out@) =~= old_out.push(m@));
                                }
                            },
                            None => (),
                        }
                    },
                    Err(k) => {
                        proof {
                            lemma_run_rows_err_persists(
                                rd,
                                weights@,
                                i + 1,
                                (i as int, k),
                            );
                        }
                        return Err(ExtractError { row: i, kind: k });
                    },
                }
            }
        } else {
            // skipped: not a recognized row shape
        }
        i += 1;
    }
    proof {
        assert(rd.take(i as int) =~= rd);
    }
    Ok(out)
}

/// Concatenates the rows of all tables, in order.
pub fn flatten_tables(tables: &Vec<Vec<Vec<String>>>) -> (r: Vec<Vec<String>>)
    ensures
        r.deep_view() == tables.deep_view().flatten(),
{
    let ghost td = tables.deep_view();
    let mut r: Vec<Vec<String>> = Vec::new();
    let mut t: usize = 0;
    proof {
        assert(td.take(0) =~= Seq::<Seq<Seq<Seq<char>>>>::empty());
        assert(td.take(0).flatten() =~= Seq::<Seq<Seq<char>>>::empty());
    }
    while t < tables.len()
        invariant
            td == tables.deep_view(),
            td.len() == tables@.len(),
            t <= tables@.len(),
            r.deep_view() == td.take(t as int).flatten(),
        decreases tables@.len() - t,
    {
        let table = &tables[t];
        let ghost base = r.deep_view();
        let mut j: usize = 0;
        proof {
            assert(td[t as int] == table.deep_view());
            assert(base + table.deep_view().take(0) =~= base);
        }
        while j < table.len()
            invariant
                td == tables.deep_view(),
                t < tables@.len(),
                td[t as int] == table.deep_view(),
                table.deep_view().len() == table@.len(),
                j <= table@.len(),
                r.deep_view() == base + table.deep_view().take(j as int),
            decreases table@.len() - j,
        {
            let ghost before = r.deep_view();
            let ghost before_raw = r@;
            let copied = clone_string_vec(&table[j]);
            proof {
                assert(table.deep_view()[j as int] == table@[j as int].deep_view());
            }
            r.push(copied);
            j += 1;
            proof {
                let newd = r.deep_view();
                let rhs = base + table.deep_view().take(j as int);
                assert(before.len() == before_raw.len());
                assert(before.len() == base.len() + j - 1);
                assert(r@ == before_raw.push(copied));
                assert(newd.len() == before_raw.len() + 1);
                assert(rhs.len() == base.len() + j);
                assert(newd.len() == rhs.len());
                assert forall|k: int| 0 <= k < newd.len() implies newd[k] == rhs[k] by {
                    if k < newd.len() - 1 {
                        assert(r@[k] == before_raw[k]);
                        assert(newd[k] == before[k]);
                        assert(before[k] == (base + table.deep_view().take(j - 1))[k]);
                        if k >= base.len() {
                            assert(table.deep_view().take(j - 1)[k - base.len()]
                                == table.deep_view().take(j as int)[k - base.len()]);
                        }
                    } else {
                        assert(newd[k] == copied.deep_view());
                        assert(rhs[k] == table.deep_view()[j - 1]);
                    }
                }
                assert(newd =~= rhs);
            }
        }
        t += 1;
        proof {
            assert(table.deep_view().take(table@.len() as int) =~= table.deep_view());
            assert(td.take(t as int).drop_last() =~= td.take(t - 1));
            assert(td.take(t - 1).push(td[t - 1]) =~= td.take(t as int));
            td.take(t - 1).lemma_flatten_push(td[t - 1]);
            assert(r.deep_view() =~= td.take(t as int).flatten());
        }
    }
    proof {
        assert(td.take(t as int) =~= td);
    }
    r
}

/// Extracts the course records from the tables of one transcript.
///
/// The result is a function of the input alone: extraction is
/// deterministic, and re-running it on the same rows yields the same
/// record list.
pub fn parse_tabula_output(tables: &Vec<Vec<Vec<String>>>, weights: &WeightTable) -> (r: Result<
    Vec<Module>,
    ExtractError,
>)
    requires
        weight_table_wf(weights@),
    ensures
        match r {
            Ok(ms) => extract_spec(tables.deep_view(), weights@) == Ok::<
                Seq<ModuleView>,
                (int, ErrorKind),
            >(views(ms@)) && records_wf(views(ms@)),
            Err(e) => extract_spec(tables.deep_view(), weights@) == Err::<
                Seq<ModuleView>,
                (int, ErrorKind),
            >((e.row as int, e.kind)),
        },
{
    let rows = flatten_tables(tables);
    extract_rows(&rows, weights)
}

} // verus!
