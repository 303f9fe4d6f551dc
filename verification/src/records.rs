//! Course records extracted from a transcript, and the weight table
//! that assigns some courses a non-default weight multiplier.
use vstd::prelude::*;
use crate::text::str_eq;

verus! {

/// A course grade: a bare passing mark, or a numeric score in
/// centi-units (a grade of 1.3 is 130; lower is better).
#[derive(Debug, Clone, Copy, PartialEq, Eq, Structural)]
pub enum Grade {
    Passed,
    Numeric(u32),
}

pub enum GradeView {
    Passed,
    Numeric(int),
}

impl View for Grade {
    type V = GradeView;

    open spec fn view(&self) -> GradeView {
        match *self {
            Grade::Passed => GradeView::Passed,
            Grade::Numeric(g) => GradeView::Numeric(g as int),
        }
    }
}

/// One course record. Credits and the weight modifier are exact
/// centi-unit quantities (7.5 credits is 750; weight 1.5 is 150).
#[derive(Debug, Clone, PartialEq)]
pub struct Module {
    pub category: String,
    pub label: String,
    pub grade: Grade,
    pub credits: u32,
    pub weight_modifier: u32,
}

pub struct ModuleView {
    pub category: Seq<char>,
    pub label: Seq<char>,
    pub grade: GradeView,
    pub credits: int,
    pub weight_modifier: int,
}

impl View for Module {
    type V = ModuleView;

    open spec fn view(&self) -> ModuleView {
        ModuleView {
            category: self.category@,
            label: self.label@,
            grade: self.grade@,
            credits: self.credits as int,
            weight_modifier: self.weight_modifier as int,
        }
    }
}

/// The record list as a mathematical sequence.
pub open spec fn views(ms: Seq<Module>) -> Seq<ModuleView> {
    ms.map_values(|m: Module| m@)
}

/// Every quantity of a record lies within the centi-unit bound.
pub open spec fn module_wf(m: ModuleView) -> bool {
    &&& 0 <= m.credits <= crate::MAX_CENTI as int
    &&& 0 <= m.weight_modifier <= crate::MAX_CENTI as int
    &&& (m.grade matches GradeView::Numeric(g) ==> 0 <= g <= crate::MAX_CENTI as int)
}

pub open spec fn records_wf(ms: Seq<ModuleView>) -> bool {
    forall|i: int| 0 <= i < ms.len() ==> module_wf(#[trigger] ms[i])
}

/// Whether a record may be struck: final-thesis records are protected,
/// and striking a passed or zero-weight record can never help.
pub open spec fn is_candidate(m: ModuleView) -> bool {
    &&& m.category != "Abschlussarbeit"@
    &&& m.grade is Numeric
    &&& m.weight_modifier != 0
}

/// Runtime check of [`is_candidate`].
pub fn check_candidate(m: &Module) -> (r: bool)
    ensures
        r == is_candidate(m@),
{
    if str_eq(m.category.as_str(), "Abschlussarbeit") {
        return false;
    }
    if m.weight_modifier == 0 {
        return false;
    }
    match m.grade {
        Grade::Numeric(_) => true,
        Grade::Passed => false,
    }
}

/// Maps course labels to weight multipliers in centi-units; labels not
/// listed get the default weight of 1.0 (100 centi-units).
pub struct WeightTable {
    pub entries: Vec<(String, u32)>,
}

pub const DEFAULT_WEIGHT: u32 = 100;

impl View for WeightTable {
    type V = Seq<(Seq<char>, int)>;

    open spec fn view(&self) -> Seq<(Seq<char>, int)> {
        self.entries@.map_values(|p: (String, u32)| (p.0@, p.1 as int))
    }
}

pub open spec fn weight_table_wf(t: Seq<(Seq<char>, int)>) -> bool {
    forall|i: int| 0 <= i < t.len() ==> 0 <= (#[trigger] t[i]).1 <= crate::MAX_CENTI as int
}

/// The weight of `label`: the first entry with that key, or the default.
pub open spec fn lookup_weight(t: Seq<(Seq<char>, int)>, label: Seq<char>) -> int
    decreases t.len(),
{
    if t.len() == 0 {
        DEFAULT_WEIGHT as int
    } else if t.first().0 == label {
        t.first().1
    } else {
        lookup_weight(t.drop_first(), label)
    }
}

pub proof fn lemma_lookup_weight_wf(t: Seq<(Seq<char>, int)>, label: Seq<char>)
    requires
        weight_table_wf(t),
    ensures
        0 <= lookup_weight(t, label) <= crate::MAX_CENTI as int,
    decreases t.len(),
{
    if t.len() > 0 {
        assert(t[0].1 <= crate::MAX_CENTI as int);
        assert(weight_table_wf(t.drop_first())) by {
            assert(forall|i: int|
                0 <= i < t.drop_first().len() ==> #[trigger] t.drop_first()[i] == t[i + 1]);
        }
        lemma_lookup_weight_wf(t.drop_first(), label);
    }
}

impl WeightTable {
    /// Looks a label up, falling back to the default weight.
    pub fn weight_of(&self, label: &str) -> (r: u32)
        ensures
            r as int == lookup_weight(self@, label@),
    {
        let mut i: usize = 0;
        proof {
            assert(self@.skip(0) =~= self@);
        }
        while i < self.entries.len()
            invariant
                i <= self.entries@.len(),
                lookup_weight(self@, label@) == lookup_weight(self@.skip(i as int), label@),
            decreases self.entries@.len() - i,
        {
            proof {
                assert(self@.skip(i as int).first() == self@[i as int]);
                assert(self@.skip(i as int).drop_first() =~= self@.skip(i + 1));
            }
            if str_eq(self.entries[i].0.as_str(), label) {
                return self.entries[i].1;
            }
            i += 1;
        }
        proof {
            assert(self@.skip(i as int).len() == 0);
        }
        DEFAULT_WEIGHT
    }
}

/// The weight table's contents: the final thesis and its colloquium
/// count one and a half times; three course labels are excluded from
/// the average entirely.
pub open spec fn default_weights_spec() -> Seq<(Seq<char>, int)> {
    seq![
        ("Bachelorarbeit"@, 150int),
        ("Kolloquium"@, 150int),
        ("Software-Projektpraktikum"@, 0int),
        ("Systemprogrammierung"@, 0int),
        ("Nicht-technisches Wahlfach Mentoring"@, 0int),
    ]
}

/// Builds the default weight table.
pub fn default_weight_table() -> (r: WeightTable)
    ensures
        r@ == default_weights_spec(),
        weight_table_wf(r@),
{
    let mut entries: Vec<(String, u32)> = Vec::new();
    entries.push((String::from_str("Bachelorarbeit"), 150));
    entries.push((String::from_str("Kolloquium"), 150));
    entries.push((String::from_str("Software-Projektpraktikum"), 0));
    entries.push((String::from_str("Systemprogrammierung"), 0));
    entries.push((String::from_str("Nicht-technisches Wahlfach Mentoring"), 0));
    let r = WeightTable { entries };
    proof {
        assert(r@ =~= default_weights_spec());
    }
    r
}

} // verus!
