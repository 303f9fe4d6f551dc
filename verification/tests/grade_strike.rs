use grade_strike::average::{avg_eq_exec, avg_le_exec, calculate_grade, Average};
use grade_strike::decimal::parse_centi;
use grade_strike::extract::{parse_tabula_output, ErrorKind};
use grade_strike::records::{default_weight_table, Grade, Module, WeightTable};
use grade_strike::strike::calculate_best_strike_combination;
use grade_strike::text::replace_line_breaks;

fn module(category: &str, label: &str, grade: Option<u32>, credits: u32, weight: u32) -> Module {
    Module {
        category: category.to_string(),
        label: label.to_string(),
        grade: match grade {
            Some(g) => Grade::Numeric(g),
            None => Grade::Passed,
        },
        credits,
        weight_modifier: weight,
    }
}

fn row9(kind: &str, name: &str, grade: &str, credits: &str) -> Vec<String> {
    vec![
        "id".to_string(),
        kind.to_string(),
        name.to_string(),
        grade.to_string(),
        "".to_string(),
        "".to_string(),
        credits.to_string(),
        "date".to_string(),
        "sem".to_string(),
    ]
}

fn row8(name: &str, grade: &str, credits: &str) -> Vec<String> {
    vec![
        "id".to_string(),
        name.to_string(),
        grade.to_string(),
        "".to_string(),
        "".to_string(),
        credits.to_string(),
        "date".to_string(),
        "sem".to_string(),
    ]
}

#[test]
fn parses_comma_decimals_into_centi_units() {
    assert_eq!(parse_centi("1,3"), Some(130));
    assert_eq!(parse_centi("7.5"), Some(750));
    assert_eq!(parse_centi("5"), Some(500));
    assert_eq!(parse_centi("999,99"), Some(99999));
    assert_eq!(parse_centi("0"), Some(0));
    assert_eq!(parse_centi("2,50"), Some(250));
}

#[test]
fn rejects_non_numerals() {
    assert_eq!(parse_centi(""), None);
    assert_eq!(parse_centi("B"), None);
    assert_eq!(parse_centi("1000"), None);
    assert_eq!(parse_centi("1,234"), None);
    assert_eq!(parse_centi("1.2.3"), None);
    assert_eq!(parse_centi("-1"), None);
    assert_eq!(parse_centi("1e2"), None);
}

#[test]
fn replaces_line_breaks_with_spaces() {
    assert_eq!(replace_line_breaks("Software\nEngineering"), "Software Engineering");
    assert_eq!(replace_line_breaks("a\rb"), "a b");
    assert_eq!(replace_line_breaks("plain"), "plain");
}

#[test]
fn weight_table_defaults_to_one() {
    let t = default_weight_table();
    assert_eq!(t.weight_of("Bachelorarbeit"), 150);
    assert_eq!(t.weight_of("Kolloquium"), 150);
    assert_eq!(t.weight_of("Software-Projektpraktikum"), 0);
    assert_eq!(t.weight_of("unknown course"), 100);
}

#[test]
fn extracts_course_records_with_sections() {
    let tables = vec![vec![
        row9("RK", "Informatik", "", "30"),
        row9("MK", "Programmierung", "1,3", "7,5"),
        row9("MK", "Datenstrukturen", "2,0", "7,5"),
        row9("MK", "Unbenotet", "", "5"), // empty grade: skipped
        row9("XX", "Irrelevant", "1,0", "5"), // unknown kind: skipped
    ]];
    let weights = default_weight_table();
    let records = parse_tabula_output(&tables, &weights).unwrap();
    assert_eq!(records.len(), 2);
    assert_eq!(records[0].category, "Informatik");
    assert_eq!(records[0].label, "Programmierung");
    assert_eq!(records[0].grade, Grade::Numeric(130));
    assert_eq!(records[0].credits, 750);
    assert_eq!(records[0].weight_modifier, 100);
    assert_eq!(records[1].label, "Datenstrukturen");
}

#[test]
fn unparsable_grade_becomes_passed_and_credits_zero() {
    let tables = vec![vec![
        row9("RK", "Sprachen", "", "6"),
        row9("MK", "Englisch", "B", "nicht zahl"),
    ]];
    let weights = default_weight_table();
    let records = parse_tabula_output(&tables, &weights).unwrap();
    assert_eq!(records.len(), 1);
    assert_eq!(records[0].grade, Grade::Passed);
    assert_eq!(records[0].credits, 0);
}

#[test]
fn section_reopens_when_quota_reaches_zero() {
    let tables = vec![vec![
        row9("RK", "Erste", "", "5"),
        row9("MK", "Kurs A", "1,0", "5"),
        // quota is now zero, so a positive-credit group row opens a new section
        row9("RK", "Zweite", "", "10"),
        row9("MK", "Kurs B", "2,0", "5"),
    ]];
    let weights = default_weight_table();
    let records = parse_tabula_output(&tables, &weights).unwrap();
    assert_eq!(records[0].category, "Erste");
    assert_eq!(records[1].category, "Zweite");
}

#[test]
fn group_row_is_skipped_while_quota_remains() {
    let tables = vec![vec![
        row9("RK", "Erste", "", "10"),
        row9("MK", "Kurs A", "1,0", "5"),
        // quota is 5, not zero: this group row is a silent no-op
        row9("RK", "Zweite", "", "10"),
        row9("MK", "Kurs B", "2,0", "5"),
    ]];
    let weights = default_weight_table();
    let records = parse_tabula_output(&tables, &weights).unwrap();
    assert_eq!(records[1].category, "Erste");
}

#[test]
fn preference_electives_are_never_surfaced() {
    let tables = vec![vec![
        row9("RK", "Mastervorzugsfächer", "", "10"),
        row9("MK", "Vorzugsfach", "1,0", "5"),
    ]];
    let weights = default_weight_table();
    let records = parse_tabula_output(&tables, &weights).unwrap();
    assert_eq!(records.len(), 0);
}

#[test]
fn thesis_block_uses_eight_cell_rows() {
    let tables = vec![vec![
        row8("Abschlussarbeit", "", ""),
        row8("Bachelorarbeit", "1,0", "12"),
        row8("Kolloquium", "1,3", "3"),
    ]];
    let weights = default_weight_table();
    let records = parse_tabula_output(&tables, &weights).unwrap();
    assert_eq!(records.len(), 2);
    assert_eq!(records[0].category, "Abschlussarbeit");
    assert_eq!(records[0].label, "Bachelorarbeit");
    assert_eq!(records[0].weight_modifier, 150);
    assert_eq!(records[1].weight_modifier, 150);
}

#[test]
fn eight_cell_row_outside_thesis_block_is_fatal() {
    let tables = vec![vec![
        row9("RK", "Informatik", "", "30"),
        row8("Bachelorarbeit", "1,0", "12"),
    ]];
    let weights = default_weight_table();
    let err = parse_tabula_output(&tables, &weights).unwrap_err();
    assert_eq!(err.kind, ErrorKind::ThesisLayout);
    assert_eq!(err.row, 1);
}

#[test]
fn course_row_without_open_section_is_fatal() {
    let tables = vec![vec![row9("MK", "Programmierung", "1,3", "7,5")]];
    let weights = default_weight_table();
    let err = parse_tabula_output(&tables, &weights).unwrap_err();
    assert_eq!(err.kind, ErrorKind::NoOpenSection);
    assert_eq!(err.row, 0);
}

#[test]
fn extraction_is_deterministic() {
    let tables = vec![vec![
        row9("RK", "Informatik", "", "30"),
        row9("MK", "Programmierung", "1,3", "7,5"),
        row9("MK", "Datenstrukturen", "2,0", "7,5"),
    ]];
    let weights = default_weight_table();
    let first = parse_tabula_output(&tables, &weights).unwrap();
    let second = parse_tabula_output(&tables, &weights).unwrap();
    assert_eq!(first, second);
}

fn ratio_equals(a: &Average, num: u128, den: u128) -> bool {
    a.den != 0 && a.num * den == num * a.den
}

#[test]
fn three_records_best_strike() {
    // categories A and B; striking "Y" yields (2*5 + 1*5) / 10 = 1.5
    let mods = vec![
        module("A", "X", Some(200), 500, 100),
        module("A", "Y", Some(400), 500, 100),
        module("B", "Z", Some(100), 500, 100),
    ];
    let report = calculate_best_strike_combination(&mods);
    assert!(ratio_equals(&report.best, 150, 1));
    assert_eq!(report.combinations, vec![vec!["Y".to_string()]]);
}

#[test]
fn strike_nothing_average_matches_plain_average() {
    let mods = vec![
        module("A", "X", Some(200), 500, 100),
        module("A", "Y", Some(400), 500, 100),
        module("B", "Z", Some(100), 500, 100),
    ];
    let none: Vec<String> = Vec::new();
    let baseline = calculate_grade(&mods, &none);
    // (200*500*100 + 400*500*100 + 100*500*100) / (3 * 500*100)
    assert!(ratio_equals(&baseline, 700 * 50000, 150000));
}

#[test]
fn best_is_never_worse_than_strike_nothing() {
    let mods = vec![
        module("A", "X", Some(130), 750, 100),
        module("B", "Y", Some(370), 500, 100),
        module("C", "Z", None, 300, 100),
    ];
    let report = calculate_best_strike_combination(&mods);
    let none: Vec<String> = Vec::new();
    let baseline = calculate_grade(&mods, &none);
    assert!(avg_le_exec(&report.best, &baseline));
}

#[test]
fn credit_cap_rules_out_large_strikes() {
    // striking this course would help, but it exceeds the 30.00 cap
    let mods = vec![
        module("A", "Huge", Some(400), 3100, 100),
        module("B", "Small", Some(100), 500, 100),
    ];
    let report = calculate_best_strike_combination(&mods);
    for combi in &report.combinations {
        assert!(!combi.contains(&"Huge".to_string()));
    }
    // best is achieved by striking nothing (striking "Small" would
    // leave only the worse course)
    let none: Vec<String> = Vec::new();
    let baseline = calculate_grade(&mods, &none);
    assert!(avg_eq_exec(&report.best, &baseline));
}

#[test]
fn one_strike_per_category() {
    let mods = vec![
        module("A", "P", Some(400), 500, 100),
        module("A", "Q", Some(390), 500, 100),
        module("B", "R", Some(100), 500, 100),
    ];
    let report = calculate_best_strike_combination(&mods);
    for combi in &report.combinations {
        let both = combi.contains(&"P".to_string()) && combi.contains(&"Q".to_string());
        assert!(!both);
    }
}

#[test]
fn zero_weight_records_change_nothing() {
    let base = vec![
        module("A", "X", Some(200), 500, 100),
        module("A", "Y", Some(400), 500, 100),
        module("B", "Z", Some(100), 500, 100),
    ];
    let mut with_zero = base.clone();
    with_zero.push(module("B", "Ungewichtet", Some(500), 500, 0));
    let r1 = calculate_best_strike_combination(&base);
    let r2 = calculate_best_strike_combination(&with_zero);
    assert!(avg_eq_exec(&r1.best, &r2.best));
    assert_eq!(r1.combinations, r2.combinations);
    for combi in &r2.combinations {
        assert!(!combi.contains(&"Ungewichtet".to_string()));
    }
}

#[test]
fn passed_records_change_nothing() {
    let base = vec![
        module("A", "X", Some(200), 500, 100),
        module("A", "Y", Some(400), 500, 100),
    ];
    let mut with_passed = base.clone();
    with_passed.push(module("B", "Bestanden", None, 600, 100));
    let r1 = calculate_best_strike_combination(&base);
    let r2 = calculate_best_strike_combination(&with_passed);
    assert!(avg_eq_exec(&r1.best, &r2.best));
    assert_eq!(r1.combinations, r2.combinations);
    for combi in &r2.combinations {
        assert!(!combi.contains(&"Bestanden".to_string()));
    }
}

#[test]
fn thesis_records_cannot_be_struck() {
    let mods = vec![
        module("Abschlussarbeit", "Bachelorarbeit", Some(500), 1200, 150),
        module("A", "X", Some(100), 500, 100),
    ];
    let report = calculate_best_strike_combination(&mods);
    for combi in &report.combinations {
        assert!(!combi.contains(&"Bachelorarbeit".to_string()));
    }
}

#[test]
fn all_passed_yields_undefined_average() {
    let mods = vec![module("A", "X", None, 500, 100), module("B", "Y", None, 300, 100)];
    let report = calculate_best_strike_combination(&mods);
    assert_eq!(report.best.den, 0);
    // only the strike-nothing combination exists
    assert_eq!(report.combinations, vec![Vec::<String>::new()]);
}

#[test]
fn weighted_average_uses_credits_and_weights() {
    // (100*1200*150 + 300*500*100) / (1200*150 + 500*100)
    let mods = vec![
        module("Abschlussarbeit", "Bachelorarbeit", Some(100), 1200, 150),
        module("A", "X", Some(300), 500, 100),
    ];
    let none: Vec<String> = Vec::new();
    let avg = calculate_grade(&mods, &none);
    assert!(ratio_equals(&avg, 100 * 1200 * 150 + 300 * 500 * 100, 1200 * 150 + 500 * 100));
}

#[test]
fn struck_labels_are_excluded_from_average() {
    let mods = vec![
        module("A", "X", Some(200), 500, 100),
        module("A", "Y", Some(400), 500, 100),
    ];
    let struck = vec!["Y".to_string()];
    let avg = calculate_grade(&mods, &struck);
    assert!(ratio_equals(&avg, 200, 1));
}

#[test]
fn custom_weight_table_lookup_applies() {
    let weights = WeightTable {
        entries: vec![("Programmierung".to_string(), 50)],
    };
    let tables = vec![vec![
        row9("RK", "Informatik", "", "30"),
        row9("MK", "Programmierung", "1,3", "7,5"),
    ]];
    let records = parse_tabula_output(&tables, &weights).unwrap();
    assert_eq!(records[0].weight_modifier, 50);
}
