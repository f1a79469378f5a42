use lang_stats::DisplayLanguage;
use lang_stats::LangCount;
use lang_stats::aggregate::AggregateTotals;
use lang_stats::aggregate::aggregate;
use lang_stats::calculate_language_stats;
use lang_stats::language_report;
use lang_stats::present_languages;
use lang_stats::rank::RankedLanguage;
use lang_stats::rank::rank_languages;

fn lc(name: &str, bytes: u64) -> LangCount {
    LangCount { name: name.to_string(), bytes }
}

fn names(ranked: &[RankedLanguage]) -> Vec<String> {
    ranked.iter().map(|e| e.name.clone()).collect()
}

#[test]
fn aggregate_sums_per_language() {
    let maps = vec![vec![lc("Go", 300)], vec![lc("Go", 200), lc("TS", 500)]];
    let totals = aggregate(&maps);
    assert_eq!(totals.entries.len(), 2);
    assert_eq!(totals.entries[0].name, "Go");
    assert_eq!(totals.entries[0].bytes, 500);
    assert_eq!(totals.entries[1].name, "TS");
    assert_eq!(totals.entries[1].bytes, 500);
    assert_eq!(totals.total_bytes(), 1000);
}

#[test]
fn aggregate_is_order_independent() {
    let m1 = vec![lc("Go", 300)];
    let m2 = vec![lc("Go", 200), lc("TS", 500)];
    let m3 = vec![lc("Rust", 7)];
    let a = aggregate(&vec![m1.clone(), m2.clone(), m3.clone()]);
    let b = aggregate(&vec![m3, m1, m2]);
    for lang in ["Go", "TS", "Rust"] {
        let find = |t: &AggregateTotals| {
            t.entries
                .iter()
                .find(|e| e.name == lang)
                .map(|e| e.bytes)
                .unwrap_or(0)
        };
        assert_eq!(find(&a), find(&b));
    }
}

#[test]
fn aggregate_of_nothing_is_empty() {
    let maps: Vec<Vec<LangCount>> = vec![vec![], vec![]];
    let totals = aggregate(&maps);
    assert!(totals.entries.is_empty());
    assert_eq!(totals.total_bytes(), 0);
}

#[test]
fn ranking_sorts_descending_by_bytes() {
    let maps = vec![vec![lc("A", 1), lc("B", 3), lc("C", 2)]];
    let ranked = calculate_language_stats(&maps);
    assert_eq!(names(&ranked), vec!["B", "C", "A"]);
    assert_eq!(ranked[0].bytes, 3);
    assert_eq!(ranked[0].total, 6);
}

#[test]
fn ranking_truncates_to_top_eight() {
    let map: Vec<LangCount> = (0u64..9)
        .map(|i| lc(&format!("L{}", i), 10 + i))
        .collect();
    let ranked = calculate_language_stats(&vec![map]);
    assert_eq!(ranked.len(), 8);
    assert_eq!(ranked[0].name, "L8");
    assert_eq!(ranked[7].name, "L1");
}

#[test]
fn ranking_with_zero_total_is_empty() {
    let maps = vec![vec![lc("X", 0)]];
    let ranked = calculate_language_stats(&maps);
    assert!(ranked.is_empty());
}

#[test]
fn ranking_is_stable_for_equal_counts() {
    let maps = vec![vec![lc("First", 5), lc("Second", 5), lc("Third", 9)]];
    let ranked = calculate_language_stats(&maps);
    assert_eq!(names(&ranked), vec!["Third", "First", "Second"]);
}

#[test]
fn ranker_twice_gives_identical_output() {
    let maps = vec![vec![lc("Go", 300)], vec![lc("Go", 200), lc("TS", 500)]];
    let totals = aggregate(&maps);
    let once = rank_languages(&totals);
    let twice = rank_languages(&totals);
    assert_eq!(once, twice);
}

#[test]
fn ranker_applies_display_name_overrides() {
    let maps = vec![vec![lc("Jupyter Notebook", 2), lc("Visual Basic .NET", 1)]];
    let ranked = calculate_language_stats(&maps);
    assert_eq!(names(&ranked), vec!["Jupyter", "VB.NET"]);
}

#[test]
fn percentages_over_full_set_sum_to_100() {
    let maps = vec![vec![lc("A", 1), lc("B", 1), lc("C", 1)]];
    let ranked = calculate_language_stats(&maps);
    let numer: u64 = ranked.iter().map(|e| 100 * e.bytes).sum();
    assert_eq!(numer, 100 * ranked[0].total);
}

#[test]
fn presentation_rows_carry_bar_and_percentage() {
    let ranked = vec![RankedLanguage { name: "Go".to_string(), bytes: 500, total: 1000 }];
    let rows: Vec<DisplayLanguage> = present_languages(&ranked);
    assert_eq!(rows.len(), 1);
    assert_eq!(rows[0].name, format!("{:<15}", "Go"));
    assert_eq!(rows[0].bar, "▓▓▓▓▓░░░░░");
    assert_eq!(rows[0].percentage_str, "50.00%");
}

#[test]
fn three_repositories_end_to_end() {
    let maps = vec![
        vec![lc("Go", 300)],
        vec![lc("Go", 200), lc("TS", 500)],
        vec![],
    ];
    let ranked = calculate_language_stats(&maps);
    assert_eq!(names(&ranked), vec!["Go", "TS"]);
    assert_eq!(ranked[0].bytes, 500);
    assert_eq!(ranked[1].bytes, 500);
    assert_eq!(ranked[0].total, 1000);
    let rows = language_report(&maps);
    assert_eq!(rows.len(), 2);
    assert_eq!(rows[0].percentage_str, "50.00%");
    assert_eq!(rows[1].percentage_str, "50.00%");
    assert_eq!(rows[0].name, format!("{:<15}", "Go"));
}
