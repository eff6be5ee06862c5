use lnconv_core::events::pattern::name_fits;

fn fits(pattern: &str, name: &str) -> bool {
    name_fits(&pattern.chars().collect(), &name.chars().collect())
}

#[test]
fn plain_names_fit_themselves_only() {
    assert!(fits("capture.parquet", "capture.parquet"));
    assert!(!fits("capture.parquet", "capture.parque"));
    assert!(!fits("capture.parquet", "capture.parquets"));
    assert!(fits("", ""));
    assert!(!fits("", "a"));
}

#[test]
fn star_stands_for_any_run_of_characters() {
    assert!(fits("*", ""));
    assert!(fits("*", "anything"));
    assert!(fits("*.parquet", "part-0001.parquet"));
    assert!(!fits("*.parquet", "part-0001.csv"));
    assert!(fits("a*b*c", "abc"));
    assert!(fits("a*b*c", "axxbyybzzc"));
    assert!(!fits("a*b*c", "axxbyyb"));
    assert!(fits("**", "x"));
}

#[test]
fn question_mark_stands_for_one_character() {
    assert!(fits("part-?.parquet", "part-7.parquet"));
    assert!(!fits("part-?.parquet", "part-.parquet"));
    assert!(!fits("part-?.parquet", "part-12.parquet"));
    assert!(fits("?*", "a"));
    assert!(!fits("?*", ""));
}
