use hotspot::analyzer::CodeAnalyzer;
use hotspot::churn::churn_from_commits;
use hotspot::files::FileSnapshot;
use hotspot::rank::{rank_hotspots, rec_le_exec, sort_records, HotspotRecord};
use hotspot::strutil::has_rs_extension;

fn rec(path: &str, churn: u32, complexity: u64) -> HotspotRecord {
    HotspotRecord {
        path: path.to_string(),
        churn,
        complexity,
    }
}

#[test]
fn test_rs_extension() {
    assert!(has_rs_extension(&"a.rs".to_string()));
    assert!(has_rs_extension(&"src/lib.rs".to_string()));
    assert!(!has_rs_extension(&"a.txt".to_string()));
    assert!(!has_rs_extension(&".rs".to_string()));
    assert!(!has_rs_extension(&"src/.rs".to_string()));
    assert!(!has_rs_extension(&"a.rs.bak".to_string()));
    assert!(!has_rs_extension(&"rs".to_string()));
}

#[test]
fn test_more_churn_ranks_higher_at_fixed_complexity() {
    assert!(rec_le_exec(&rec("b.rs", 3, 4), &rec("a.rs", 2, 4)));
    assert!(!rec_le_exec(&rec("a.rs", 2, 4), &rec("b.rs", 3, 4)));
}

#[test]
fn test_more_complexity_ranks_higher_at_fixed_churn() {
    assert!(rec_le_exec(&rec("b.rs", 2, 9), &rec("a.rs", 2, 4)));
    assert!(!rec_le_exec(&rec("a.rs", 2, 4), &rec("b.rs", 2, 9)));
}

#[test]
fn test_zero_complexity_scores_zero_whatever_the_churn() {
    // churn 100 with complexity 0 still ranks below churn 1 with complexity 1
    assert!(rec_le_exec(&rec("a.rs", 1, 1), &rec("b.rs", 100, 0)));
}

#[test]
fn test_sort_is_descending_with_path_tiebreak() {
    let v = vec![
        rec("c.rs", 1, 1),
        rec("a.rs", 2, 1),
        rec("b.rs", 1, 1),
        rec("d.rs", 1, 16),
    ];
    let sorted = sort_records(v);
    let order: Vec<(&str, u32, u64)> = sorted
        .iter()
        .map(|r| (r.path.as_str(), r.churn, r.complexity))
        .collect();
    // keys: a -> 4, d -> 16, b and c -> 1 (tie broken by path)
    assert_eq!(
        order,
        vec![
            ("d.rs", 1, 16),
            ("a.rs", 2, 1),
            ("b.rs", 1, 1),
            ("c.rs", 1, 1),
        ]
    );
}

#[test]
fn test_deleted_path_yields_no_record() {
    let mut analyzer = CodeAnalyzer::new().unwrap();
    let commits = vec![vec!["gone.rs".to_string(), "here.rs".to_string()]];
    let churn = churn_from_commits(&commits);
    let mut snapshot = FileSnapshot::new();
    snapshot.insert("here.rs".to_string(), "fn f() {}\n".to_string());
    let records = rank_hotspots(&mut analyzer, &churn, &snapshot);
    assert_eq!(records.len(), 1);
    assert_eq!(records[0].path, "here.rs");
    assert!(records.iter().all(|r| r.path != "gone.rs"));
}

#[test]
fn test_non_rs_paths_are_skipped() {
    let mut analyzer = CodeAnalyzer::new().unwrap();
    let commits = vec![vec!["notes.txt".to_string()]];
    let churn = churn_from_commits(&commits);
    let mut snapshot = FileSnapshot::new();
    snapshot.insert("notes.txt".to_string(), "fn f() {}\n".to_string());
    let records = rank_hotspots(&mut analyzer, &churn, &snapshot);
    assert_eq!(records.len(), 0);
}

#[test]
fn test_end_to_end_ranking() {
    let mut analyzer = CodeAnalyzer::new().unwrap();
    // x.rs touched by two commits, y.rs by one.
    let commits = vec![
        vec!["x.rs".to_string()],
        vec!["x.rs".to_string(), "y.rs".to_string()],
    ];
    let churn = churn_from_commits(&commits);
    let x_src = "fn x() { loop {} }\n";
    let y_src = "fn y() { loop { if true {} } }\n";
    let mut snapshot = FileSnapshot::new();
    snapshot.insert("x.rs".to_string(), x_src.to_string());
    snapshot.insert("y.rs".to_string(), y_src.to_string());
    let records = rank_hotspots(&mut analyzer, &churn, &snapshot);
    assert_eq!(records.len(), 2);
    let x = records.iter().find(|r| r.path == "x.rs").unwrap();
    let y = records.iter().find(|r| r.path == "y.rs").unwrap();
    assert_eq!(x.churn, 2);
    assert_eq!(y.churn, 1);
    assert_eq!(x.complexity, analyzer.score(x_src).unwrap());
    assert_eq!(y.complexity, analyzer.score(y_src).unwrap());
    assert!(y.complexity > x.complexity);
    // The order must follow the numeric scores, checked here with the
    // real-valued score churn * sqrt(complexity), not assumed from churn or
    // complexity alone.
    let score = |r: &HotspotRecord| (r.churn as f64) * (r.complexity as f64).sqrt();
    for pair in records.windows(2) {
        assert!(score(&pair[0]) >= score(&pair[1]));
    }
}

#[test]
fn test_ranking_is_deterministic() {
    let commits = vec![
        vec!["x.rs".to_string()],
        vec!["x.rs".to_string(), "y.rs".to_string()],
    ];
    let x_src = "fn x() { loop {} }\n";
    let y_src = "fn y() { while true { if true {} } }\n";
    let mut outputs: Vec<Vec<(String, u32, u64)>> = Vec::new();
    for _ in 0..2 {
        let mut analyzer = CodeAnalyzer::new().unwrap();
        let churn = churn_from_commits(&commits);
        let mut snapshot = FileSnapshot::new();
        snapshot.insert("x.rs".to_string(), x_src.to_string());
        snapshot.insert("y.rs".to_string(), y_src.to_string());
        let records = rank_hotspots(&mut analyzer, &churn, &snapshot);
        outputs.push(
            records
                .into_iter()
                .map(|r| (r.path, r.churn, r.complexity))
                .collect(),
        );
    }
    assert_eq!(outputs[0], outputs[1]);
}
