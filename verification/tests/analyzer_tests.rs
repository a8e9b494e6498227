use hotspot::analyzer::CodeAnalyzer;
use hotspot::tree::{complexity_of, SyntaxNode};

fn node(kind: &str, children: Vec<SyntaxNode>) -> SyntaxNode {
    SyntaxNode { kind: kind.to_string(), children }
}

#[test]
fn test_basic_complexity() {
    let mut analyzer = CodeAnalyzer::new().unwrap();
    let code = r#"
        fn complex_function(x: i32) {
            if x > 0 {
                for i in 0..10 {
                    println!("{}", i);
                }
            }
        }
    "#;
    let score = analyzer.score(code).unwrap();
    assert!(
        score > 0,
        "Complexity should be greater than 0 for nested logic"
    );
    println!("Complexity score: {}", score);
}

#[test]
fn test_no_counted_constructs_score_zero() {
    let mut analyzer = CodeAnalyzer::new().unwrap();
    assert_eq!(analyzer.score("").unwrap(), 0);
    assert_eq!(analyzer.score("const X: i32 = 4;").unwrap(), 0);
}

#[test]
fn test_single_function_scores_one() {
    // A function declaration weighs exactly 1 at any depth, and an empty body
    // holds nothing else that counts.
    let mut analyzer = CodeAnalyzer::new().unwrap();
    assert_eq!(analyzer.score("fn f() {}").unwrap(), 1);
}

#[test]
fn test_single_conditional_at_root() {
    // A lone conditional at depth 0 contributes 1 + 0.
    let t = node("if_expression", vec![]);
    assert_eq!(complexity_of(&t), 1);
}

#[test]
fn test_conditional_nested_in_loop() {
    // Loop at depth 0 gives 1 + 0; the conditional inside it, at depth 1,
    // gives 1 + 1; the total is 3.
    let t = node("loop_expression", vec![node("if_expression", vec![])]);
    assert_eq!(complexity_of(&t), 3);
}

#[test]
fn test_sibling_order_does_not_change_total() {
    let a = node(
        "source_file",
        vec![
            node("if_expression", vec![node("match_arm", vec![])]),
            node("loop_expression", vec![]),
            node("line_comment", vec![]),
        ],
    );
    let b = node(
        "source_file",
        vec![
            node("line_comment", vec![]),
            node("loop_expression", vec![]),
            node("if_expression", vec![node("match_arm", vec![])]),
        ],
    );
    assert_eq!(complexity_of(&a), complexity_of(&b));
}

#[test]
fn test_depth_weights_all_branching_kinds() {
    // while at depth 0 -> 1; for at depth 1 -> 2; match at depth 2 -> 3;
    // match arm at depth 3 -> 4; total 10.
    let t = node(
        "while_expression",
        vec![node(
            "for_expression",
            vec![node("match_expression", vec![node("match_arm", vec![])])],
        )],
    );
    assert_eq!(complexity_of(&t), 10);
}

#[test]
fn test_uncounted_kinds_contribute_zero() {
    let t = node(
        "source_file",
        vec![node("block", vec![node("let_declaration", vec![])])],
    );
    assert_eq!(complexity_of(&t), 0);
}
