//! End-to-end exercises of the preprocessor, the engine and the summary,
//! against the real naga front-end.

use wgsl_inspect::engine::Naga;
use wgsl_inspect::error::WgslError;
use wgsl_inspect::preprocess::{flatten_shader, inclusion_paths};
use wgsl_inspect::summary::{build_tree, collect_named, WgslTree};

/// The directive marker, spelled out character by character.
fn marker() -> String {
    ['/', '/', '!', 'i', 'n', 'c', 'l', 'u', 'd', 'e'].iter().collect()
}

fn skip_marker() -> String {
    ['/', '/', '!', 'i', 'g', 'n', 'o', 'r', 'e'].iter().collect()
}

fn some(s: &str) -> Option<String> {
    Some(s.to_string())
}

#[test]
fn ignore_line_is_inert() {
    let with_line = format!(
        "{}\n{} a.wgsl\nfn main_fn() -> f32 {{ return 1.0; }}\n",
        skip_marker(),
        marker()
    );
    let without_line = format!("{} a.wgsl\nfn main_fn() -> f32 {{ return 1.0; }}\n", marker());
    // The same paths are collected with the skipped line as without it.
    assert_eq!(inclusion_paths(&with_line), inclusion_paths(&without_line));
    assert_eq!(inclusion_paths(&with_line), vec!["a.wgsl".to_string()]);
    // The skipped line pulls nothing in even when tokens follow the marker.
    let with_tokens = format!("{} a.wgsl b.wgsl\n", skip_marker());
    assert!(inclusion_paths(&with_tokens).is_empty());
    // The skipped line itself stays in the buffer: the same contents pulled
    // in, the outputs differ exactly by that line.
    let contents = vec!["// text of a\n".to_string()];
    assert_eq!(
        flatten_shader(&with_line, &contents),
        format!("// text of a\n{}", with_line)
    );
    assert_eq!(
        flatten_shader(&without_line, &contents),
        format!("// text of a\n{}", without_line)
    );
}

#[test]
fn paths_from_several_lines_keep_line_order() {
    let primary = format!(
        "{} a.wgsl\nfn main_fn() -> f32 {{ return 1.0; }}\n{} b.wgsl c.wgsl\n",
        marker(),
        marker()
    );
    assert_eq!(
        inclusion_paths(&primary),
        vec!["a.wgsl".to_string(), "b.wgsl".to_string(), "c.wgsl".to_string()]
    );
    let contents = vec!["A\n".to_string(), "B\n".to_string(), "C\n".to_string()];
    assert_eq!(
        flatten_shader(&primary, &contents),
        format!("C\nB\nA\n{}", primary)
    );
}

#[test]
fn two_paths_flatten_in_reverse_order() {
    let primary = format!("{} a.wgsl b.wgsl\nfn main_fn() -> f32 {{ return 1.0; }}\n", marker());
    let paths = inclusion_paths(&primary);
    assert_eq!(paths, vec!["a.wgsl".to_string(), "b.wgsl".to_string()]);
    let contents = vec!["// text of a\n".to_string(), "// text of b\n".to_string()];
    let flat = flatten_shader(&primary, &contents);
    let expected = format!("// text of b\n// text of a\n{}", primary);
    assert_eq!(flat, expected);
}

#[test]
fn pulled_in_directive_stays_verbatim() {
    let primary = format!("{} a.wgsl\nfn main_fn() -> f32 {{ return 1.0; }}\n", marker());
    let nested = format!("{} c.wgsl\nconst one: u32 = 1u;\n", marker());
    // The scan reads the primary text alone: the nested directive names no
    // path of this expansion.
    assert_eq!(inclusion_paths(&primary), vec!["a.wgsl".to_string()]);
    let flat = flatten_shader(&primary, &vec![nested.clone()]);
    // The pulled-in text stands verbatim, its directive line unexpanded.
    assert!(flat.starts_with(&nested));
    assert_eq!(flat, format!("{}{}", nested, primary));
}

#[test]
fn directive_without_tokens_is_a_no_op() {
    let primary = format!("{}\nfn main_fn() -> f32 {{ return 1.0; }}\n", marker());
    assert!(inclusion_paths(&primary).is_empty());
}

#[test]
fn directive_tokens_split_on_tabs_and_crlf() {
    let primary = format!("{}\ta.wgsl  b.wgsl\r\nfn main_fn() -> f32 {{ return 1.0; }}\r\n", marker());
    assert_eq!(
        inclusion_paths(&primary),
        vec!["a.wgsl".to_string(), "b.wgsl".to_string()]
    );
}

#[test]
fn final_line_without_break_still_names_its_paths() {
    // A trailing carriage return with no line feed stays part of the final
    // line; it is token whitespace, so the paths are unaffected.
    let primary = format!("{} a.wgsl\r", marker());
    assert_eq!(inclusion_paths(&primary), vec!["a.wgsl".to_string()]);
}

#[test]
fn engine_is_reusable_across_calls() {
    let mut engine = Naga::new();
    let good = "fn main_fn() -> f32 { return 2.0; }\n";
    let bad = "var<uniform> bad_global: f32;\nfn main_fn() -> f32 { return bad_global; }\n";
    assert!(engine.validate_wgsl(good, &vec![]).is_ok());
    assert!(matches!(
        engine.validate_wgsl(bad, &vec![]),
        Err(WgslError::ValidationFailure { .. })
    ));
    // A failed call leaves the configuration intact: the same inputs give
    // the same verdicts again.
    assert!(engine.validate_wgsl(good, &vec![]).is_ok());
    let tree = engine.get_wgsl_tree(good).expect("parses");
    assert!(engine.validate_wgsl(good, &vec![]).is_ok());
    assert_eq!(engine.get_wgsl_tree(good).expect("parses"), tree);
    assert!(matches!(
        engine.validate_wgsl(bad, &vec![]),
        Err(WgslError::ValidationFailure { .. })
    ));
}

#[test]
fn directive_must_start_the_line() {
    let primary = format!("  {} a.wgsl\n", marker());
    assert!(inclusion_paths(&primary).is_empty());
}

#[test]
fn valid_shader_passes_validation() {
    let mut engine = Naga::new();
    let src = "fn main_fn() -> f32 { return 2.0; }\n";
    assert!(engine.validate_wgsl(src, &vec![]).is_ok());
}

#[test]
fn parse_failure_carries_the_flattened_text() {
    let mut engine = Naga::new();
    let primary = "fn main_fn() -> f32 { return 1.0; }\n";
    let contents = vec!["@@@ not wgsl\n".to_string()];
    match engine.validate_wgsl(primary, &contents) {
        Err(WgslError::ParseFailure { src, error }) => {
            assert_eq!(src, format!("@@@ not wgsl\n{}", primary));
            // The positional report stays valid against the carried text.
            let loc = error.location(&src).expect("a parse error location");
            assert!((loc.offset as usize) < src.len());
        }
        _ => panic!("expected a parse failure"),
    }
}

#[test]
fn validation_failure_carries_accurate_context() {
    let mut engine = Naga::new();
    // Parses, but a uniform global without a resource binding is a semantic
    // error.
    let src = "var<uniform> bad_global: f32;\nfn main_fn() -> f32 { return bad_global; }\n";
    match engine.validate_wgsl(src, &vec![]) {
        Err(WgslError::ValidationFailure { src: carried, error }) => {
            assert_eq!(carried, src);
            let loc = error.location(&carried).expect("a span for the error");
            let offset = loc.offset as usize;
            let length = loc.length as usize;
            assert!(offset + length <= carried.len());
            assert!(carried[offset..offset + length].contains("bad_global"));
        }
        Err(WgslError::ParseFailure { error, src }) => {
            panic!("expected a validation failure, got parse: {}", error.emit_to_string(&src))
        }
        _ => panic!("expected a validation failure"),
    }
}

#[test]
fn validate_never_reports_an_io_failure() {
    let mut engine = Naga::new();
    // A directive naming a missing file aborts in the caller that reads
    // files, before this engine ever runs; the engine itself reads nothing.
    let primary = format!("{} missing.wgsl\nfn main_fn() -> f32 {{ return 1.0; }}\n", marker());
    assert_eq!(inclusion_paths(&primary), vec!["missing.wgsl".to_string()]);
    let r = engine.validate_wgsl(&primary, &vec![]);
    assert!(!matches!(r, Err(WgslError::IoFailure { .. })));
}

#[test]
fn tree_extraction_does_not_expand_directives() {
    let mut engine = Naga::new();
    // The directive line is an ordinary comment to the front-end, and
    // structural extraction deliberately parses the text as it stands.
    let src = format!("{} a.wgsl\nfn main_fn() -> f32 {{ return 1.0; }}\n", marker());
    let tree = engine.get_wgsl_tree(&src).expect("the text parses");
    assert_eq!(tree.functions, vec!["main_fn".to_string()]);
}

#[test]
fn tree_lists_named_declarations_in_order() {
    let src = "struct Light { dir: vec3<f32>, }\n\
               @group(0) @binding(0) var<uniform> light: Light;\n\
               fn first_fn() -> f32 { return 1.0; }\n\
               fn second_fn() -> f32 { return 2.0; }\n";
    let module = naga::front::wgsl::parse_str(src).expect("parses");
    let tree = Naga::tree_of_module(&module);
    assert_eq!(tree.types, vec!["Light".to_string()]);
    assert_eq!(tree.global_variables, vec!["light".to_string()]);
    assert_eq!(
        tree.functions,
        vec!["first_fn".to_string(), "second_fn".to_string()]
    );
}

#[test]
fn tree_extraction_fails_on_bad_text() {
    let mut engine = Naga::new();
    let src = "@@@ not wgsl";
    match engine.get_wgsl_tree(src) {
        Err(WgslError::ParseFailure { src: carried, .. }) => assert_eq!(carried, src),
        _ => panic!("expected a parse failure"),
    }
}

#[test]
fn anonymous_declarations_are_omitted() {
    let tree = build_tree(
        &vec![some("Light"), None],
        &vec![None, some("light"), None],
        &vec![some("shade"), None, some("main_fn")],
    );
    assert_eq!(tree.types, vec!["Light".to_string()]);
    assert_eq!(tree.global_variables, vec!["light".to_string()]);
    assert_eq!(tree.functions, vec!["shade".to_string(), "main_fn".to_string()]);
    // Never an empty-string stand-in for an anonymous entry.
    assert!(tree.functions.iter().all(|n| !n.is_empty()));
}

#[test]
fn collect_named_keeps_order_and_drops_none() {
    let r = collect_named(&vec![None, some("a"), None, some("b"), some("c"), None]);
    assert_eq!(r, vec!["a".to_string(), "b".to_string(), "c".to_string()]);
    assert!(collect_named(&vec![None, None]).is_empty());
}

#[test]
fn default_tree_is_empty() {
    let t = WgslTree::default();
    assert!(t.types.is_empty());
    assert!(t.global_variables.is_empty());
    assert!(t.functions.is_empty());
}
