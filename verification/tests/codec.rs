//! The canonical text of a structural summary: exact shape, round trip, and
//! the decoder's strictness.

use wgsl_inspect::codec::{from_json, to_json};
use wgsl_inspect::summary::WgslTree;

fn sample() -> WgslTree {
    WgslTree {
        types: vec!["Light".to_string()],
        global_variables: vec![],
        functions: vec!["shade".to_string(), "main_fn".to_string()],
    }
}

#[test]
fn canonical_text_has_the_documented_shape() {
    let text = to_json(&sample());
    assert_eq!(
        text,
        "{\"types\":[\"Light\"],\"global_variables\":[],\"functions\":[\"shade\",\"main_fn\"]}"
    );
}

#[test]
fn summary_round_trips_through_canonical_text() {
    let tree = sample();
    let back = from_json(&to_json(&tree)).expect("the canonical text decodes");
    assert_eq!(back, tree);
}

#[test]
fn empty_summary_round_trips() {
    let tree = WgslTree::default();
    let text = to_json(&tree);
    assert_eq!(text, "{\"types\":[],\"global_variables\":[],\"functions\":[]}");
    assert_eq!(from_json(&text).expect("decodes"), tree);
}

#[test]
fn names_with_quotes_and_backslashes_round_trip() {
    let tree = WgslTree {
        types: vec!["a\"b".to_string(), "c\\d".to_string()],
        global_variables: vec!["plain".to_string()],
        functions: vec!["line\nbreak".to_string()],
    };
    let text = to_json(&tree);
    assert!(text.contains("a\\\"b"));
    assert!(text.contains("c\\\\d"));
    let back = from_json(&text).expect("the escaped text decodes");
    assert_eq!(back, tree);
}

#[test]
fn decoder_accepts_only_the_canonical_text() {
    assert!(from_json("").is_none());
    assert!(from_json("{}").is_none());
    // A stray space is not canonical.
    assert!(from_json("{\"types\":[] ,\"global_variables\":[],\"functions\":[]}").is_none());
    // A trailing comma is not canonical.
    assert!(from_json("{\"types\":[\"a\",],\"global_variables\":[],\"functions\":[]}").is_none());
    // An unknown escape is not canonical.
    assert!(from_json("{\"types\":[\"a\\n\"],\"global_variables\":[],\"functions\":[]}").is_none());
    // Trailing text after the object is refused.
    assert!(from_json("{\"types\":[],\"global_variables\":[],\"functions\":[]} ").is_none());
}
