use edit_tree::encode::encode;
use edit_tree::label::{label_string, serialize};
use edit_tree::parse::{deserialize, deserialize_label, label_round_trip};
use edit_tree::tree::{BackoffStrategy, EditTree, ParseError};

fn chars(s: &str) -> Vec<char> {
    s.chars().collect()
}

fn replace(replacee: &str, replacement: &str) -> EditTree {
    EditTree::ReplaceNode { replacee: chars(replacee), replacement: chars(replacement) }
}

fn match_node(pre: usize, suf: usize, left: Option<EditTree>, right: Option<EditTree>) -> EditTree {
    EditTree::MatchNode { pre, suf, left: left.map(Box::new), right: right.map(Box::new) }
}

#[test]
fn empty_tree_label() {
    assert_eq!(label_string(&None), "()");
    assert_eq!(deserialize(&chars("()")), Ok(None));
}

#[test]
fn walking_label() {
    let tree = encode(&chars("walking"), &chars("walk"), &BackoffStrategy::Form);
    assert_eq!(label_string(&tree), "(m 0 3 () (r \"ing\" \"\"))");
}

#[test]
fn label_is_stable_across_encodings() {
    let first = encode(&chars("walking"), &chars("walk"), &BackoffStrategy::Form);
    let second = encode(&chars("walking"), &chars("walk"), &BackoffStrategy::Form);
    assert_eq!(label_string(&first), label_string(&second));
}

#[test]
fn deserialize_walking_label() {
    let expected = Some(match_node(0, 3, None, Some(replace("ing", ""))));
    assert_eq!(deserialize(&chars("(m 0 3 () (r \"ing\" \"\"))")), Ok(expected));
}

#[test]
fn serialize_multi_digit_counters() {
    let tree = Some(match_node(12, 345, None, None));
    assert_eq!(label_string(&tree), "(m 12 345 () ())");
    assert_eq!(deserialize(&serialize(&tree)), Ok(tree));
}

#[test]
fn quote_and_backslash_are_escaped() {
    let tree = Some(replace("\"", "\\"));
    assert_eq!(label_string(&tree), "(r \"\\\"\" \"\\\\\")");
    assert_eq!(deserialize(&serialize(&tree)), Ok(tree));
}

#[test]
fn round_trip_through_label() {
    let tree = encode(&chars("geschaut"), &chars("schauen"), &BackoffStrategy::Form);
    assert_eq!(label_round_trip(&tree), tree);
    let leaf = Some(replace("a \"b\"", "c\\d"));
    assert_eq!(label_round_trip(&leaf), leaf);
    assert_eq!(label_round_trip(&None), None);
}

#[test]
fn deserialize_from_string_slice() {
    let expected = Some(match_node(0, 3, None, Some(replace("ing", ""))));
    assert_eq!(deserialize_label("(m 0 3 () (r \"ing\" \"\"))"), Ok(expected));
    let tree = encode(&chars("walking"), &chars("walk"), &BackoffStrategy::Form);
    assert_eq!(deserialize_label(&label_string(&tree)), Ok(tree));
    assert_eq!(deserialize_label("nonsense"), Err(ParseError::Malformed));
}

#[test]
fn deserialize_rejects_malformed_text() {
    assert_eq!(deserialize(&chars("")), Err(ParseError::Malformed));
    assert_eq!(deserialize(&chars("(x)")), Err(ParseError::Malformed));
    assert_eq!(deserialize(&chars("(m 1 2 () ()")), Err(ParseError::Malformed));
    assert_eq!(deserialize(&chars("()x")), Err(ParseError::Malformed));
    assert_eq!(deserialize(&chars("(m a 2 () ())")), Err(ParseError::Malformed));
}

#[test]
fn deserialize_rejects_spare_leading_zero() {
    assert_eq!(deserialize(&chars("(m 01 2 () ())")), Err(ParseError::Malformed));
    assert_eq!(deserialize(&chars("(m 0 2 () ())")).is_ok(), true);
}

#[test]
fn deserialize_rejects_unterminated_quote() {
    assert_eq!(deserialize(&chars("(r \"a")), Err(ParseError::UnexpectedEnd));
    assert_eq!(deserialize(&chars("(r \"a\\")), Err(ParseError::UnexpectedEnd));
}

#[test]
fn deserialize_rejects_unknown_escape() {
    assert_eq!(deserialize(&chars("(r \"\\n\" \"\")")), Err(ParseError::Malformed));
}

#[test]
fn deserialize_rejects_huge_counter() {
    let label = "(m 18446744073709551616 0 () ())";
    assert_eq!(deserialize(&chars(label)), Err(ParseError::NumberTooLarge));
}
