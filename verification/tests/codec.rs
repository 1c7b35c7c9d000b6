use edit_tree::decode::decode;
use edit_tree::encode::encode;
use edit_tree::job::Lemma;
use edit_tree::tree::{BackoffStrategy, DecodeError, EditTree};

fn chars(s: &str) -> Vec<char> {
    s.chars().collect()
}

fn replace(replacee: &str, replacement: &str) -> EditTree {
    EditTree::ReplaceNode { replacee: chars(replacee), replacement: chars(replacement) }
}

fn match_node(pre: usize, suf: usize, left: Option<EditTree>, right: Option<EditTree>) -> EditTree {
    EditTree::MatchNode { pre, suf, left: left.map(Box::new), right: right.map(Box::new) }
}

#[test]
fn walking_shape_and_round_trip() {
    let tree = encode(&chars("walking"), &chars("walk"), &BackoffStrategy::Form);
    let expected = match_node(0, 3, None, Some(replace("ing", "")));
    assert_eq!(tree, Some(expected));
    assert_eq!(decode(&tree, &chars("walking")), Ok(chars("walk")));
}

#[test]
fn round_trip_cats() {
    let tree = encode(&chars("cats"), &chars("cat"), &BackoffStrategy::Form);
    assert_eq!(decode(&tree, &chars("cats")), Ok(chars("cat")));
}

#[test]
fn round_trip_prefix_change() {
    let tree = encode(&chars("umgeschaut"), &chars("umschauen"), &BackoffStrategy::Form);
    assert_eq!(decode(&tree, &chars("umgeschaut")), Ok(chars("umschauen")));
}

#[test]
fn round_trip_non_ascii() {
    let tree = encode(&chars("häuser"), &chars("haus"), &BackoffStrategy::Form);
    assert_eq!(decode(&tree, &chars("häuser")), Ok(chars("haus")));
}

#[test]
fn empty_pair_boundary() {
    let tree = encode(&chars(""), &chars(""), &BackoffStrategy::Form);
    assert_eq!(tree, None);
    assert_eq!(decode(&None, &chars("")), Ok(chars("")));
    assert_eq!(decode(&None, &chars("x")), Err(DecodeError::FormTooShort));
}

#[test]
fn encode_is_deterministic() {
    let first = encode(&chars("walking"), &chars("walk"), &BackoffStrategy::Form);
    let second = encode(&chars("walking"), &chars("walk"), &BackoffStrategy::Form);
    assert_eq!(first, second);
}

#[test]
fn replace_minimality() {
    let tree = encode(&chars("xy"), &chars("ab"), &BackoffStrategy::Form);
    assert_eq!(tree, Some(replace("xy", "ab")));
    assert!(!matches!(tree, Some(EditTree::MatchNode { .. })));
}

#[test]
fn mismatch_detection() {
    let tree = encode(&chars("cats"), &chars("cat"), &BackoffStrategy::Form);
    assert!(decode(&tree, &chars("dog")).is_err());
    assert!(decode(&tree, &chars("")).is_err());
}

#[test]
fn structural_match_on_another_form() {
    // The tree for cats -> cat keeps everything but a final "s"; any form
    // that also ends in "s" fits it structurally and loses that suffix.
    let tree = encode(&chars("cats"), &chars("cat"), &BackoffStrategy::Form);
    assert_eq!(decode(&tree, &chars("dogs")), Ok(chars("dog")));
}

#[test]
fn backoff_uses_form() {
    let tree = encode(&chars("abc"), &chars(""), &BackoffStrategy::Form);
    assert_eq!(tree, Some(match_node(0, 0, None, None)));
    assert_eq!(decode(&tree, &chars("abc")), Ok(chars("abc")));
}

#[test]
fn backoff_uses_fixed_literal() {
    let strategy = BackoffStrategy::Fixed(chars("x"));
    let tree = encode(&chars("abc"), &chars(""), &strategy);
    assert_eq!(tree, Some(replace("abc", "x")));
    assert_eq!(decode(&tree, &chars("abc")), Ok(chars("x")));
}

#[test]
fn empty_lemma_only_degenerate_with_content() {
    // An empty form with a non-empty lemma is not the degenerate case: the
    // pair is encoded as it stands.
    let tree = encode(&chars(""), &chars("ab"), &BackoffStrategy::Form);
    assert_eq!(tree, Some(replace("", "ab")));
    assert_eq!(decode(&tree, &chars("")), Ok(chars("ab")));
}

#[test]
fn decode_form_too_short() {
    let tree = Some(match_node(1, 0, None, None));
    assert_eq!(decode(&tree, &chars("ab")), Err(DecodeError::FormTooShort));
    let wide = Some(match_node(2, 2, None, None));
    assert_eq!(decode(&wide, &chars("abc")), Err(DecodeError::FormTooShort));
}

#[test]
fn decode_replace_mismatch() {
    let tree = Some(replace("a", "b"));
    assert_eq!(decode(&tree, &chars("c")), Err(DecodeError::ReplaceMismatch));
}

#[test]
fn tie_break_prefers_earliest_match() {
    // "aa" and "a" share two one-character matches; the earliest offsets
    // win, so the head is kept and the tail dropped.
    let tree = encode(&chars("aa"), &chars("a"), &BackoffStrategy::Form);
    let expected = match_node(0, 1, None, Some(replace("a", "")));
    assert_eq!(tree, Some(expected));
}

#[test]
fn job_description_holds_its_fields() {
    let job = Lemma::new(Some("corpus.conllu".to_string()), "edit_tree".to_string(), None);
    assert_eq!(job.input().as_deref(), Some("corpus.conllu"));
    assert_eq!(job.label_feature(), "edit_tree");
    assert_eq!(job.output(), &None);
}
