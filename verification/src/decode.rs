//! Applying an edit tree to a form to reconstruct a lemma.

use vstd::prelude::*;

use crate::tree::{apply_child, apply_node, apply_tree, child_model, node_model, tree_model};
use crate::tree::{DecodeError, EditTree};
use crate::util::{append_all, chars_eq, subvec};

verus! {

/// Applies `tree` to `form` and returns the lemma it encodes, or a
/// [`DecodeError`] where the tree was built for a form of another shape.
///
/// The result is exactly what [`apply_tree`] says: `Ok` with the content of
/// `apply_tree(tree_model(*tree), form@)` where that is present, `Err`
/// where it is absent.
pub fn decode(tree: &Option<EditTree>, form: &Vec<char>) -> (r: Result<Vec<char>, DecodeError>)
    ensures
        match r {
            Ok(lemma) => apply_tree(tree_model(*tree), form@) == Some(lemma@),
            Err(_) => apply_tree(tree_model(*tree), form@) is None,
        },
{
    match tree {
        Option::None => {
            if form.len() == 0 {
                let out: Vec<char> = Vec::new();
                proof {
                    assert(out@ =~= Seq::<char>::empty());
                }
                Ok(out)
            } else {
                Err(DecodeError::FormTooShort)
            }
        },
        Option::Some(node) => decode_node(node, form),
    }
}

/// Applies one node to a form segment.
fn decode_node(t: &EditTree, form: &Vec<char>) -> (r: Result<Vec<char>, DecodeError>)
    ensures
        match r {
            Ok(lemma) => apply_node(node_model(*t), form@) == Some(lemma@),
            Err(_) => apply_node(node_model(*t), form@) is None,
        },
    decreases *t,
{
    match t {
        EditTree::MatchNode { pre, suf, left, right } => {
            let pre = *pre;
            let suf = *suf;
            if form.len() < pre || form.len() - pre < suf {
                return Err(DecodeError::FormTooShort);
            }
            let head = subvec(form, 0, pre);
            let middle = subvec(form, pre, form.len() - suf);
            let tail = subvec(form, form.len() - suf, form.len());
            proof {
                assert(head@ =~= form@.take(pre as int));
                assert(tail@ =~= form@.skip(form@.len() - suf));
            }
            let left_out = match decode_child(left, &head) {
                Ok(v) => v,
                Err(e) => {
                    return Err(e);
                },
            };
            let right_out = match decode_child(right, &tail) {
                Ok(v) => v,
                Err(e) => {
                    return Err(e);
                },
            };
            let mut out = left_out;
            append_all(&mut out, &middle);
            append_all(&mut out, &right_out);
            Ok(out)
        },
        EditTree::ReplaceNode { replacee, replacement } => {
            if chars_eq(form, replacee) {
                Ok(replacement.clone())
            } else {
                Err(DecodeError::ReplaceMismatch)
            }
        },
    }
}

/// Applies an optional child to a form segment; an absent child fits only
/// the empty segment.
fn decode_child(c: &Option<Box<EditTree>>, form: &Vec<char>) -> (r: Result<
    Vec<char>,
    DecodeError,
>)
    ensures
        match r {
            Ok(lemma) => apply_child(child_model(*c), form@) == Some(lemma@),
            Err(_) => apply_child(child_model(*c), form@) is None,
        },
    decreases *c,
{
    match c {
        Option::None => {
            if form.len() == 0 {
                let out: Vec<char> = Vec::new();
                proof {
                    assert(out@ =~= Seq::<char>::empty());
                }
                Ok(out)
            } else {
                Err(DecodeError::FormTooShort)
            }
        },
        Option::Some(b) => decode_node(&**b, form),
    }
}

} // verus!
