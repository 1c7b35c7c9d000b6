//! The laws that relate encoding, decoding and labeling.

use vstd::prelude::*;

use crate::encode::{
    best_match_of, encodes, encodes_child, encodes_node, has_common, is_best_match,
    lemma_best_match_unique, lemma_cpl_agree, lemma_cpl_le,
};
use crate::label::ser_tree;
use crate::tree::{apply_child, apply_node, apply_tree, encode_target};
use crate::tree::{BackoffStrategy, TreeModel};

verus! {

/// A best match really is a common substring: the matched regions of form
/// and lemma hold the same characters.
proof fn lemma_match_regions_agree(form: Seq<char>, lemma: Seq<char>, i: int, j: int, l: int)
    requires
        is_best_match(form, lemma, i, j, l),
    ensures
        i + l <= form.len(),
        j + l <= lemma.len(),
        form.subrange(i, i + l) == lemma.subrange(j, j + l),
{
    let a = form.skip(i);
    let b = lemma.skip(j);
    lemma_cpl_le(a, b);
    assert forall|k: int|
        #![trigger form.subrange(i, i + l)[k]]
        0 <= k < l implies form.subrange(i, i + l)[k] == lemma.subrange(j, j + l)[k] by {
        lemma_cpl_agree(a, b, k);
        assert(a[k] == form[i + k]);
        assert(b[k] == lemma[j + k]);
        assert(form.subrange(i, i + l)[k] == form[i + k]);
        assert(lemma.subrange(j, j + l)[k] == lemma[j + k]);
    }
    assert(form.subrange(i, i + l) =~= lemma.subrange(j, j + l));
}

/// Round trip at one node: a node that encodes `(form, lemma)` applies to
/// `form` and yields exactly `lemma`.
pub proof fn lemma_node_round_trip(form: Seq<char>, lemma: Seq<char>, t: TreeModel)
    requires
        encodes_node(form, lemma, t),
    ensures
        apply_node(t, form) == Some(lemma),
    decreases t,
{
    match t {
        TreeModel::ReplaceNode { .. } => {
        },
        TreeModel::MatchNode { pre, suf, left, right } => {
            let (j, l) = best_match_of(form, lemma, pre);
            lemma_match_regions_agree(form, lemma, pre, j, l);
            let head = form.take(pre);
            let middle = form.subrange(pre, form.len() - suf);
            let tail = form.skip(form.len() - suf);
            assert(form.len() - suf == pre + l);
            lemma_child_round_trip(head, lemma.take(j), left);
            lemma_child_round_trip(form.skip(pre + l), lemma.skip(j + l), right);
            assert(tail =~= form.skip(pre + l));
            assert(middle =~= form.subrange(pre, pre + l));
            assert(lemma.take(j) + lemma.subrange(j, j + l) + lemma.skip(j + l) =~= lemma);
        },
    }
}

/// Round trip at one child: an absent child yields the empty segment, a
/// present one what the node yields.
pub proof fn lemma_child_round_trip(form: Seq<char>, lemma: Seq<char>, c: Option<Box<TreeModel>>)
    requires
        encodes_child(form, lemma, c),
    ensures
        apply_child(c, form) == Some(lemma),
    decreases c,
{
    match c {
        Option::None => {
            assert(lemma =~= Seq::<char>::empty());
        },
        Option::Some(b) => {
            lemma_node_round_trip(form, lemma, *b);
        },
    }
}

/// Round trip: a tree that encodes `(form, lemma)` applies to `form` and
/// yields exactly `lemma`.
pub proof fn lemma_round_trip(form: Seq<char>, lemma: Seq<char>, t: Option<TreeModel>)
    requires
        encodes(form, lemma, t),
    ensures
        apply_tree(t, form) == Some(lemma),
{
    match t {
        Option::None => {
            assert(lemma =~= Seq::<char>::empty());
        },
        Option::Some(n) => {
            lemma_node_round_trip(form, lemma, n);
        },
    }
}

/// The core round-trip law: decoding the tree encoded for `(form, lemma)`
/// against that same `form` reproduces the encoded lemma — the given one
/// on ordinary pairs, the strategy's substitute on degenerate ones.
pub proof fn lemma_encode_decode(
    form: Seq<char>,
    lemma: Seq<char>,
    strategy: BackoffStrategy,
    t: Option<TreeModel>,
)
    requires
        encodes(form, encode_target(form, lemma, strategy), t),
    ensures
        apply_tree(t, form) == Some(encode_target(form, lemma, strategy)),
        !(lemma.len() == 0 && form.len() > 0) ==> apply_tree(t, form) == Some(lemma),
{
    lemma_round_trip(form, encode_target(form, lemma, strategy), t);
}

/// A pair that shares a character cannot be encoded by a `ReplaceNode`,
/// and one that shares none cannot be encoded by a `MatchNode`.
proof fn lemma_best_match_has_common(form: Seq<char>, lemma: Seq<char>, i: int, j: int, l: int)
    requires
        is_best_match(form, lemma, i, j, l),
    ensures
        has_common(form, lemma),
{
    lemma_cpl_agree(form.skip(i), lemma.skip(j), 0);
    assert(form.skip(i)[0] == form[i]);
    assert(lemma.skip(j)[0] == lemma[j]);
    assert(form[i] == lemma[j]);
}

/// Determinism at one node: the pair `(form, lemma)` has at most one
/// encoding node.
pub proof fn lemma_node_deterministic(form: Seq<char>, lemma: Seq<char>, t1: TreeModel, t2: TreeModel)
    requires
        encodes_node(form, lemma, t1),
        encodes_node(form, lemma, t2),
    ensures
        t1 == t2,
    decreases t1,
{
    match (t1, t2) {
        (TreeModel::ReplaceNode { .. }, TreeModel::ReplaceNode { .. }) => {
        },
        (
            TreeModel::MatchNode { pre: p1, suf: s1, left: l1, right: r1 },
            TreeModel::MatchNode { pre: p2, suf: s2, left: l2, right: r2 },
        ) => {
            let (j1, ln1) = best_match_of(form, lemma, p1);
            let (j2, ln2) = best_match_of(form, lemma, p2);
            lemma_best_match_unique(form, lemma, p1, j1, ln1, p2, j2, ln2);
            lemma_child_deterministic(form.take(p1), lemma.take(j1), l1, l2);
            lemma_child_deterministic(form.skip(p1 + ln1), lemma.skip(j1 + ln1), r1, r2);
        },
        (TreeModel::MatchNode { pre, .. }, TreeModel::ReplaceNode { .. }) => {
            let (j, l) = best_match_of(form, lemma, pre);
            lemma_best_match_has_common(form, lemma, pre, j, l);
        },
        (TreeModel::ReplaceNode { .. }, TreeModel::MatchNode { pre, .. }) => {
            let (j, l) = best_match_of(form, lemma, pre);
            lemma_best_match_has_common(form, lemma, pre, j, l);
        },
    }
}

/// Determinism at one child.
pub proof fn lemma_child_deterministic(
    form: Seq<char>,
    lemma: Seq<char>,
    c1: Option<Box<TreeModel>>,
    c2: Option<Box<TreeModel>>,
)
    requires
        encodes_child(form, lemma, c1),
        encodes_child(form, lemma, c2),
    ensures
        c1 == c2,
    decreases c1,
{
    match (c1, c2) {
        (Option::None, Option::None) => {
        },
        (Option::Some(b1), Option::Some(b2)) => {
            lemma_node_deterministic(form, lemma, *b1, *b2);
        },
        (Option::None, Option::Some(b)) => {
            lemma_node_needs_content(form, lemma, *b);
        },
        (Option::Some(b), Option::None) => {
            lemma_node_needs_content(form, lemma, *b);
        },
    }
}

/// A node encodes only a pair with at least one non-empty side: the empty
/// pair's encoding is the absent tree.
proof fn lemma_node_needs_content(form: Seq<char>, lemma: Seq<char>, t: TreeModel)
    requires
        encodes_node(form, lemma, t),
    ensures
        form.len() > 0 || lemma.len() > 0,
{
    match t {
        TreeModel::ReplaceNode { .. } => {
        },
        TreeModel::MatchNode { pre, .. } => {
            let (j, l) = best_match_of(form, lemma, pre);
        },
    }
}

/// Determinism: a pair has exactly one encoding, so encoding the same
/// `(form, lemma)` twice yields structurally identical trees.
pub proof fn lemma_deterministic(
    form: Seq<char>,
    lemma: Seq<char>,
    t1: Option<TreeModel>,
    t2: Option<TreeModel>,
)
    requires
        encodes(form, lemma, t1),
        encodes(form, lemma, t2),
    ensures
        t1 == t2,
{
    match (t1, t2) {
        (Option::Some(n1), Option::Some(n2)) => {
            lemma_node_deterministic(form, lemma, n1, n2);
        },
        (Option::None, Option::Some(n)) => {
            lemma_node_needs_content(form, lemma, n);
        },
        (Option::Some(n), Option::None) => {
            lemma_node_needs_content(form, lemma, n);
        },
        (Option::None, Option::None) => {
        },
    }
}

/// Replace minimality: a pair that shares no character (and is not the
/// empty pair) is encoded as a single `ReplaceNode` holding the two
/// segments, never as a `MatchNode`.
pub proof fn lemma_replace_minimal(form: Seq<char>, lemma: Seq<char>, t: Option<TreeModel>)
    requires
        encodes(form, lemma, t),
        !has_common(form, lemma),
        !(form.len() == 0 && lemma.len() == 0),
    ensures
        t == Some(TreeModel::ReplaceNode { replacee: form, replacement: lemma }),
{
    match t {
        Option::None => {
        },
        Option::Some(n) => {
            match n {
                TreeModel::ReplaceNode { .. } => {
                },
                TreeModel::MatchNode { pre, .. } => {
                    let (j, l) = best_match_of(form, lemma, pre);
                    lemma_best_match_has_common(form, lemma, pre, j, l);
                },
            }
        },
    }
}

/// Label stability: any two encodings of the same pair render to the same
/// label, character for character, so labels are stable across runs.
pub proof fn lemma_label_stable(
    form: Seq<char>,
    lemma: Seq<char>,
    t1: Option<TreeModel>,
    t2: Option<TreeModel>,
)
    requires
        encodes(form, lemma, t1),
        encodes(form, lemma, t2),
    ensures
        ser_tree(t1) == ser_tree(t2),
{
    lemma_deterministic(form, lemma, t1, t2);
}

} // verus!
