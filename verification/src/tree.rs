//! The edit-tree data model and its decoding semantics.
//!
//! An [`EditTree`] describes how to turn one character sequence (the form)
//! into another (the lemma). A `MatchNode` keeps a shared middle region of
//! the form and transforms the segments before and after it; a `ReplaceNode`
//! swaps one literal segment for another. The empty transformation (empty
//! form to empty lemma) is the absent tree, `Option::None` at the root.

use vstd::prelude::*;

verus! {

/// A node of an edit tree.
///
/// `pre` and `suf` at a `MatchNode` are the lengths, in characters, of the
/// form's unmatched head and tail around the matched middle region; `left`
/// transforms the head, `right` the tail, and an absent child stands for the
/// empty-to-empty transformation.
#[derive(Debug, PartialEq, Eq)]
pub enum EditTree {
    MatchNode { pre: usize, suf: usize, left: Option<Box<EditTree>>, right: Option<Box<EditTree>> },
    ReplaceNode { replacee: Vec<char>, replacement: Vec<char> },
}

/// The mathematical value of an edit tree: the same shape over `Seq<char>`
/// and `int`, so that contracts and laws can speak of trees by value.
pub enum TreeModel {
    MatchNode { pre: int, suf: int, left: Option<Box<TreeModel>>, right: Option<Box<TreeModel>> },
    ReplaceNode { replacee: Seq<char>, replacement: Seq<char> },
}

/// The model of one node.
pub open spec fn node_model(t: EditTree) -> TreeModel
    decreases t,
{
    match t {
        EditTree::MatchNode { pre, suf, left, right } => TreeModel::MatchNode {
            pre: pre as int,
            suf: suf as int,
            left: child_model(left),
            right: child_model(right),
        },
        EditTree::ReplaceNode { replacee, replacement } => TreeModel::ReplaceNode {
            replacee: replacee@,
            replacement: replacement@,
        },
    }
}

/// The model of an optional child.
pub open spec fn child_model(c: Option<Box<EditTree>>) -> Option<Box<TreeModel>>
    decreases c,
{
    match c {
        Option::None => Option::None,
        Option::Some(b) => Option::Some(Box::new(node_model(*b))),
    }
}

/// The model of a whole (possibly absent) tree.
pub open spec fn tree_model(t: Option<EditTree>) -> Option<TreeModel> {
    match t {
        Option::None => Option::None,
        Option::Some(n) => Option::Some(node_model(n)),
    }
}

impl View for EditTree {
    type V = TreeModel;

    open spec fn view(&self) -> TreeModel {
        node_model(*self)
    }
}

/// What applying one node to a form segment yields: the lemma segment, or
/// nothing when the node does not fit the segment.
pub open spec fn apply_node(t: TreeModel, form: Seq<char>) -> Option<Seq<char>>
    decreases t,
{
    match t {
        TreeModel::MatchNode { pre, suf, left, right } => {
            if 0 <= pre && 0 <= suf && pre + suf <= form.len() {
                let head = form.take(pre);
                let middle = form.subrange(pre, form.len() - suf);
                let tail = form.skip(form.len() - suf);
                match (apply_child(left, head), apply_child(right, tail)) {
                    (Option::Some(lh), Option::Some(rh)) => Option::Some(lh + middle + rh),
                    _ => Option::None,
                }
            } else {
                Option::None
            }
        },
        TreeModel::ReplaceNode { replacee, replacement } => {
            if form == replacee {
                Option::Some(replacement)
            } else {
                Option::None
            }
        },
    }
}

/// What applying an optional child to a form segment yields; an absent child
/// fits exactly the empty segment and yields the empty segment.
pub open spec fn apply_child(c: Option<Box<TreeModel>>, form: Seq<char>) -> Option<Seq<char>>
    decreases c,
{
    match c {
        Option::None => if form.len() == 0 {
            Option::Some(Seq::<char>::empty())
        } else {
            Option::None
        },
        Option::Some(b) => apply_node(*b, form),
    }
}

/// What applying a whole tree to a form yields. This is the decoder's
/// specification: decoding returns exactly this value's content, or a
/// [`DecodeError`] where it is absent.
pub open spec fn apply_tree(t: Option<TreeModel>, form: Seq<char>) -> Option<Seq<char>> {
    match t {
        Option::None => if form.len() == 0 {
            Option::Some(Seq::<char>::empty())
        } else {
            Option::None
        },
        Option::Some(n) => apply_node(n, form),
    }
}

/// Decoding failed: the tree was built for a form of another shape. A
/// recoverable mismatch; callers commonly fall back to the form itself.
#[derive(Clone, Copy, Debug, PartialEq, Eq)]
pub enum DecodeError {
    /// The form segment is shorter than a `MatchNode`'s `pre + suf`, or a
    /// segment facing an absent child is not empty.
    FormTooShort,
    /// The form segment differs from a `ReplaceNode`'s `replacee`.
    ReplaceMismatch,
}

/// A serialized label could not be read back as a tree.
#[derive(Clone, Copy, Debug, PartialEq, Eq)]
pub enum ParseError {
    /// The text does not follow the label grammar.
    Malformed,
    /// A `pre` or `suf` literal does not fit the machine's word size.
    NumberTooLarge,
    /// The label ends inside a node or a quoted segment.
    UnexpectedEnd,
}

/// The policy that picks a substitute lemma when the true lemma is degenerate
/// (empty while the form is not), so that encoding still yields an
/// informative tree.
#[derive(Clone, Debug, PartialEq, Eq)]
pub enum BackoffStrategy {
    /// Use the form itself as the lemma.
    Form,
    /// Use a fixed literal as the lemma.
    Fixed(Vec<char>),
}

/// The string a strategy substitutes for a degenerate lemma.
pub open spec fn backoff_target(strategy: BackoffStrategy, form: Seq<char>) -> Seq<char> {
    match strategy {
        BackoffStrategy::Form => form,
        BackoffStrategy::Fixed(v) => v@,
    }
}

/// The lemma the encoder actually encodes: the given one, except that a
/// degenerate pair (empty lemma, non-empty form) takes the strategy's
/// substitute.
pub open spec fn encode_target(
    form: Seq<char>,
    lemma: Seq<char>,
    strategy: BackoffStrategy,
) -> Seq<char> {
    if lemma.len() == 0 && form.len() > 0 {
        backoff_target(strategy, form)
    } else {
        lemma
    }
}

} // verus!
