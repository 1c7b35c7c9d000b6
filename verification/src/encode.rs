//! Building an edit tree from a `(form, lemma)` pair by recursive
//! longest-common-substring extraction.

use vstd::prelude::*;

use crate::tree::{child_model, node_model, tree_model};
use crate::tree::{backoff_target, encode_target};
use crate::tree::{BackoffStrategy, EditTree, TreeModel};
use crate::util::{clone_chars, subvec};

verus! {

/// The number of leading characters the two sequences share.
pub open spec fn common_prefix_len(a: Seq<char>, b: Seq<char>) -> nat
    decreases a.len(),
{
    if a.len() == 0 || b.len() == 0 || a[0] != b[0] {
        0
    } else {
        1 + common_prefix_len(a.skip(1), b.skip(1))
    }
}

/// The length of the common substring of `form` and `lemma` that starts at
/// offsets `i` and `j`.
pub open spec fn match_len_at(form: Seq<char>, lemma: Seq<char>, i: int, j: int) -> nat {
    common_prefix_len(form.skip(i), lemma.skip(j))
}

/// Whether some character occurs in both sequences, i.e. whether the two
/// share a non-empty common substring.
pub open spec fn has_common(form: Seq<char>, lemma: Seq<char>) -> bool {
    exists|i: int, j: int|
        #![trigger form[i], lemma[j]]
        0 <= i < form.len() && 0 <= j < lemma.len() && form[i] == lemma[j]
}

/// The match the encoder picks: longest; on ties, earliest in the form,
/// then earliest in the lemma.
pub open spec fn is_best_match(form: Seq<char>, lemma: Seq<char>, i: int, j: int, l: int) -> bool {
    &&& 0 <= i < form.len()
    &&& 0 <= j < lemma.len()
    &&& 1 <= l
    &&& l == match_len_at(form, lemma, i, j)
    &&& forall|i2: int, j2: int|
        0 <= i2 < form.len() && 0 <= j2 < lemma.len() ==> #[trigger] match_len_at(
            form,
            lemma,
            i2,
            j2,
        ) <= l
    &&& forall|i2: int, j2: int|
        0 <= i2 < form.len() && 0 <= j2 < lemma.len() && (i2 < i || (i2 == i && j2 < j))
            ==> #[trigger] match_len_at(form, lemma, i2, j2) < l
}

/// Whether `t` is exactly the node the encoder yields for `(form, lemma)`:
/// a `ReplaceNode` of the two segments where they share nothing, otherwise a
/// `MatchNode` around the best match whose children encode the outer
/// segment pairs.
pub open spec fn encodes_node(form: Seq<char>, lemma: Seq<char>, t: TreeModel) -> bool
    decreases t,
{
    match t {
        TreeModel::ReplaceNode { replacee, replacement } => {
            &&& replacee == form
            &&& replacement == lemma
            &&& !has_common(form, lemma)
            &&& !(form.len() == 0 && lemma.len() == 0)
        },
        TreeModel::MatchNode { pre, suf, left, right } => {
            let (j, l) = best_match_of(form, lemma, pre);
            &&& is_best_match(form, lemma, pre, j, l)
            &&& suf == form.len() - pre - l
            &&& encodes_child(form.take(pre), lemma.take(j), left)
            &&& encodes_child(form.skip(pre + l), lemma.skip(j + l), right)
        },
    }
}

/// Whether `c` is exactly the child the encoder yields for `(form, lemma)`:
/// absent for the empty pair, a node otherwise.
pub open spec fn encodes_child(
    form: Seq<char>,
    lemma: Seq<char>,
    c: Option<Box<TreeModel>>,
) -> bool
    decreases c,
{
    match c {
        Option::None => form.len() == 0 && lemma.len() == 0,
        Option::Some(b) => encodes_node(form, lemma, *b),
    }
}

/// Whether `t` is exactly the tree the encoder yields for `(form, lemma)`.
/// This is the encoder's specification.
pub open spec fn encodes(form: Seq<char>, lemma: Seq<char>, t: Option<TreeModel>) -> bool {
    match t {
        Option::None => form.len() == 0 && lemma.len() == 0,
        Option::Some(n) => encodes_node(form, lemma, n),
    }
}

/// The lemma offset and length of the match the encoder picks at form
/// offset `i`, where one exists.
pub open spec fn best_match_of(form: Seq<char>, lemma: Seq<char>, i: int) -> (int, int) {
    choose|j: int, l: int| is_best_match(form, lemma, i, j, l)
}

/// The best match is unique: longest, then earliest in the form, then
/// earliest in the lemma leaves exactly one triple.
pub proof fn lemma_best_match_unique(
    form: Seq<char>,
    lemma: Seq<char>,
    i1: int,
    j1: int,
    l1: int,
    i2: int,
    j2: int,
    l2: int,
)
    requires
        is_best_match(form, lemma, i1, j1, l1),
        is_best_match(form, lemma, i2, j2, l2),
    ensures
        i1 == i2,
        j1 == j2,
        l1 == l2,
{
    assert(match_len_at(form, lemma, i1, j1) <= l2);
    assert(match_len_at(form, lemma, i2, j2) <= l1);
    if i1 < i2 || (i1 == i2 && j1 < j2) {
        assert(match_len_at(form, lemma, i1, j1) < l2);
    }
    if i2 < i1 || (i2 == i1 && j2 < j1) {
        assert(match_len_at(form, lemma, i2, j2) < l1);
    }
}

/// A `MatchNode` built around a best match, with children that encode the
/// outer segment pairs, encodes the pair itself.
pub proof fn lemma_match_node_encodes(
    form: Seq<char>,
    lemma: Seq<char>,
    i: int,
    j: int,
    l: int,
    suf: int,
    left: Option<Box<TreeModel>>,
    right: Option<Box<TreeModel>>,
)
    requires
        is_best_match(form, lemma, i, j, l),
        suf == form.len() - i - l,
        encodes_child(form.take(i), lemma.take(j), left),
        encodes_child(form.skip(i + l), lemma.skip(j + l), right),
    ensures
        encodes_node(form, lemma, TreeModel::MatchNode { pre: i, suf, left, right }),
{
    assert(exists|j2: int, l2: int| is_best_match(form, lemma, i, j2, l2));
    let (jc, lc) = best_match_of(form, lemma, i);
    assert(is_best_match(form, lemma, i, jc, lc));
    lemma_best_match_unique(form, lemma, i, jc, lc, i, j, l);
}

/// The common prefix is no longer than either sequence.
pub proof fn lemma_cpl_le(a: Seq<char>, b: Seq<char>)
    ensures
        common_prefix_len(a, b) <= a.len(),
        common_prefix_len(a, b) <= b.len(),
    decreases a.len(),
{
    if a.len() == 0 || b.len() == 0 || a[0] != b[0] {
    } else {
        lemma_cpl_le(a.skip(1), b.skip(1));
    }
}

/// Characters within the common prefix agree.
pub proof fn lemma_cpl_agree(a: Seq<char>, b: Seq<char>, k: int)
    requires
        0 <= k < common_prefix_len(a, b),
    ensures
        a[k] == b[k],
    decreases k,
{
    lemma_cpl_le(a, b);
    assert(a.len() > 0 && b.len() > 0 && a[0] == b[0]);
    if k == 0 {
    } else {
        assert(common_prefix_len(a, b) == 1 + common_prefix_len(a.skip(1), b.skip(1)));
        lemma_cpl_agree(a.skip(1), b.skip(1), k - 1);
        assert(a.skip(1)[k - 1] == a[k]);
        assert(b.skip(1)[k - 1] == b[k]);
    }
}

/// Pointwise agreement up to `l`, followed by an end or a mismatch, pins
/// the common prefix length to `l`.
pub proof fn lemma_cpl_exact(a: Seq<char>, b: Seq<char>, l: int)
    requires
        0 <= l <= a.len(),
        l <= b.len(),
        forall|k: int| 0 <= k < l ==> a[k] == b[k],
        l == a.len() || l == b.len() || a[l] != b[l],
    ensures
        common_prefix_len(a, b) == l,
    decreases l,
{
    if l == 0 {
    } else {
        assert(a[0] == b[0]);
        let a2 = a.skip(1);
        let b2 = b.skip(1);
        assert forall|k: int| 0 <= k < l - 1 implies a2[k] == b2[k] by {
            assert(a[k + 1] == b[k + 1]);
        }
        if l - 1 < a2.len() && l - 1 < b2.len() {
            assert(a2[l - 1] == a[l]);
            assert(b2[l - 1] == b[l]);
        }
        lemma_cpl_exact(a2, b2, l - 1);
    }
}

/// The length of the match at offsets `i`, `j`: how far the two sequences
/// agree from there on.
fn match_length(form: &Vec<char>, lemma: &Vec<char>, i: usize, j: usize) -> (l: usize)
    requires
        i < form@.len(),
        j < lemma@.len(),
    ensures
        l == match_len_at(form@, lemma@, i as int, j as int),
{
    let mut l: usize = 0;
    while l < form.len() - i && l < lemma.len() - j && form[i + l] == lemma[j + l]
        invariant
            i + l <= form@.len(),
            j + l <= lemma@.len(),
            forall|k: int|
                #![trigger form@[i + k]]
                0 <= k < l ==> form@[i + k] == lemma@[j + k],
        decreases form@.len() - i - l,
    {
        l = l + 1;
    }
    proof {
        let a = form@.skip(i as int);
        let b = lemma@.skip(j as int);
        assert forall|k: int| 0 <= k < l implies a[k] == b[k] by {
            assert(form@[i + k] == lemma@[j + k]);
        }
        if (l as int) < a.len() && (l as int) < b.len() {
            assert(a[l as int] == form@[i + l]);
            assert(b[l as int] == lemma@[j + l]);
        }
        lemma_cpl_exact(a, b, l as int);
    }
    l
}

/// The best match of the pair under the encoder's rule, or nothing when the
/// two sequences share no character.
fn find_best_match(form: &Vec<char>, lemma: &Vec<char>) -> (r: Option<(usize, usize, usize)>)
    ensures
        match r {
            Some(m) => is_best_match(form@, lemma@, m.0 as int, m.1 as int, m.2 as int),
            None => !has_common(form@, lemma@),
        },
{
    let mut bi: usize = 0;
    let mut bj: usize = 0;
    let mut bl: usize = 0;
    let mut i: usize = 0;
    while i < form.len()
        invariant
            i <= form@.len(),
            bl == 0 ==> bi == 0 && bj == 0,
            bl > 0 ==> bi < form@.len() && bj < lemma@.len() && bi < i && bl == match_len_at(
                form@,
                lemma@,
                bi as int,
                bj as int,
            ),
            forall|i2: int, j2: int|
                0 <= i2 < i && 0 <= j2 < lemma@.len() ==> #[trigger] match_len_at(
                    form@,
                    lemma@,
                    i2,
                    j2,
                ) <= bl,
            forall|i2: int, j2: int|
                0 <= i2 < i && 0 <= j2 < lemma@.len() && (i2 < bi || (i2 == bi && j2 < bj))
                    ==> #[trigger] match_len_at(form@, lemma@, i2, j2) < bl,
        decreases form@.len() - i,
    {
        let mut j: usize = 0;
        while j < lemma.len()
            invariant
                i < form@.len(),
                j <= lemma@.len(),
                bl == 0 ==> bi == 0 && bj == 0,
                bl > 0 ==> bi < form@.len() && bj < lemma@.len() && (bi < i || (bi == i && bj < j))
                    && bl == match_len_at(form@, lemma@, bi as int, bj as int),
                forall|i2: int, j2: int|
                    (0 <= i2 < i && 0 <= j2 < lemma@.len()) || (i2 == i && 0 <= j2 < j)
                        ==> #[trigger] match_len_at(form@, lemma@, i2, j2) <= bl,
                forall|i2: int, j2: int|
                    ((0 <= i2 < i && 0 <= j2 < lemma@.len()) || (i2 == i && 0 <= j2 < j)) && (i2
                        < bi || (i2 == bi && j2 < bj)) ==> #[trigger] match_len_at(
                        form@,
                        lemma@,
                        i2,
                        j2,
                    ) < bl,
            decreases lemma@.len() - j,
        {
            let l = match_length(form, lemma, i, j);
            if l > bl {
                bi = i;
                bj = j;
                bl = l;
            }
            j = j + 1;
        }
        i = i + 1;
    }
    if bl > 0 {
        Some((bi, bj, bl))
    } else {
        proof {
            assert forall|i2: int, j2: int|
                0 <= i2 < form@.len() && 0 <= j2 < lemma@.len() implies form@[i2]
                != lemma@[j2] by {
                if form@[i2] == lemma@[j2] {
                    let a = form@.skip(i2);
                    let b = lemma@.skip(j2);
                    assert(a[0] == form@[i2]);
                    assert(b[0] == lemma@[j2]);
                    assert(common_prefix_len(a, b) >= 1);
                    assert(match_len_at(form@, lemma@, i2, j2) <= 0);
                }
            }
        }
        None
    }
}

/// Builds the tree for the pair `(form, lemma)`: the empty tree for the
/// empty pair, a `ReplaceNode` where the two share nothing, and otherwise a
/// `MatchNode` around the best match, with the outer segment pairs encoded
/// recursively.
fn build_tree(form: &Vec<char>, lemma: &Vec<char>) -> (t: Option<EditTree>)
    ensures
        encodes(form@, lemma@, tree_model(t)),
    decreases form@.len(),
{
    if form.len() == 0 && lemma.len() == 0 {
        return None;
    }
    match find_best_match(form, lemma) {
        Option::Some((i, j, l)) => {
            proof {
                lemma_cpl_le(form@.skip(i as int), lemma@.skip(j as int));
                assert(l == match_len_at(form@, lemma@, i as int, j as int));
                assert(i + l <= form@.len());
                assert(j + l <= lemma@.len());
            }
            let llen = lemma.len();
            let form_head = subvec(form, 0, i);
            let lemma_head = subvec(lemma, 0, j);
            let form_tail = subvec(form, i + l, form.len());
            let lemma_tail = subvec(lemma, j + l, llen);
            let left = match build_tree(&form_head, &lemma_head) {
                Option::Some(t) => Option::Some(Box::new(t)),
                Option::None => Option::None,
            };
            let right = match build_tree(&form_tail, &lemma_tail) {
                Option::Some(t) => Option::Some(Box::new(t)),
                Option::None => Option::None,
            };
            let suf = form.len() - i - l;
            let node = EditTree::MatchNode { pre: i, suf, left, right };
            proof {
                assert(form_head@ =~= form@.take(i as int));
                assert(lemma_head@ =~= lemma@.take(j as int));
                assert(form_tail@ =~= form@.skip(i + l));
                assert(lemma_tail@ =~= lemma@.skip(j + l));
                assert(is_best_match(form@, lemma@, i as int, j as int, l as int));
                assert((suf as int) == form@.len() - (i as int) - (l as int));
                assert(encodes_child(form@.take(i as int), lemma@.take(j as int), child_model(left)));
                assert(encodes_child(
                    form@.skip((i as int) + (l as int)),
                    lemma@.skip((j as int) + (l as int)),
                    child_model(right),
                ));
                let nm = node_model(node);
                assert(nm == TreeModel::MatchNode {
                    pre: i as int,
                    suf: suf as int,
                    left: child_model(left),
                    right: child_model(right),
                });
                lemma_match_node_encodes(
                    form@,
                    lemma@,
                    i as int,
                    j as int,
                    l as int,
                    suf as int,
                    child_model(left),
                    child_model(right),
                );
                assert(encodes_node(form@, lemma@, nm));
            }
            Some(node)
        },
        Option::None => {
            let node = EditTree::ReplaceNode {
                replacee: clone_chars(form),
                replacement: clone_chars(lemma),
            };
            Some(node)
        },
    }
}

/// The fallback lemma the strategy picks for a degenerate pair.
fn backoff_lemma(strategy: &BackoffStrategy, form: &Vec<char>) -> (out: Vec<char>)
    ensures
        out@ == backoff_target(*strategy, form@),
{
    match strategy {
        BackoffStrategy::Form => clone_chars(form),
        BackoffStrategy::Fixed(v) => clone_chars(v),
    }
}

/// Encodes the pair `(form, lemma)` as an edit tree. A degenerate pair
/// (empty lemma, non-empty form) is first repaired with the strategy's
/// substitute lemma; the result is exactly the tree that [`encodes`]
/// describes for the repaired pair.
pub fn encode(form: &Vec<char>, lemma: &Vec<char>, strategy: &BackoffStrategy) -> (t: Option<
    EditTree,
>)
    ensures
        encodes(form@, encode_target(form@, lemma@, *strategy), tree_model(t)),
{
    if lemma.len() == 0 && form.len() > 0 {
        let fallback = backoff_lemma(strategy, form);
        build_tree(form, &fallback)
    } else {
        build_tree(form, lemma)
    }
}

} // verus!
