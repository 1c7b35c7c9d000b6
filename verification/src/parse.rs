//! Reading a canonical label back into an edit tree.
//!
//! The parser accepts exactly the sequences that [`crate::label::ser_tree`]
//! produces: its success cases, failure cases and results are all stated
//! against that one spec function, which makes serialization and parsing
//! exact inverses.

use vstd::prelude::*;

use crate::label::{
    dec_rep, digit_char, esc_char, esc_str, quoted_rep, ser_child, ser_node,
    ser_tree,
};
use crate::tree::{child_model, node_model, tree_model};
use crate::tree::{EditTree, ParseError, TreeModel};
use crate::util::{chars_of, prepend};

verus! {

/// Whether `pat` occurs in `s` at position `p`.
pub open spec fn starts_with(s: Seq<char>, p: int, pat: Seq<char>) -> bool {
    &&& 0 <= p
    &&& p + pat.len() <= s.len()
    &&& s.subrange(p, p + pat.len()) == pat
}

/// Whether `c` is a decimal digit.
pub open spec fn is_digit_char(c: char) -> bool {
    ||| c == '0'
    ||| c == '1'
    ||| c == '2'
    ||| c == '3'
    ||| c == '4'
    ||| c == '5'
    ||| c == '6'
    ||| c == '7'
    ||| c == '8'
    ||| c == '9'
}

/// The value of a digit character.
pub open spec fn digit_val(c: char) -> nat {
    if c == '0' {
        0
    } else if c == '1' {
        1
    } else if c == '2' {
        2
    } else if c == '3' {
        3
    } else if c == '4' {
        4
    } else if c == '5' {
        5
    } else if c == '6' {
        6
    } else if c == '7' {
        7
    } else if c == '8' {
        8
    } else {
        9
    }
}

/// The number a digit run stands for, most significant digit first.
pub open spec fn digits_val(ds: Seq<char>) -> nat
    decreases ds.len(),
{
    if ds.len() == 0 {
        0
    } else {
        digits_val(ds.drop_last()) * 10 + digit_val(ds.last())
    }
}

/// Whether the canonical decimal representation of `n` occurs at `p` and is
/// followed by a non-digit or the end, as it is inside a label.
pub open spec fn num_starts_at(s: Seq<char>, p: int, n: nat) -> bool {
    &&& starts_with(s, p, dec_rep(n))
    &&& (p + dec_rep(n).len() == s.len() || !is_digit_char(s[p + dec_rep(n).len()]))
}

/// A model tree whose counters fit the machine word, as every model of a
/// real tree does.
pub open spec fn wf_node(t: TreeModel) -> bool
    decreases t,
{
    match t {
        TreeModel::MatchNode { pre, suf, left, right } => {
            &&& 0 <= pre <= usize::MAX
            &&& 0 <= suf <= usize::MAX
            &&& wf_child(left)
            &&& wf_child(right)
        },
        TreeModel::ReplaceNode { .. } => true,
    }
}

/// A well-formed optional child.
pub open spec fn wf_child(c: Option<Box<TreeModel>>) -> bool
    decreases c,
{
    match c {
        Option::None => true,
        Option::Some(b) => wf_node(*b),
    }
}

/// A well-formed optional tree.
pub open spec fn wf_tree(t: Option<TreeModel>) -> bool {
    match t {
        Option::None => true,
        Option::Some(n) => wf_node(n),
    }
}

/// The tree a child stands for, with the indirection removed.
pub open spec fn child_as_tree(c: Option<Box<TreeModel>>) -> Option<TreeModel> {
    match c {
        Option::None => Option::None,
        Option::Some(b) => Option::Some(*b),
    }
}

/// The model of a real tree is well formed.
pub proof fn lemma_node_model_wf(t: EditTree)
    ensures
        wf_node(node_model(t)),
    decreases t,
{
    match t {
        EditTree::MatchNode { pre, suf, left, right } => {
            lemma_child_model_wf(left);
            lemma_child_model_wf(right);
        },
        EditTree::ReplaceNode { .. } => {
        },
    }
}

/// The model of a real child is well formed.
pub proof fn lemma_child_model_wf(c: Option<Box<EditTree>>)
    ensures
        wf_child(child_model(c)),
    decreases c,
{
    match c {
        Option::None => {
        },
        Option::Some(b) => {
            lemma_node_model_wf(*b);
        },
    }
}

/// The model of a real optional tree is well formed.
pub proof fn lemma_tree_model_wf(t: Option<EditTree>)
    ensures
        wf_tree(tree_model(t)),
{
    match t {
        Option::None => {
        },
        Option::Some(n) => {
            lemma_node_model_wf(n);
        },
    }
}

/// A pattern made of two parts occurs at `p` exactly when the first part
/// occurs at `p` and the second right after it.
pub proof fn lemma_starts_with_concat(s: Seq<char>, p: int, a: Seq<char>, b: Seq<char>)
    ensures
        starts_with(s, p, a + b) <==> (starts_with(s, p, a) && starts_with(s, p + a.len(), b)),
{
    if starts_with(s, p, a + b) {
        assert forall|k: int| 0 <= k < a.len() implies s.subrange(p, p + a.len())[k] == a[k] by {
            assert(s.subrange(p, p + (a + b).len())[k] == (a + b)[k]);
            assert(s.subrange(p, p + a.len())[k] == s[p + k]);
            assert(s.subrange(p, p + (a + b).len())[k] == s[p + k]);
        }
        assert(s.subrange(p, p + a.len()) =~= a);
        assert forall|k: int| 0 <= k < b.len() implies s.subrange(
            p + a.len(),
            p + a.len() + b.len(),
        )[k] == b[k] by {
            assert(s.subrange(p, p + (a + b).len())[a.len() + k] == (a + b)[a.len() + k]);
            assert((a + b)[a.len() + k] == b[k]);
            assert(s.subrange(p + a.len(), p + a.len() + b.len())[k] == s[p + a.len() + k]);
            assert(s.subrange(p, p + (a + b).len())[a.len() + k] == s[p + a.len() + k]);
        }
        assert(s.subrange(p + a.len(), p + a.len() + b.len()) =~= b);
    }
    if starts_with(s, p, a) && starts_with(s, p + a.len(), b) {
        assert forall|k: int| 0 <= k < (a + b).len() implies s.subrange(p, p + (a + b).len())[k]
            == (a + b)[k] by {
            if k < a.len() {
                assert(s.subrange(p, p + a.len())[k] == a[k]);
            } else {
                assert(s.subrange(p + a.len(), p + a.len() + b.len())[k - a.len()] == b[k
                    - a.len()]);
            }
        }
        assert(s.subrange(p, p + (a + b).len()) =~= a + b);
    }
}

/// The decimal representation holds digits only, at least one, and starts
/// with zero only for zero itself.
pub proof fn lemma_dec_rep_shape(n: nat)
    ensures
        dec_rep(n).len() >= 1,
        forall|k: int| 0 <= k < dec_rep(n).len() ==> is_digit_char(#[trigger] dec_rep(n)[k]),
        n == 0 ==> dec_rep(n) == seq!['0'],
        n > 0 ==> dec_rep(n)[0] != '0',
    decreases n,
{
    if n < 10 {
    } else {
        lemma_dec_rep_shape(n / 10);
        assert forall|k: int| 0 <= k < dec_rep(n).len() implies is_digit_char(
            #[trigger] dec_rep(n)[k],
        ) by {
            if k < dec_rep(n / 10).len() {
                assert(dec_rep(n)[k] == dec_rep(n / 10)[k]);
            } else {
                assert(dec_rep(n)[k] == digit_char(n % 10));
            }
        }
        assert(dec_rep(n)[0] == dec_rep(n / 10)[0]);
    }
}

/// The decimal representation stands for its number.
pub proof fn lemma_dec_rep_val(n: nat)
    ensures
        digits_val(dec_rep(n)) == n,
    decreases n,
{
    if n < 10 {
        assert(dec_rep(n).drop_last() =~= Seq::<char>::empty());
        assert(digits_val(Seq::<char>::empty()) == 0);
        assert(dec_rep(n).last() == digit_char(n));
        assert(digit_val(digit_char(n)) == n);
    } else {
        lemma_dec_rep_val(n / 10);
        assert(dec_rep(n).drop_last() =~= dec_rep(n / 10));
        assert(dec_rep(n).last() == digit_char(n % 10));
        assert(digit_val(digit_char(n % 10)) == n % 10);
        assert(n / 10 * 10 + n % 10 == n) by {
            vstd::arithmetic::div_mod::lemma_fundamental_div_mod(n as int, 10);
        }
    }
}

/// A digit run that does not start with a spare zero is the decimal
/// representation of its own value.
pub proof fn lemma_digits_canonical(ds: Seq<char>)
    requires
        ds.len() >= 1,
        forall|k: int| 0 <= k < ds.len() ==> is_digit_char(#[trigger] ds[k]),
        ds.len() > 1 ==> ds[0] != '0',
    ensures
        dec_rep(digits_val(ds)) == ds,
    decreases ds.len(),
{
    let v = digits_val(ds);
    if ds.len() == 1 {
        assert(ds.drop_last() =~= Seq::<char>::empty());
        assert(digits_val(Seq::<char>::empty()) == 0);
        assert(ds.last() == ds[0]);
        assert(v == digit_val(ds[0]));
        assert(digit_char(digit_val(ds[0])) == ds[0]);
        assert(dec_rep(v) =~= ds);
    } else {
        let head = ds.drop_last();
        let hv = digits_val(head);
        assert(head[0] == ds[0]);
        assert forall|k: int| 0 <= k < head.len() implies is_digit_char(#[trigger] head[k]) by {
            assert(head[k] == ds[k]);
        }
        lemma_digits_canonical(head);
        lemma_digits_pos(head);
        let d = digit_val(ds.last());
        assert(v == hv * 10 + d);
        assert(v >= 10) by {
            assert(hv >= 1);
            assert(hv * 10 >= 10) by (nonlinear_arith)
                requires
                    hv >= 1,
            ;
        }
        assert(v / 10 == hv && v % 10 == d) by (nonlinear_arith)
            requires
                v == hv * 10 + d,
                0 <= d < 10,
                hv >= 0,
        ;
        assert(digit_char(digit_val(ds.last())) == ds.last());
        assert(dec_rep(v) == dec_rep(hv).push(digit_char(d)));
        assert(dec_rep(v) =~= ds);
    }
}

/// A digit run that does not start with zero stands for a positive number.
pub proof fn lemma_digits_pos(ds: Seq<char>)
    requires
        ds.len() >= 1,
        forall|k: int| 0 <= k < ds.len() ==> is_digit_char(#[trigger] ds[k]),
        ds[0] != '0',
    ensures
        digits_val(ds) >= 1,
    decreases ds.len(),
{
    if ds.len() == 1 {
        assert(digit_val(ds[0]) >= 1);
    } else {
        let head = ds.drop_last();
        assert(head[0] == ds[0]);
        assert forall|k: int| 0 <= k < head.len() implies is_digit_char(#[trigger] head[k]) by {
            assert(head[k] == ds[k]);
        }
        lemma_digits_pos(head);
        assert(digits_val(head) * 10 >= 10) by (nonlinear_arith)
            requires
                digits_val(head) >= 1,
        ;
    }
}

/// A longer digit run stands for at least as much as its prefix.
pub proof fn lemma_digits_prefix_le(ds: Seq<char>, m: int)
    requires
        0 <= m <= ds.len(),
    ensures
        digits_val(ds.take(m)) <= digits_val(ds),
    decreases ds.len() - m,
{
    if m == ds.len() {
        assert(ds.take(m) =~= ds);
    } else {
        lemma_digits_prefix_le(ds, m + 1);
        assert(ds.take(m + 1).drop_last() =~= ds.take(m));
        assert(digits_val(ds.take(m + 1)) == digits_val(ds.take(m)) * 10 + digit_val(
            ds.take(m + 1).last(),
        ));
        assert(digits_val(ds.take(m)) * 10 >= digits_val(ds.take(m))) by (nonlinear_arith)
            requires
                digits_val(ds.take(m)) >= 0,
        ;
    }
}

/// The escaped content of a quoted segment together with its closing
/// quote: what follows the opening quote in [`quoted_rep`].
pub open spec fn qbody_rep(q: Seq<char>) -> Seq<char> {
    esc_str(q) + seq!['"']
}

/// Peels the first character off a quoted body: how its escaped form
/// constrains the characters at `p`.
proof fn lemma_qbody_step(s: Seq<char>, p: int, q: Seq<char>)
    requires
        starts_with(s, p, qbody_rep(q)),
        q.len() > 0,
    ensures
        s[p] == esc_char(q[0])[0],
        s[p] != '"',
        (q[0] == '"' || q[0] == '\\') ==> s[p] == '\\' && p + 2 <= s.len() && s[p + 1] == q[0]
            && starts_with(s, p + 2, qbody_rep(q.skip(1))),
        !(q[0] == '"' || q[0] == '\\') ==> s[p] == q[0] && starts_with(
            s,
            p + 1,
            qbody_rep(q.skip(1)),
        ),
{
    assert(esc_str(q) == esc_char(q[0]) + esc_str(q.skip(1)));
    assert(qbody_rep(q) =~= esc_char(q[0]) + qbody_rep(q.skip(1)));
    lemma_starts_with_concat(s, p, esc_char(q[0]), qbody_rep(q.skip(1)));
    let e = esc_char(q[0]);
    assert(s.subrange(p, p + e.len())[0] == s[p]);
    if q[0] == '"' || q[0] == '\\' {
        assert(e[0] == '\\' && e[1] == q[0]);
        assert(s.subrange(p, p + 2)[1] == s[p + 1]);
    }
}

/// The body of a quoted segment whose first input character is `'"'` is
/// empty, and one that continues has at least one character.
proof fn lemma_qbody_first(s: Seq<char>, p: int, q: Seq<char>)
    requires
        starts_with(s, p, qbody_rep(q)),
    ensures
        p < s.len(),
        q.len() == 0 ==> s[p] == '"',
        q.len() > 0 ==> s[p] != '"',
{
    if q.len() == 0 {
        assert(qbody_rep(q) =~= seq!['"']);
        assert(s.subrange(p, p + 1)[0] == s[p]);
    } else {
        lemma_qbody_step(s, p, q);
    }
}

/// Reads the escaped content of a quoted segment up to and including its
/// closing quote. Succeeds on — and exactly on — the bodies that
/// [`qbody_rep`] writes.
fn parse_qbody(s: &Vec<char>, pos: usize) -> (r: Result<(Vec<char>, usize), ParseError>)
    requires
        pos <= s@.len(),
    ensures
        r matches Ok(p) ==> pos < p.1 <= s@.len() && s@.subrange(pos as int, p.1 as int)
            == qbody_rep(p.0@),
        r matches Ok(p) ==> forall|q: Seq<char>|
            #[trigger] starts_with(s@, pos as int, qbody_rep(q)) ==> q == p.0@ && p.1 == pos
                + qbody_rep(q).len(),
        r matches Err(e) ==> forall|q: Seq<char>| !#[trigger] starts_with(
            s@,
            pos as int,
            qbody_rep(q),
        ),
    decreases s@.len() - pos,
{
    if pos >= s.len() {
        proof {
            assert forall|q: Seq<char>| !#[trigger] starts_with(s@, pos as int, qbody_rep(q)) by {
                if starts_with(s@, pos as int, qbody_rep(q)) {
                    lemma_qbody_first(s@, pos as int, q);
                }
            }
        }
        return Err(ParseError::UnexpectedEnd);
    }
    let c = s[pos];
    if c == '"' {
        let out: Vec<char> = Vec::new();
        proof {
            assert(qbody_rep(out@) =~= seq!['"']);
            assert(s@.subrange(pos as int, pos + 1) =~= seq!['"']);
            assert forall|q: Seq<char>| #[trigger] starts_with(s@, pos as int, qbody_rep(q))
                implies q == out@ && pos + 1 == pos + qbody_rep(q).len() by {
                lemma_qbody_first(s@, pos as int, q);
                assert(q.len() == 0);
                assert(q =~= out@);
                assert(qbody_rep(q) =~= seq!['"']);
            }
        }
        return Ok((out, pos + 1));
    }
    if c == '\\' {
        if pos + 1 >= s.len() {
            proof {
                assert forall|q: Seq<char>| !#[trigger] starts_with(s@, pos as int, qbody_rep(q))
                    by {
                    if starts_with(s@, pos as int, qbody_rep(q)) {
                        lemma_qbody_first(s@, pos as int, q);
                        lemma_qbody_step(s@, pos as int, q);
                        assert(q[0] == '"' || q[0] == '\\');
                    }
                }
            }
            return Err(ParseError::UnexpectedEnd);
        }
        let c2 = s[pos + 1];
        if c2 != '"' && c2 != '\\' {
            proof {
                assert forall|q: Seq<char>| !#[trigger] starts_with(s@, pos as int, qbody_rep(q))
                    by {
                    if starts_with(s@, pos as int, qbody_rep(q)) {
                        lemma_qbody_first(s@, pos as int, q);
                        lemma_qbody_step(s@, pos as int, q);
                        assert(q[0] == '"' || q[0] == '\\');
                    }
                }
            }
            return Err(ParseError::Malformed);
        }
        match parse_qbody(s, pos + 2) {
            Ok((rest, end)) => {
                let out = prepend(c2, rest);
                proof {
                    assert(out@[0] == c2);
                    assert(out@.skip(1) =~= rest@);
                    assert(esc_str(out@) == esc_char(c2) + esc_str(rest@));
                    assert(qbody_rep(out@) =~= esc_char(c2) + qbody_rep(rest@));
                    assert(esc_char(c2) =~= seq!['\\', c2]);
                    assert(s@.subrange(pos as int, pos + 2) =~= seq!['\\', c2]);
                    lemma_starts_with_concat(s@, pos as int, esc_char(c2), qbody_rep(rest@));
                    assert(starts_with(s@, pos + 2, qbody_rep(rest@)));
                    assert(starts_with(s@, pos as int, qbody_rep(out@)));
                    assert(s@.subrange(pos as int, end as int) == qbody_rep(out@));
                    assert forall|q: Seq<char>| #[trigger] starts_with(
                        s@,
                        pos as int,
                        qbody_rep(q),
                    ) implies q == out@ && end == pos + qbody_rep(q).len() by {
                        lemma_qbody_first(s@, pos as int, q);
                        lemma_qbody_step(s@, pos as int, q);
                        assert(q[0] == c2);
                        assert(q.skip(1) == rest@);
                        assert(q =~= seq![c2] + rest@);
                        assert(out@ =~= seq![c2] + rest@);
                    }
                }
                Ok((out, end))
            },
            Err(e) => {
                proof {
                    assert forall|q: Seq<char>| !#[trigger] starts_with(
                        s@,
                        pos as int,
                        qbody_rep(q),
                    ) by {
                        if starts_with(s@, pos as int, qbody_rep(q)) {
                            lemma_qbody_first(s@, pos as int, q);
                            lemma_qbody_step(s@, pos as int, q);
                        }
                    }
                }
                Err(e)
            },
        }
    } else {
        match parse_qbody(s, pos + 1) {
            Ok((rest, end)) => {
                let out = prepend(c, rest);
                proof {
                    assert(out@[0] == c);
                    assert(out@.skip(1) =~= rest@);
                    assert(esc_str(out@) == esc_char(c) + esc_str(rest@));
                    assert(qbody_rep(out@) =~= esc_char(c) + qbody_rep(rest@));
                    assert(esc_char(c) =~= seq![c]);
                    assert(s@.subrange(pos as int, pos + 1) =~= seq![c]);
                    lemma_starts_with_concat(s@, pos as int, esc_char(c), qbody_rep(rest@));
                    assert(starts_with(s@, pos + 1, qbody_rep(rest@)));
                    assert(starts_with(s@, pos as int, qbody_rep(out@)));
                    assert(s@.subrange(pos as int, end as int) == qbody_rep(out@));
                    assert forall|q: Seq<char>| #[trigger] starts_with(
                        s@,
                        pos as int,
                        qbody_rep(q),
                    ) implies q == out@ && end == pos + qbody_rep(q).len() by {
                        lemma_qbody_first(s@, pos as int, q);
                        lemma_qbody_step(s@, pos as int, q);
                        assert(!(q[0] == '"' || q[0] == '\\'));
                        assert(q[0] == c);
                        assert(q.skip(1) == rest@);
                        assert(q =~= seq![c] + rest@);
                        assert(out@ =~= seq![c] + rest@);
                    }
                }
                Ok((out, end))
            },
            Err(e) => {
                proof {
                    assert forall|q: Seq<char>| !#[trigger] starts_with(
                        s@,
                        pos as int,
                        qbody_rep(q),
                    ) by {
                        if starts_with(s@, pos as int, qbody_rep(q)) {
                            lemma_qbody_first(s@, pos as int, q);
                            lemma_qbody_step(s@, pos as int, q);
                        }
                    }
                }
                Err(e)
            },
        }
    }
}

/// Reads a quoted segment at `pos`: an opening quote, escaped content, a
/// closing quote. Succeeds on — and exactly on — the segments that
/// [`quoted_rep`] writes.
fn parse_quoted(s: &Vec<char>, pos: usize) -> (r: Result<(Vec<char>, usize), ParseError>)
    requires
        pos <= s@.len(),
    ensures
        r matches Ok(p) ==> pos < p.1 <= s@.len() && s@.subrange(pos as int, p.1 as int)
            == quoted_rep(p.0@),
        r matches Ok(p) ==> forall|q: Seq<char>|
            #[trigger] starts_with(s@, pos as int, quoted_rep(q)) ==> q == p.0@ && p.1 == pos
                + quoted_rep(q).len(),
        r matches Err(e) ==> forall|q: Seq<char>| !#[trigger] starts_with(
            s@,
            pos as int,
            quoted_rep(q),
        ),
    decreases s@.len() - pos,
{
    proof {
        assert forall|q: Seq<char>| #[trigger] starts_with(s@, pos as int, quoted_rep(q))
            implies pos < s@.len() && s@[pos as int] == '"' && starts_with(
            s@,
            pos + 1,
            qbody_rep(q),
        ) by {
            assert(quoted_rep(q) =~= seq!['"'] + qbody_rep(q));
            lemma_starts_with_concat(s@, pos as int, seq!['"'], qbody_rep(q));
            assert(s@.subrange(pos as int, pos + 1)[0] == s@[pos as int]);
        }
    }
    if pos >= s.len() || s[pos] != '"' {
        return Err(ParseError::Malformed);
    }
    match parse_qbody(s, pos + 1) {
        Ok((q, end)) => {
            proof {
                assert(quoted_rep(q@) =~= seq!['"'] + qbody_rep(q@));
                assert(s@.subrange(pos as int, pos + 1) =~= seq!['"']);
                lemma_starts_with_concat(s@, pos as int, seq!['"'], qbody_rep(q@));
                assert(starts_with(s@, pos + 1, qbody_rep(q@)));
                assert(starts_with(s@, pos as int, quoted_rep(q@)));
                assert(s@.subrange(pos as int, end as int) == quoted_rep(q@));
            }
            Ok((q, end))
        },
        Err(e) => Err(e),
    }
}

/// Whether `c` is a decimal digit.
fn is_digit(c: char) -> (r: bool)
    ensures
        r == is_digit_char(c),
{
    c == '0' || c == '1' || c == '2' || c == '3' || c == '4' || c == '5' || c == '6' || c == '7'
        || c == '8' || c == '9'
}

/// The value of a digit character.
fn digit_value(c: char) -> (r: usize)
    requires
        is_digit_char(c),
    ensures
        r == digit_val(c),
        r < 10,
{
    if c == '0' {
        0
    } else if c == '1' {
        1
    } else if c == '2' {
        2
    } else if c == '3' {
        3
    } else if c == '4' {
        4
    } else if c == '5' {
        5
    } else if c == '6' {
        6
    } else if c == '7' {
        7
    } else if c == '8' {
        8
    } else {
        9
    }
}

/// A child's label is the label of the tree it stands for.
proof fn lemma_ser_child_as_tree(c: Option<Box<TreeModel>>)
    ensures
        ser_child(c) == ser_tree(child_as_tree(c)),
{
}

/// Two children that stand for the same tree are the same child.
proof fn lemma_child_as_tree_inj(c1: Option<Box<TreeModel>>, c2: Option<Box<TreeModel>>)
    requires
        child_as_tree(c1) == child_as_tree(c2),
    ensures
        c1 == c2,
{
    match (c1, c2) {
        (Option::Some(b1), Option::Some(b2)) => {
            assert(*b1 == *b2);
        },
        _ => {
        },
    }
}

/// The first two characters of a label: an opening parenthesis, then a
/// character that names the node kind.
proof fn lemma_ser_discriminate(s: Seq<char>, p: int, t2: Option<TreeModel>)
    requires
        starts_with(s, p, ser_tree(t2)),
    ensures
        p + 2 <= s.len(),
        s[p] == '(',
        (t2 is None) ==> s[p + 1] == ')',
        (t2 matches Some(n) && n is MatchNode) ==> s[p + 1] == 'm',
        (t2 matches Some(n) && n is ReplaceNode) ==> s[p + 1] == 'r',
{
    let w = ser_tree(t2);
    match t2 {
        Option::None => {
            assert(w.len() == 2 && w[0] == '(' && w[1] == ')');
        },
        Option::Some(n) => {
            match n {
                TreeModel::MatchNode { pre, suf, left, right } => {
                    let a = seq!['(', 'm', ' '];
                    let x = a + dec_rep(pre as nat) + seq![' '] + dec_rep(suf as nat) + seq![' ']
                        + ser_child(left) + seq![' '] + ser_child(right);
                    assert(w == x + seq![')']);
                    assert(w[0] == a[0] && w[1] == a[1]);
                },
                TreeModel::ReplaceNode { replacee, replacement } => {
                    let a = seq!['(', 'r', ' '];
                    let x = a + quoted_rep(replacee) + seq![' '] + quoted_rep(replacement);
                    assert(w == x + seq![')']);
                    assert(w[0] == a[0] && w[1] == a[1]);
                },
            }
        },
    }
    assert(s.subrange(p, p + w.len())[0] == s[p]);
    assert(s.subrange(p, p + w.len())[1] == s[p + 1]);
}

/// How the label of a `MatchNode` lays its parts out in the input: the
/// positions of its counters, children and separators.
proof fn lemma_match_parts(
    s: Seq<char>,
    p: int,
    pre: int,
    suf: int,
    left: Option<Box<TreeModel>>,
    right: Option<Box<TreeModel>>,
)
    requires
        0 <= pre,
        0 <= suf,
        starts_with(s, p, ser_node(TreeModel::MatchNode { pre, suf, left, right })),
    ensures
        ({
            let d1 = dec_rep(pre as nat).len();
            let d2 = dec_rep(suf as nat).len();
            let c1 = ser_child(left).len();
            let c2 = ser_child(right).len();
            &&& s[p + 2] == ' '
            &&& num_starts_at(s, p + 3, pre as nat)
            &&& s[p + 3 + d1] == ' '
            &&& num_starts_at(s, p + 4 + d1, suf as nat)
            &&& s[p + 4 + d1 + d2] == ' '
            &&& starts_with(s, p + 5 + d1 + d2, ser_child(left))
            &&& s[p + 5 + d1 + d2 + c1] == ' '
            &&& starts_with(s, p + 6 + d1 + d2 + c1, ser_child(right))
            &&& s[p + 6 + d1 + d2 + c1 + c2] == ')'
            &&& ser_node(TreeModel::MatchNode { pre, suf, left, right }).len() == 7 + d1 + d2 + c1
                + c2
        }),
{
    let a = seq!['(', 'm', ' '];
    let sp = seq![' '];
    let rp = seq![')'];
    let d1s = dec_rep(pre as nat);
    let d2s = dec_rep(suf as nat);
    let c1s = ser_child(left);
    let c2s = ser_child(right);
    let w = ser_node(TreeModel::MatchNode { pre, suf, left, right });
    assert(w == a + d1s + sp + d2s + sp + c1s + sp + c2s + rp);
    lemma_starts_with_concat(s, p, a + d1s + sp + d2s + sp + c1s + sp + c2s, rp);
    lemma_starts_with_concat(s, p, a + d1s + sp + d2s + sp + c1s + sp, c2s);
    lemma_starts_with_concat(s, p, a + d1s + sp + d2s + sp + c1s, sp);
    lemma_starts_with_concat(s, p, a + d1s + sp + d2s + sp, c1s);
    lemma_starts_with_concat(s, p, a + d1s + sp + d2s, sp);
    lemma_starts_with_concat(s, p, a + d1s + sp, d2s);
    lemma_starts_with_concat(s, p, a + d1s, sp);
    lemma_starts_with_concat(s, p, a, d1s);
    let d1 = d1s.len();
    let d2 = d2s.len();
    let c1 = c1s.len();
    let c2 = c2s.len();
    assert(s.subrange(p, p + 3)[2] == s[p + 2]);
    assert(s.subrange(p + 3 + d1, p + 4 + d1)[0] == s[p + 3 + d1]);
    assert(s.subrange(p + 4 + d1 + d2, p + 5 + d1 + d2)[0] == s[p + 4 + d1 + d2]);
    assert(s.subrange(p + 5 + d1 + d2 + c1, p + 6 + d1 + d2 + c1)[0] == s[p + 5 + d1 + d2 + c1]);
    assert(s.subrange(p + 6 + d1 + d2 + c1 + c2, p + 7 + d1 + d2 + c1 + c2)[0] == s[p + 6 + d1 + d2
        + c1 + c2]);
    assert(!is_digit_char(' '));
}

/// How the label of a `ReplaceNode` lays its parts out in the input.
proof fn lemma_replace_parts(s: Seq<char>, p: int, replacee: Seq<char>, replacement: Seq<char>)
    requires
        starts_with(s, p, ser_node(TreeModel::ReplaceNode { replacee, replacement })),
    ensures
        ({
            let q1 = quoted_rep(replacee).len();
            let q2 = quoted_rep(replacement).len();
            &&& s[p + 2] == ' '
            &&& starts_with(s, p + 3, quoted_rep(replacee))
            &&& s[p + 3 + q1] == ' '
            &&& starts_with(s, p + 4 + q1, quoted_rep(replacement))
            &&& s[p + 4 + q1 + q2] == ')'
            &&& ser_node(TreeModel::ReplaceNode { replacee, replacement }).len() == 5 + q1 + q2
        }),
{
    let a = seq!['(', 'r', ' '];
    let sp = seq![' '];
    let rp = seq![')'];
    let q1s = quoted_rep(replacee);
    let q2s = quoted_rep(replacement);
    let w = ser_node(TreeModel::ReplaceNode { replacee, replacement });
    assert(w == a + q1s + sp + q2s + rp);
    lemma_starts_with_concat(s, p, a + q1s + sp + q2s, rp);
    lemma_starts_with_concat(s, p, a + q1s + sp, q2s);
    lemma_starts_with_concat(s, p, a + q1s, sp);
    lemma_starts_with_concat(s, p, a, q1s);
    let q1 = q1s.len();
    let q2 = q2s.len();
    assert(s.subrange(p, p + 3)[2] == s[p + 2]);
    assert(s.subrange(p + 3 + q1, p + 4 + q1)[0] == s[p + 3 + q1]);
    assert(s.subrange(p + 4 + q1 + q2, p + 5 + q1 + q2)[0] == s[p + 4 + q1 + q2]);
}

/// Wraps a parsed subtree as a child of a node.
fn box_child(t: Option<EditTree>) -> (c: Option<Box<EditTree>>)
    ensures
        child_as_tree(child_model(c)) == tree_model(t),
{
    match t {
        Option::None => Option::None,
        Option::Some(x) => Option::Some(Box::new(x)),
    }
}

/// Reads a canonical decimal literal at `pos`: the maximal digit run,
/// refused when it is empty, has a spare leading zero, or does not fit the
/// machine word. Succeeds on — and exactly on — the representations
/// [`dec_rep`] writes, as the second clause states.
fn parse_uint(s: &Vec<char>, pos: usize) -> (r: Result<(usize, usize), ParseError>)
    requires
        pos <= s@.len(),
    ensures
        r matches Ok(p) ==> pos < p.1 <= s@.len() && s@.subrange(pos as int, p.1 as int) == dec_rep(
            p.0 as nat,
        ) && (p.1 == s@.len() || !is_digit_char(s@[p.1 as int])),
        forall|n: nat|
            n <= usize::MAX && #[trigger] num_starts_at(s@, pos as int, n) ==> (r matches Ok(p)
                && p.0 == n && p.1 == pos + dec_rep(n).len()),
{
    let len = s.len();
    if pos >= len || !is_digit(s[pos]) {
        proof {
            assert forall|n: nat| n <= usize::MAX && #[trigger] num_starts_at(s@, pos as int, n)
                implies false by {
                lemma_dec_rep_shape(n);
                assert(s@.subrange(pos as int, pos + dec_rep(n).len())[0] == s@[pos as int]);
                assert(dec_rep(n)[0] == s@[pos as int]);
            }
        }
        return Err(ParseError::Malformed);
    }
    if s[pos] == '0' {
        if pos + 1 < len && is_digit(s[pos + 1]) {
            proof {
                assert forall|n: nat|
                    n <= usize::MAX && #[trigger] num_starts_at(s@, pos as int, n) implies false by {
                    lemma_dec_rep_shape(n);
                    assert(dec_rep(n)[0] == s@[pos as int]);
                    assert(n == 0);
                    assert(dec_rep(n).len() == 1);
                }
            }
            return Err(ParseError::Malformed);
        }
        proof {
            assert(s@.subrange(pos as int, pos + 1) =~= seq!['0']);
            assert(dec_rep(0) =~= seq!['0']);
            assert forall|n: nat| n <= usize::MAX && #[trigger] num_starts_at(s@, pos as int, n)
                implies n == 0 && pos + dec_rep(n).len() == pos + 1 by {
                lemma_dec_rep_shape(n);
                assert(dec_rep(n)[0] == s@[pos as int]);
            }
        }
        return Ok((0, pos + 1));
    }
    let mut k: usize = pos;
    let mut acc: usize = 0;
    while k < len && is_digit(s[k])
        invariant
            pos <= k <= len,
            len == s@.len(),
            s@[pos as int] != '0',
            pos < len && is_digit_char(s@[pos as int]),
            forall|t: int| pos <= t < k ==> is_digit_char(#[trigger] s@[t]),
            acc == digits_val(s@.subrange(pos as int, k as int)),
            k == pos ==> acc == 0,
        decreases len - k,
    {
        let d = digit_value(s[k]);
        proof {
            assert(s@.subrange(pos as int, k + 1).drop_last() =~= s@.subrange(pos as int, k as int));
            assert(s@.subrange(pos as int, k + 1).last() == s@[k as int]);
        }
        if acc > (usize::MAX - d) / 10 {
            proof {
                let run = s@.subrange(pos as int, k + 1);
                assert(digits_val(run) == acc * 10 + d);
                assert(acc * 10 + d > usize::MAX) by (nonlinear_arith)
                    requires
                        acc > (usize::MAX - d) / 10,
                        0 <= d < 10,
                        (usize::MAX - d) / 10 * 10 + (usize::MAX - d) % 10 == usize::MAX - d,
                        0 <= (usize::MAX - d) % 10 < 10,
                ;
                assert forall|n: nat|
                    n <= usize::MAX && #[trigger] num_starts_at(s@, pos as int, n) implies false by {
                    lemma_dec_rep_shape(n);
                    let e = pos + dec_rep(n).len();
                    assert forall|t: int| pos <= t < e implies is_digit_char(#[trigger] s@[t]) by {
                        assert(s@.subrange(pos as int, e)[t - pos] == s@[t]);
                        assert(is_digit_char(dec_rep(n)[t - pos]));
                    }
                    if e <= k {
                        assert(is_digit_char(s@[e]));
                        assert(false);
                    }
                    assert(e >= k + 1);
                    assert forall|q: int| 0 <= q < k + 1 - pos implies dec_rep(n).take(
                        k + 1 - pos,
                    )[q] == run[q] by {
                        assert(dec_rep(n)[q] == s@.subrange(pos as int, e)[q]);
                        assert(s@.subrange(pos as int, e)[q] == s@[pos + q]);
                        assert(run[q] == s@[pos + q]);
                    }
                    assert(dec_rep(n).take(k + 1 - pos) =~= run);
                    lemma_digits_prefix_le(dec_rep(n), k + 1 - pos);
                    lemma_dec_rep_val(n);
                    assert(digits_val(run) <= n);
                }
            }
            return Err(ParseError::NumberTooLarge);
        }
        proof {
            assert(acc * 10 + d <= usize::MAX) by (nonlinear_arith)
                requires
                    acc <= (usize::MAX - d) / 10,
                    0 <= d < 10,
                    (usize::MAX - d) / 10 * 10 + (usize::MAX - d) % 10 == usize::MAX - d,
                    0 <= (usize::MAX - d) % 10 < 10,
                    acc >= 0,
            ;
        }
        acc = acc * 10 + d;
        k = k + 1;
    }
    proof {
        let run = s@.subrange(pos as int, k as int);
        assert(run[0] == s@[pos as int]);
        assert forall|t: int| 0 <= t < run.len() implies is_digit_char(#[trigger] run[t]) by {
            assert(run[t] == s@[pos + t]);
        }
        lemma_digits_canonical(run);
        assert forall|n: nat| n <= usize::MAX && #[trigger] num_starts_at(s@, pos as int, n)
            implies acc == n && k == pos + dec_rep(n).len() by {
            lemma_dec_rep_shape(n);
            let e = pos + dec_rep(n).len();
            assert forall|t: int| pos <= t < e implies is_digit_char(#[trigger] s@[t]) by {
                assert(s@.subrange(pos as int, e)[t - pos] == s@[t]);
                assert(is_digit_char(dec_rep(n)[t - pos]));
            }
            if e <= k - 1 {
                assert(is_digit_char(s@[e]));
                assert(false);
            }
            if e > k {
                assert(is_digit_char(s@[k as int]));
                assert(false);
            }
            assert(e == k);
            assert forall|q: int| 0 <= q < run.len() implies dec_rep(n)[q] == run[q] by {
                assert(dec_rep(n)[q] == s@.subrange(pos as int, e)[q]);
                assert(s@.subrange(pos as int, e)[q] == s@[pos + q]);
                assert(run[q] == s@[pos + q]);
            }
            assert(dec_rep(n) =~= run);
            lemma_dec_rep_val(n);
        }
    }
    Ok((acc, k))
}

/// Assembles the parts read for a `MatchNode` into its label, and pins any
/// candidate tree whose label starts at `pos` to exactly this node.
#[verifier::rlimit(100)]
proof fn lemma_match_assemble(
    s: Seq<char>,
    pos: int,
    pre: usize,
    suf: usize,
    e1: int,
    e2: int,
    e3: int,
    e4: int,
    ltm: Option<TreeModel>,
    rtm: Option<TreeModel>,
    lcm: Option<Box<TreeModel>>,
    rcm: Option<Box<TreeModel>>,
)
    requires
        0 <= pos,
        pos + 3 <= e1 < s.len(),
        s[pos] == '(' && s[pos + 1] == 'm' && s[pos + 2] == ' ',
        s.subrange(pos + 3, e1) == dec_rep(pre as nat),
        s[e1] == ' ',
        e1 + 1 < e2 < s.len(),
        s.subrange(e1 + 1, e2) == dec_rep(suf as nat),
        s[e2] == ' ',
        e2 + 1 < e3 < s.len(),
        s.subrange(e2 + 1, e3) == ser_tree(ltm),
        s[e3] == ' ',
        e3 + 1 < e4 < s.len(),
        s.subrange(e3 + 1, e4) == ser_tree(rtm),
        s[e4] == ')',
        child_as_tree(lcm) == ltm,
        child_as_tree(rcm) == rtm,
        forall|n: nat|
            n <= usize::MAX && #[trigger] num_starts_at(s, pos + 3, n) ==> n == pre && pos + 3
                + dec_rep(n).len() == e1,
        forall|n: nat|
            n <= usize::MAX && #[trigger] num_starts_at(s, e1 + 1, n) ==> n == suf && e1 + 1
                + dec_rep(n).len() == e2,
        forall|t2: Option<TreeModel>|
            wf_tree(t2) && #[trigger] starts_with(s, e2 + 1, ser_tree(t2)) ==> t2 == ltm && e2 + 1
                + ser_tree(t2).len() == e3,
        forall|t2: Option<TreeModel>|
            wf_tree(t2) && #[trigger] starts_with(s, e3 + 1, ser_tree(t2)) ==> t2 == rtm && e3 + 1
                + ser_tree(t2).len() == e4,
    ensures
        s.subrange(pos, e4 + 1) == ser_node(
            TreeModel::MatchNode { pre: pre as int, suf: suf as int, left: lcm, right: rcm },
        ),
        forall|t2: Option<TreeModel>|
            wf_tree(t2) && #[trigger] starts_with(s, pos, ser_tree(t2)) ==> t2 == Some(
                TreeModel::MatchNode { pre: pre as int, suf: suf as int, left: lcm, right: rcm },
            ) && e4 + 1 == pos + ser_tree(t2).len(),
{
    let nm = TreeModel::MatchNode { pre: pre as int, suf: suf as int, left: lcm, right: rcm };
    let a = seq!['(', 'm', ' '];
    let sp = seq![' '];
    let rp = seq![')'];
    let d1s = dec_rep(pre as nat);
    let d2s = dec_rep(suf as nat);
    let c1s = ser_tree(ltm);
    let c2s = ser_tree(rtm);
    lemma_ser_child_as_tree(lcm);
    lemma_ser_child_as_tree(rcm);
    assert(ser_child(lcm) == c1s);
    assert(ser_child(rcm) == c2s);
    assert(ser_node(nm) == a + d1s + sp + d2s + sp + c1s + sp + c2s + rp);
    assert(s.subrange(pos, pos + 3) =~= a);
    assert(starts_with(s, pos, a));
    assert(starts_with(s, pos + 3, d1s));
    assert(s.subrange(e1, e1 + 1) =~= sp);
    assert(starts_with(s, e1, sp));
    assert(starts_with(s, e1 + 1, d2s));
    assert(s.subrange(e2, e2 + 1) =~= sp);
    assert(starts_with(s, e2, sp));
    assert(starts_with(s, e2 + 1, c1s));
    assert(s.subrange(e3, e3 + 1) =~= sp);
    assert(starts_with(s, e3, sp));
    assert(starts_with(s, e3 + 1, c2s));
    assert(s.subrange(e4, e4 + 1) =~= rp);
    assert(starts_with(s, e4, rp));
    lemma_starts_with_concat(s, pos, a, d1s);
    lemma_starts_with_concat(s, pos, a + d1s, sp);
    lemma_starts_with_concat(s, pos, a + d1s + sp, d2s);
    lemma_starts_with_concat(s, pos, a + d1s + sp + d2s, sp);
    lemma_starts_with_concat(s, pos, a + d1s + sp + d2s + sp, c1s);
    lemma_starts_with_concat(s, pos, a + d1s + sp + d2s + sp + c1s, sp);
    lemma_starts_with_concat(s, pos, a + d1s + sp + d2s + sp + c1s + sp, c2s);
    lemma_starts_with_concat(s, pos, a + d1s + sp + d2s + sp + c1s + sp + c2s, rp);
    assert(starts_with(s, pos, ser_node(nm)));
    assert(s.subrange(pos, e4 + 1) == ser_node(nm));
    assert forall|t2: Option<TreeModel>|
        wf_tree(t2) && #[trigger] starts_with(s, pos, ser_tree(t2)) implies t2 == Some(nm) && e4
        + 1 == pos + ser_tree(t2).len() by {
        lemma_ser_discriminate(s, pos, t2);
        match t2 {
            Option::Some(TreeModel::MatchNode { pre: p2, suf: s2, left: l2, right: r2 }) => {
                lemma_match_parts(s, pos, p2, s2, l2, r2);
                let d1b = dec_rep(p2 as nat).len();
                let d2b = dec_rep(s2 as nat).len();
                let c1b = ser_child(l2).len();
                assert(pre == p2 as nat && e1 == pos + 3 + d1b);
                assert(suf == s2 as nat && e2 == e1 + 1 + d2b);
                lemma_ser_child_as_tree(l2);
                assert(wf_tree(child_as_tree(l2)));
                assert(starts_with(s, e2 + 1, ser_tree(child_as_tree(l2))));
                assert(child_as_tree(l2) == ltm && e3 == e2 + 1 + c1b);
                lemma_ser_child_as_tree(r2);
                assert(wf_tree(child_as_tree(r2)));
                assert(starts_with(s, e3 + 1, ser_tree(child_as_tree(r2))));
                assert(child_as_tree(r2) == rtm);
                lemma_child_as_tree_inj(l2, lcm);
                lemma_child_as_tree_inj(r2, rcm);
            },
            _ => {
                assert(false);
            },
        }
    }
}

/// Reads one `m` node at `pos`, whose first two characters have been
/// seen. The contract mirrors [`parse_tree`].
#[verifier::rlimit(100)]
fn parse_match_node(s: &Vec<char>, pos: usize) -> (r: Result<(Option<EditTree>, usize), ParseError>)
    requires
        pos + 1 < s@.len(),
        s@[pos as int] == '(',
        s@[pos + 1] == 'm',
    ensures
        r matches Ok(p) ==> pos < p.1 <= s@.len() && s@.subrange(pos as int, p.1 as int)
            == ser_tree(tree_model(p.0)),
        r matches Ok(p) ==> forall|t2: Option<TreeModel>|
            wf_tree(t2) && #[trigger] starts_with(s@, pos as int, ser_tree(t2)) ==> t2
                == tree_model(p.0) && p.1 == pos + ser_tree(t2).len(),
        r matches Err(e) ==> forall|t2: Option<TreeModel>|
            wf_tree(t2) ==> !#[trigger] starts_with(s@, pos as int, ser_tree(t2)),
    decreases s@.len() - pos, 0int,
{
    let len = s.len();
    if pos + 2 >= len || s[pos + 2] != ' ' {
        proof {
            assert forall|t2: Option<TreeModel>| wf_tree(t2) implies !starts_with(
                s@,
                pos as int,
                ser_tree(t2),
            ) by {
                if starts_with(s@, pos as int, ser_tree(t2)) {
                    lemma_ser_discriminate(s@, pos as int, t2);
                    match t2 {
                        Option::Some(TreeModel::MatchNode { pre, suf, left, right }) => {
                            lemma_match_parts(s@, pos as int, pre, suf, left, right);
                        },
                        _ => {
                        },
                    }
                }
            }
        }
        return Err(ParseError::Malformed);
    }
    let r1 = parse_uint(s, pos + 3);
    let (pre, e1) = match r1 {
        Ok(p) => p,
        Err(e) => {
            proof {
                assert forall|t2: Option<TreeModel>| wf_tree(t2) implies !starts_with(
                    s@,
                    pos as int,
                    ser_tree(t2),
                ) by {
                    if starts_with(s@, pos as int, ser_tree(t2)) {
                        lemma_ser_discriminate(s@, pos as int, t2);
                        match t2 {
                            Option::Some(TreeModel::MatchNode { pre, suf, left, right }) => {
                                lemma_match_parts(s@, pos as int, pre, suf, left, right);
                            },
                            _ => {
                            },
                        }
                    }
                }
            }
            return Err(e);
        },
    };
    if e1 >= len || s[e1] != ' ' {
        proof {
            assert forall|t2: Option<TreeModel>| wf_tree(t2) implies !starts_with(
                s@,
                pos as int,
                ser_tree(t2),
            ) by {
                if starts_with(s@, pos as int, ser_tree(t2)) {
                    lemma_ser_discriminate(s@, pos as int, t2);
                    match t2 {
                        Option::Some(TreeModel::MatchNode { pre: p2, suf, left, right }) => {
                            lemma_match_parts(s@, pos as int, p2, suf, left, right);
                        },
                        _ => {
                        },
                    }
                }
            }
        }
        return Err(ParseError::Malformed);
    }
    let r2 = parse_uint(s, e1 + 1);
    let (suf, e2) = match r2 {
        Ok(p) => p,
        Err(e) => {
            proof {
                assert forall|t2: Option<TreeModel>| wf_tree(t2) implies !starts_with(
                    s@,
                    pos as int,
                    ser_tree(t2),
                ) by {
                    if starts_with(s@, pos as int, ser_tree(t2)) {
                        lemma_ser_discriminate(s@, pos as int, t2);
                        match t2 {
                            Option::Some(TreeModel::MatchNode { pre: p2, suf, left, right }) => {
                                lemma_match_parts(s@, pos as int, p2, suf, left, right);
                            },
                            _ => {
                            },
                        }
                    }
                }
            }
            return Err(e);
        },
    };
    if e2 >= len || s[e2] != ' ' {
        proof {
            assert forall|t2: Option<TreeModel>| wf_tree(t2) implies !starts_with(
                s@,
                pos as int,
                ser_tree(t2),
            ) by {
                if starts_with(s@, pos as int, ser_tree(t2)) {
                    lemma_ser_discriminate(s@, pos as int, t2);
                    match t2 {
                        Option::Some(
                            TreeModel::MatchNode { pre: p2, suf: s2, left, right },
                        ) => {
                            lemma_match_parts(s@, pos as int, p2, s2, left, right);
                        },
                        _ => {
                        },
                    }
                }
            }
        }
        return Err(ParseError::Malformed);
    }
    let r3 = parse_tree(s, e2 + 1);
    let (lt, e3) = match r3 {
        Ok(p) => p,
        Err(e) => {
            proof {
                assert forall|t2: Option<TreeModel>| wf_tree(t2) implies !starts_with(
                    s@,
                    pos as int,
                    ser_tree(t2),
                ) by {
                    if starts_with(s@, pos as int, ser_tree(t2)) {
                        lemma_ser_discriminate(s@, pos as int, t2);
                        match t2 {
                            Option::Some(
                                TreeModel::MatchNode { pre: p2, suf: s2, left, right },
                            ) => {
                                lemma_match_parts(s@, pos as int, p2, s2, left, right);
                                lemma_ser_child_as_tree(left);
                            },
                            _ => {
                            },
                        }
                    }
                }
            }
            return Err(e);
        },
    };
    if e3 >= len || s[e3] != ' ' {
        proof {
            assert forall|t2: Option<TreeModel>| wf_tree(t2) implies !starts_with(
                s@,
                pos as int,
                ser_tree(t2),
            ) by {
                if starts_with(s@, pos as int, ser_tree(t2)) {
                    lemma_ser_discriminate(s@, pos as int, t2);
                    match t2 {
                        Option::Some(
                            TreeModel::MatchNode { pre: p2, suf: s2, left, right },
                        ) => {
                            lemma_match_parts(s@, pos as int, p2, s2, left, right);
                            lemma_ser_child_as_tree(left);
                        },
                        _ => {
                        },
                    }
                }
            }
        }
        return Err(ParseError::Malformed);
    }
    let r4 = parse_tree(s, e3 + 1);
    let (rt, e4) = match r4 {
        Ok(p) => p,
        Err(e) => {
            proof {
                assert forall|t2: Option<TreeModel>| wf_tree(t2) implies !starts_with(
                    s@,
                    pos as int,
                    ser_tree(t2),
                ) by {
                    if starts_with(s@, pos as int, ser_tree(t2)) {
                        lemma_ser_discriminate(s@, pos as int, t2);
                        match t2 {
                            Option::Some(
                                TreeModel::MatchNode { pre: p2, suf: s2, left, right },
                            ) => {
                                lemma_match_parts(s@, pos as int, p2, s2, left, right);
                                lemma_ser_child_as_tree(left);
                                lemma_ser_child_as_tree(right);
                            },
                            _ => {
                            },
                        }
                    }
                }
            }
            return Err(e);
        },
    };
    if e4 >= len || s[e4] != ')' {
        proof {
            assert forall|t2: Option<TreeModel>| wf_tree(t2) implies !starts_with(
                s@,
                pos as int,
                ser_tree(t2),
            ) by {
                if starts_with(s@, pos as int, ser_tree(t2)) {
                    lemma_ser_discriminate(s@, pos as int, t2);
                    match t2 {
                        Option::Some(
                            TreeModel::MatchNode { pre: p2, suf: s2, left, right },
                        ) => {
                            lemma_match_parts(s@, pos as int, p2, s2, left, right);
                            lemma_ser_child_as_tree(left);
                            lemma_ser_child_as_tree(right);
                        },
                        _ => {
                        },
                    }
                }
            }
        }
        return Err(ParseError::Malformed);
    }
    let left_c = box_child(lt);
    let right_c = box_child(rt);
    let node = EditTree::MatchNode { pre, suf, left: left_c, right: right_c };
    let out = Option::Some(node);
    proof {
        lemma_match_assemble(
            s@,
            pos as int,
            pre,
            suf,
            e1 as int,
            e2 as int,
            e3 as int,
            e4 as int,
            tree_model(lt),
            tree_model(rt),
            child_model(left_c),
            child_model(right_c),
        );
        assert(tree_model(out) == Some(
            TreeModel::MatchNode {
                pre: pre as int,
                suf: suf as int,
                left: child_model(left_c),
                right: child_model(right_c),
            },
        ));
    }
    return Ok((out, e4 + 1));
}

/// Reads one `r` node at `pos`, whose first two characters have been
/// seen. The contract mirrors [`parse_tree`].
#[verifier::rlimit(100)]
fn parse_replace_node(s: &Vec<char>, pos: usize) -> (r: Result<(Option<EditTree>, usize), ParseError>)
    requires
        pos + 1 < s@.len(),
        s@[pos as int] == '(',
        s@[pos + 1] == 'r',
    ensures
        r matches Ok(p) ==> pos < p.1 <= s@.len() && s@.subrange(pos as int, p.1 as int)
            == ser_tree(tree_model(p.0)),
        r matches Ok(p) ==> forall|t2: Option<TreeModel>|
            wf_tree(t2) && #[trigger] starts_with(s@, pos as int, ser_tree(t2)) ==> t2
                == tree_model(p.0) && p.1 == pos + ser_tree(t2).len(),
        r matches Err(e) ==> forall|t2: Option<TreeModel>|
            wf_tree(t2) ==> !#[trigger] starts_with(s@, pos as int, ser_tree(t2)),
    decreases s@.len() - pos, 0int,
{
    let len = s.len();
    if pos + 2 >= len || s[pos + 2] != ' ' {
        proof {
            assert forall|t2: Option<TreeModel>| wf_tree(t2) implies !starts_with(
                s@,
                pos as int,
                ser_tree(t2),
            ) by {
                if starts_with(s@, pos as int, ser_tree(t2)) {
                    lemma_ser_discriminate(s@, pos as int, t2);
                    match t2 {
                        Option::Some(TreeModel::ReplaceNode { replacee, replacement }) => {
                            lemma_replace_parts(s@, pos as int, replacee, replacement);
                        },
                        _ => {
                        },
                    }
                }
            }
        }
        return Err(ParseError::Malformed);
    }
    let r1 = parse_quoted(s, pos + 3);
    let (ree, e1) = match r1 {
        Ok(p) => p,
        Err(e) => {
            proof {
                assert forall|t2: Option<TreeModel>| wf_tree(t2) implies !starts_with(
                    s@,
                    pos as int,
                    ser_tree(t2),
                ) by {
                    if starts_with(s@, pos as int, ser_tree(t2)) {
                        lemma_ser_discriminate(s@, pos as int, t2);
                        match t2 {
                            Option::Some(TreeModel::ReplaceNode { replacee, replacement }) => {
                                lemma_replace_parts(s@, pos as int, replacee, replacement);
                            },
                            _ => {
                            },
                        }
                    }
                }
            }
            return Err(e);
        },
    };
    if e1 >= len || s[e1] != ' ' {
        proof {
            assert forall|t2: Option<TreeModel>| wf_tree(t2) implies !starts_with(
                s@,
                pos as int,
                ser_tree(t2),
            ) by {
                if starts_with(s@, pos as int, ser_tree(t2)) {
                    lemma_ser_discriminate(s@, pos as int, t2);
                    match t2 {
                        Option::Some(TreeModel::ReplaceNode { replacee, replacement }) => {
                            lemma_replace_parts(s@, pos as int, replacee, replacement);
                        },
                        _ => {
                        },
                    }
                }
            }
        }
        return Err(ParseError::Malformed);
    }
    let r2 = parse_quoted(s, e1 + 1);
    let (ment, e2) = match r2 {
        Ok(p) => p,
        Err(e) => {
            proof {
                assert forall|t2: Option<TreeModel>| wf_tree(t2) implies !starts_with(
                    s@,
                    pos as int,
                    ser_tree(t2),
                ) by {
                    if starts_with(s@, pos as int, ser_tree(t2)) {
                        lemma_ser_discriminate(s@, pos as int, t2);
                        match t2 {
                            Option::Some(TreeModel::ReplaceNode { replacee, replacement }) => {
                                lemma_replace_parts(s@, pos as int, replacee, replacement);
                            },
                            _ => {
                            },
                        }
                    }
                }
            }
            return Err(e);
        },
    };
    if e2 >= len || s[e2] != ')' {
        proof {
            assert forall|t2: Option<TreeModel>| wf_tree(t2) implies !starts_with(
                s@,
                pos as int,
                ser_tree(t2),
            ) by {
                if starts_with(s@, pos as int, ser_tree(t2)) {
                    lemma_ser_discriminate(s@, pos as int, t2);
                    match t2 {
                        Option::Some(TreeModel::ReplaceNode { replacee, replacement }) => {
                            lemma_replace_parts(s@, pos as int, replacee, replacement);
                        },
                        _ => {
                        },
                    }
                }
            }
        }
        return Err(ParseError::Malformed);
    }
    let node = EditTree::ReplaceNode { replacee: ree, replacement: ment };
    let out = Option::Some(node);
    proof {
        let nm = node_model(node);
        let a = seq!['(', 'r', ' '];
        let sp = seq![' '];
        let rp = seq![')'];
        let q1s = quoted_rep(ree@);
        let q2s = quoted_rep(ment@);
        assert(ser_node(nm) == a + q1s + sp + q2s + rp);
        assert(s@.subrange(pos as int, pos + 3) =~= a);
        assert(starts_with(s@, pos as int, a));
        assert(starts_with(s@, pos + 3, q1s));
        assert(s@.subrange(e1 as int, e1 + 1) =~= sp);
        assert(starts_with(s@, e1 as int, sp));
        assert(starts_with(s@, e1 + 1, q2s));
        assert(s@.subrange(e2 as int, e2 + 1) =~= rp);
        assert(starts_with(s@, e2 as int, rp));
        lemma_starts_with_concat(s@, pos as int, a, q1s);
        lemma_starts_with_concat(s@, pos as int, a + q1s, sp);
        lemma_starts_with_concat(s@, pos as int, a + q1s + sp, q2s);
        lemma_starts_with_concat(s@, pos as int, a + q1s + sp + q2s, rp);
        assert(starts_with(s@, pos as int, ser_node(nm)));
        assert(s@.subrange(pos as int, e2 + 1) == ser_node(nm));
        assert forall|t2: Option<TreeModel>|
            wf_tree(t2) && #[trigger] starts_with(s@, pos as int, ser_tree(t2)) implies t2
            == tree_model(out) && e2 + 1 == pos + ser_tree(t2).len() by {
            lemma_ser_discriminate(s@, pos as int, t2);
            match t2 {
                Option::Some(TreeModel::ReplaceNode { replacee, replacement }) => {
                    lemma_replace_parts(s@, pos as int, replacee, replacement);
                    assert(replacee == ree@ && e1 == pos + 3 + quoted_rep(replacee).len());
                    assert(replacement == ment@);
                },
                _ => {
                    assert(false);
                },
            }
        }
    }
    return Ok((out, e2 + 1));
}

/// Reads one tree at `pos`. Succeeds on — and exactly on — the labels
/// that [`ser_tree`] writes for well-formed trees: the second clause pins
/// the parsed tree to any tree whose label occurs here, the third says a
/// failure means no tree's label occurs here.
fn parse_tree(s: &Vec<char>, pos: usize) -> (r: Result<(Option<EditTree>, usize), ParseError>)
    requires
        pos <= s@.len(),
    ensures
        r matches Ok(p) ==> pos < p.1 <= s@.len() && s@.subrange(pos as int, p.1 as int)
            == ser_tree(tree_model(p.0)),
        r matches Ok(p) ==> forall|t2: Option<TreeModel>|
            wf_tree(t2) && #[trigger] starts_with(s@, pos as int, ser_tree(t2)) ==> t2
                == tree_model(p.0) && p.1 == pos + ser_tree(t2).len(),
        r matches Err(e) ==> forall|t2: Option<TreeModel>|
            wf_tree(t2) ==> !#[trigger] starts_with(s@, pos as int, ser_tree(t2)),
    decreases s@.len() - pos, 1int,
{
    let len = s.len();
    if pos >= len || s[pos] != '(' || pos + 1 >= len {
        proof {
            assert forall|t2: Option<TreeModel>| wf_tree(t2) implies !starts_with(
                s@,
                pos as int,
                ser_tree(t2),
            ) by {
                if starts_with(s@, pos as int, ser_tree(t2)) {
                    lemma_ser_discriminate(s@, pos as int, t2);
                }
            }
        }
        return Err(ParseError::Malformed);
    }
    let c1 = s[pos + 1];
    if c1 == ')' {
        let out: Option<EditTree> = Option::None;
        proof {
            assert(s@.subrange(pos as int, pos + 2) =~= seq!['(', ')']);
            assert(ser_tree(tree_model(out)) =~= seq!['(', ')']);
            assert forall|t2: Option<TreeModel>|
                wf_tree(t2) && #[trigger] starts_with(s@, pos as int, ser_tree(t2)) implies t2
                == tree_model(out) && pos + 2 == pos + ser_tree(t2).len() by {
                lemma_ser_discriminate(s@, pos as int, t2);
                match t2 {
                    Option::None => {
                        assert(ser_tree(t2).len() == 2);
                    },
                    Option::Some(n) => {
                        assert(false);
                    },
                }
            }
        }
        return Ok((out, pos + 2));
    }
    if c1 == 'm' {
        return parse_match_node(s, pos);
    }
    if c1 == 'r' {
        return parse_replace_node(s, pos);
    }
    proof {
        assert forall|t2: Option<TreeModel>| wf_tree(t2) implies !starts_with(
            s@,
            pos as int,
            ser_tree(t2),
        ) by {
            if starts_with(s@, pos as int, ser_tree(t2)) {
                lemma_ser_discriminate(s@, pos as int, t2);
            }
        }
    }
    Err(ParseError::Malformed)
}

/// Reads a whole label back into a tree. Succeeds exactly on the canonical
/// labels: `Ok(t)` when the label is [`ser_tree`] of a well-formed tree,
/// which is then the model of `t`; an error on every other sequence.
pub fn deserialize(label: &Vec<char>) -> (r: Result<Option<EditTree>, ParseError>)
    ensures
        r matches Ok(t) ==> label@ == ser_tree(tree_model(t)),
        forall|t2: Option<TreeModel>|
            wf_tree(t2) && label@ == ser_tree(t2) ==> (r matches Ok(t) && tree_model(t) == t2),
        r matches Err(e) ==> forall|t2: Option<TreeModel>| wf_tree(t2) ==> label@ != ser_tree(t2),
{
    proof {
        assert forall|t2: Option<TreeModel>| label@ == ser_tree(t2) implies starts_with(
            label@,
            0,
            ser_tree(t2),
        ) by {
            assert(label@.subrange(0, label@.len() as int) =~= label@);
        }
    }
    match parse_tree(label, 0) {
        Ok((t, end)) => {
            if end == label.len() {
                proof {
                    assert(label@.subrange(0, label@.len() as int) =~= label@);
                }
                Ok(t)
            } else {
                Err(ParseError::Malformed)
            }
        },
        Err(e) => Err(e),
    }
}

/// Reads a whole label, given as a string slice, back into a tree: the
/// same acceptance and result as [`deserialize`].
pub fn deserialize_label(label: &str) -> (r: Result<Option<EditTree>, ParseError>)
    ensures
        r matches Ok(t) ==> label@ == ser_tree(tree_model(t)),
        forall|t2: Option<TreeModel>|
            wf_tree(t2) && label@ == ser_tree(t2) ==> (r matches Ok(t) && tree_model(t) == t2),
        r matches Err(e) ==> forall|t2: Option<TreeModel>| wf_tree(t2) ==> label@ != ser_tree(t2),
{
    let cs = chars_of(label);
    deserialize(&cs)
}

/// Serialization round trip: rendering a tree to its label and reading the
/// label back yields the same tree. The reading cannot fail, so this
/// function's result always carries the input's model.
pub fn label_round_trip(tree: &Option<EditTree>) -> (back: Option<EditTree>)
    ensures
        tree_model(back) == tree_model(*tree),
{
    let label = crate::label::serialize(tree);
    proof {
        lemma_tree_model_wf(*tree);
    }
    match deserialize(&label) {
        Ok(back) => back,
        Err(_) => {
            proof {
                assert(false);
            }
            Option::None
        },
    }
}

} // verus!
