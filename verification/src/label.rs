//! The canonical textual label of an edit tree.
//!
//! The grammar, a parenthesized S-expression usable verbatim as a single
//! classification label:
//!
//! ```text
//! tree := "()"                                   absent tree
//!       | "(m " pre " " suf " " tree " " tree ")"   match node
//!       | "(r " quoted " " quoted ")"               replace node
//! ```
//!
//! `pre` and `suf` are decimal literals without leading zeros; `quoted` is a
//! double-quoted character sequence in which `"` and `\` are escaped with a
//! backslash and every other character stands for itself.

use vstd::prelude::*;

use crate::tree::{node_model, tree_model};
use crate::tree::{EditTree, TreeModel};

verus! {

/// The digit character of one decimal digit.
pub open spec fn digit_char(d: nat) -> char {
    if d == 0 {
        '0'
    } else if d == 1 {
        '1'
    } else if d == 2 {
        '2'
    } else if d == 3 {
        '3'
    } else if d == 4 {
        '4'
    } else if d == 5 {
        '5'
    } else if d == 6 {
        '6'
    } else if d == 7 {
        '7'
    } else if d == 8 {
        '8'
    } else {
        '9'
    }
}

/// The decimal representation of `n`, most significant digit first, without
/// leading zeros.
pub open spec fn dec_rep(n: nat) -> Seq<char>
    decreases n,
{
    if n < 10 {
        seq![digit_char(n)]
    } else {
        dec_rep(n / 10).push(digit_char(n % 10))
    }
}

/// The escaped form of one character inside a quoted segment.
pub open spec fn esc_char(c: char) -> Seq<char> {
    if c == '"' || c == '\\' {
        seq!['\\', c]
    } else {
        seq![c]
    }
}

/// The escaped form of a character sequence inside a quoted segment.
pub open spec fn esc_str(s: Seq<char>) -> Seq<char>
    decreases s.len(),
{
    if s.len() == 0 {
        Seq::<char>::empty()
    } else {
        esc_char(s[0]) + esc_str(s.skip(1))
    }
}

/// The quoted form of a character sequence: the escaped content between
/// double quotes.
pub open spec fn quoted_rep(s: Seq<char>) -> Seq<char> {
    seq!['"'] + esc_str(s) + seq!['"']
}

/// The label of one node.
pub open spec fn ser_node(t: TreeModel) -> Seq<char>
    decreases t,
{
    match t {
        TreeModel::MatchNode { pre, suf, left, right } => {
            seq!['(', 'm', ' '] + dec_rep(pre as nat) + seq![' '] + dec_rep(suf as nat) + seq![' ']
                + ser_child(left) + seq![' '] + ser_child(right) + seq![')']
        },
        TreeModel::ReplaceNode { replacee, replacement } => {
            seq!['(', 'r', ' '] + quoted_rep(replacee) + seq![' '] + quoted_rep(replacement) + seq![
                ')',
            ]
        },
    }
}

/// The label of an optional child.
pub open spec fn ser_child(c: Option<Box<TreeModel>>) -> Seq<char>
    decreases c,
{
    match c {
        Option::None => seq!['(', ')'],
        Option::Some(b) => ser_node(*b),
    }
}

/// The label of a whole tree. This is the serializer's specification, and
/// the deserializer accepts exactly the sequences of this form.
pub open spec fn ser_tree(t: Option<TreeModel>) -> Seq<char> {
    match t {
        Option::None => seq!['(', ')'],
        Option::Some(n) => ser_node(n),
    }
}

/// Escaping distributes over concatenation.
pub proof fn lemma_esc_append(a: Seq<char>, b: Seq<char>)
    ensures
        esc_str(a + b) == esc_str(a) + esc_str(b),
    decreases a.len(),
{
    if a.len() == 0 {
        assert(a + b =~= b);
        assert(esc_str(a) + esc_str(b) =~= esc_str(b));
    } else {
        assert((a + b)[0] == a[0]);
        assert((a + b).skip(1) =~= a.skip(1) + b);
        lemma_esc_append(a.skip(1), b);
        assert(esc_char(a[0]) + (esc_str(a.skip(1)) + esc_str(b)) =~= (esc_char(a[0]) + esc_str(
            a.skip(1),
        )) + esc_str(b));
    }
}

/// Escaping one more character appends its escaped form.
pub proof fn lemma_esc_snoc(s: Seq<char>, k: int)
    requires
        0 <= k < s.len(),
    ensures
        esc_str(s.take(k + 1)) == esc_str(s.take(k)) + esc_char(s[k]),
{
    assert(s.take(k + 1) =~= s.take(k) + seq![s[k]]);
    lemma_esc_append(s.take(k), seq![s[k]]);
    assert(seq![s[k]].skip(1) =~= Seq::<char>::empty());
    assert(seq![s[k]].len() == 1 && seq![s[k]][0] == s[k]);
    assert(esc_str(seq![s[k]]) == esc_char(s[k]) + esc_str(seq![s[k]].skip(1)));
    assert(esc_char(s[k]) + Seq::<char>::empty() =~= esc_char(s[k]));
}

/// The digit character of `d`.
fn digit_of(d: usize) -> (c: char)
    requires
        d < 10,
    ensures
        c == digit_char(d as nat),
{
    if d == 0 {
        '0'
    } else if d == 1 {
        '1'
    } else if d == 2 {
        '2'
    } else if d == 3 {
        '3'
    } else if d == 4 {
        '4'
    } else if d == 5 {
        '5'
    } else if d == 6 {
        '6'
    } else if d == 7 {
        '7'
    } else if d == 8 {
        '8'
    } else {
        '9'
    }
}

/// Writes the decimal representation of `n`.
fn write_uint(out: &mut Vec<char>, n: usize)
    ensures
        final(out)@ == old(out)@ + dec_rep(n as nat),
    decreases n,
{
    if n < 10 {
        out.push(digit_of(n));
        proof {
            assert(final(out)@ =~= old(out)@ + dec_rep(n as nat));
        }
    } else {
        write_uint(out, n / 10);
        out.push(digit_of(n % 10));
        proof {
            assert((n / 10) as nat == (n as nat) / 10);
            assert((n % 10) as nat == (n as nat) % 10);
            assert(final(out)@ =~= old(out)@ + dec_rep(n as nat));
        }
    }
}

/// Writes the quoted form of `s`.
fn write_quoted(out: &mut Vec<char>, s: &Vec<char>)
    ensures
        final(out)@ == old(out)@ + quoted_rep(s@),
{
    out.push('"');
    let mut k: usize = 0;
    while k < s.len()
        invariant
            k <= s@.len(),
            out@ == old(out)@ + seq!['"'] + esc_str(s@.take(k as int)),
        decreases s@.len() - k,
    {
        let c = s[k];
        if c == '"' || c == '\\' {
            out.push('\\');
        }
        out.push(c);
        proof {
            lemma_esc_snoc(s@, k as int);
            assert(out@ =~= old(out)@ + seq!['"'] + esc_str(s@.take(k + 1)));
        }
        k = k + 1;
    }
    out.push('"');
    proof {
        assert(s@.take(s@.len() as int) =~= s@);
        assert(out@ =~= old(out)@ + quoted_rep(s@));
    }
}

/// Writes the label of one node.
fn write_node(out: &mut Vec<char>, t: &EditTree)
    ensures
        final(out)@ == old(out)@ + ser_node(node_model(*t)),
    decreases *t,
{
    match t {
        EditTree::MatchNode { pre, suf, left, right } => {
            out.push('(');
            out.push('m');
            out.push(' ');
            write_uint(out, *pre);
            out.push(' ');
            write_uint(out, *suf);
            out.push(' ');
            write_child(out, left);
            out.push(' ');
            write_child(out, right);
            out.push(')');
            proof {
                assert(final(out)@ =~= old(out)@ + ser_node(node_model(*t)));
            }
        },
        EditTree::ReplaceNode { replacee, replacement } => {
            out.push('(');
            out.push('r');
            out.push(' ');
            write_quoted(out, replacee);
            out.push(' ');
            write_quoted(out, replacement);
            out.push(')');
            proof {
                assert(final(out)@ =~= old(out)@ + ser_node(node_model(*t)));
            }
        },
    }
}

/// Writes the label of an optional child.
fn write_child(out: &mut Vec<char>, c: &Option<Box<EditTree>>)
    ensures
        final(out)@ == old(out)@ + ser_child(crate::tree::child_model(*c)),
    decreases *c,
{
    match c {
        Option::None => {
            out.push('(');
            out.push(')');
            proof {
                assert(final(out)@ =~= old(out)@ + seq!['(', ')']);
            }
        },
        Option::Some(b) => {
            write_node(out, &**b);
        },
    }
}

/// Renders `tree` to its canonical label, as a character vector: exactly
/// [`ser_tree`] of the tree's model.
pub fn serialize(tree: &Option<EditTree>) -> (out: Vec<char>)
    ensures
        out@ == ser_tree(tree_model(*tree)),
{
    let mut out: Vec<char> = Vec::new();
    match tree {
        Option::None => {
            out.push('(');
            out.push(')');
            proof {
                assert(out@ =~= seq!['(', ')']);
            }
        },
        Option::Some(node) => {
            write_node(&mut out, node);
            proof {
                assert(Seq::<char>::empty() + ser_node(node_model(*node)) =~= ser_node(
                    node_model(*node),
                ));
            }
        },
    }
    out
}

/// Relies on `String::push`: appends the given character to the end of the
/// string.
#[verifier::external_body]
fn push_char(s: &mut String, c: char)
    ensures
        final(s)@ == old(s)@.push(c),
{
    s.push(c);
}

/// Renders `tree` to its canonical label as a `String`: the same character
/// sequence that [`serialize`] yields.
pub fn label_string(tree: &Option<EditTree>) -> (out: String)
    ensures
        out@ == ser_tree(tree_model(*tree)),
{
    let chars = serialize(tree);
    let mut out = String::new();
    let mut k: usize = 0;
    while k < chars.len()
        invariant
            k <= chars@.len(),
            out@ == chars@.take(k as int),
        decreases chars@.len() - k,
    {
        push_char(&mut out, chars[k]);
        k = k + 1;
        proof {
            assert(out@ =~= chars@.take(k as int));
        }
    }
    proof {
        assert(chars@.take(chars@.len() as int) =~= chars@);
    }
    out
}

} // verus!
