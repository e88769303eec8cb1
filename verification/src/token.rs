//! The lexical token type the parsers consume, and its mathematical model.

use vstd::prelude::*;

verus! {

broadcast use vstd::std_specs::vec::group_vec_axioms, vstd::seq::group_seq_axioms;

/// The delimiter kind of a token group.
#[derive(Clone, Copy, PartialEq, Eq, Debug, Structural)]
pub enum Delim {
    /// `( ... )`
    Paren,
    /// `{ ... }`
    Brace,
    /// `[ ... ]`
    Bracket,
    /// An implicit group without visible delimiters.
    Implicit,
}

/// One lexical token: an identifier, a punctuation character (whose `joint`
/// flag marks adjacency to the next punctuation token, as in the two halves
/// of `::`), a literal, or a delimited group holding a nested sequence.
///
/// Groups are opaque to the parsers: their inner tokens are carried along
/// whole and never scanned from the outside.
#[derive(Debug, PartialEq, Eq)]
pub enum Token {
    Ident { text: String },
    Punct { ch: char, joint: bool },
    Literal { text: String },
    Group { delim: Delim, inner: Vec<Token> },
}

/// The mathematical model of a token: identifier and literal text become
/// character sequences, group contents a sequence of models.
pub enum TokenM {
    Ident { text: Seq<char> },
    Punct { ch: char, joint: bool },
    Literal { text: Seq<char> },
    Group { delim: Delim, inner: Seq<TokenM> },
}

/// The model of a token value.
pub open spec fn token_model(t: Token) -> TokenM
    decreases t,
    via token_model_decreases
{
    match t {
        Token::Ident { text } => TokenM::Ident { text: text@ },
        Token::Punct { ch, joint } => TokenM::Punct { ch, joint },
        Token::Literal { text } => TokenM::Literal { text: text@ },
        Token::Group { delim, inner } => TokenM::Group {
            delim,
            inner: Seq::new(
                inner@.len(),
                |i: int|
                    if 0 <= i < inner@.len() {
                        token_model(inner@[i])
                    } else {
                        TokenM::Punct { ch: ' ', joint: false }
                    },
            ),
        },
    }
}

#[via_fn]
proof fn token_model_decreases(t: Token) {
    match t {
        Token::Group { delim, inner } => {
            assert forall|i: int| 0 <= i < inner@.len() implies decreases_to!(t => inner@[i]) by {
                assert(decreases_to!(t => t->inner));
                assert(decreases_to!(t->inner => t->inner@));
                assert(decreases_to!(t->inner@ => t->inner@[i]));
            }
        },
        _ => (),
    }
}

impl DeepView for Token {
    type V = TokenM;

    open spec fn deep_view(&self) -> TokenM {
        token_model(*self)
    }
}

/// The models of a sequence of tokens, elementwise.
pub open spec fn seq_model(ts: Seq<Token>) -> Seq<TokenM> {
    Seq::new(ts.len(), |i: int| ts[i].deep_view())
}

/// Appending a token appends its model.
pub proof fn lemma_seq_model_push(s: Seq<Token>, t: Token)
    ensures
        seq_model(s.push(t)) == seq_model(s).push(t.deep_view()),
{
    assert(seq_model(s.push(t)) =~= seq_model(s).push(t.deep_view()));
}

/// Whether a token model is the punctuation character `c`.
pub open spec fn is_punct_m(t: TokenM, c: char) -> bool {
    t matches TokenM::Punct { ch, .. } && ch == c
}

/// Whether a token model is the punctuation character `c` marked joint
/// (adjacent to the next punctuation token).
pub open spec fn is_joint_punct_m(t: TokenM, c: char) -> bool {
    t matches TokenM::Punct { ch, joint } && ch == c && joint
}

/// Whether a token model is an identifier with exactly the text `kw`.
pub open spec fn is_kw_m(t: TokenM, kw: Seq<char>) -> bool {
    t matches TokenM::Ident { text } && text == kw
}

/// Whether a token model is a group with delimiter `d`.
pub open spec fn is_group_m(t: TokenM, d: Delim) -> bool {
    t matches TokenM::Group { delim, .. } && delim == d
}

/// Tests whether a token is the punctuation character `c`.
pub fn is_punct(t: &Token, c: char) -> (r: bool)
    ensures
        r == is_punct_m(t.deep_view(), c),
{
    match t {
        Token::Punct { ch, .. } => *ch == c,
        _ => false,
    }
}

/// Tests whether a token is the punctuation character `c` marked joint.
pub fn is_joint_punct(t: &Token, c: char) -> (r: bool)
    ensures
        r == is_joint_punct_m(t.deep_view(), c),
{
    match t {
        Token::Punct { ch, joint } => *ch == c && *joint,
        _ => false,
    }
}

/// Tests whether a token is an identifier.
pub fn is_ident(t: &Token) -> (r: bool)
    ensures
        r == (t.deep_view() is Ident),
{
    matches!(t, Token::Ident { .. })
}

/// Tests whether a token is an identifier with exactly the text `kw`.
pub fn is_kw(t: &Token, kw: &str) -> (r: bool)
    ensures
        r == is_kw_m(t.deep_view(), kw@),
{
    match t {
        Token::Ident { text } => {
            let k = kw.to_owned();
            *text == k
        },
        _ => false,
    }
}

/// Tests whether a token is a group with delimiter `d`.
pub fn is_group(t: &Token, d: Delim) -> (r: bool)
    ensures
        r == is_group_m(t.deep_view(), d),
{
    match t {
        Token::Group { delim, .. } => *delim == d,
        _ => false,
    }
}

/// The model of a group token is the group of the elementwise models.
pub proof fn lemma_token_model_group(delim: Delim, inner: Vec<Token>)
    ensures
        #[trigger] token_model(Token::Group { delim, inner }) == (TokenM::Group {
            delim,
            inner: seq_model(inner@),
        }),
{
    let t = Token::Group { delim, inner };
    assert(token_model(t)->inner =~= seq_model(inner@));
}

/// Duplicates a token; the duplicate has the same model as the original.
#[verifier::loop_isolation(false)]
pub fn clone_token(t: &Token) -> (r: Token)
    ensures
        r.deep_view() == t.deep_view(),
    decreases t,
{
    match t {
        Token::Ident { text } => Token::Ident { text: text.clone() },
        Token::Punct { ch, joint } => Token::Punct { ch: *ch, joint: *joint },
        Token::Literal { text } => Token::Literal { text: text.clone() },
        Token::Group { delim, inner } => {
            let mut out: Vec<Token> = Vec::new();
            let mut i: usize = 0;
            while i < inner.len()
                invariant
                    i <= inner.len(),
                    out@.len() == i,
                    forall|j: int|
                        0 <= j < i ==> #[trigger] token_model(out@[j]) == token_model(inner@[j]),
                decreases inner.len() - i,
            {
                proof {
                    let g = *t;
                    assert(decreases_to!(g => g->inner));
                    assert(decreases_to!(g->inner => g->inner@));
                    assert(decreases_to!(g->inner@ => g->inner@[i as int]));
                }
                out.push(clone_token(&inner[i]));
                i += 1;
            }
            let r = Token::Group { delim: *delim, inner: out };
            proof {
                lemma_token_model_group(*delim, r->inner);
                lemma_token_model_group(*delim, *inner);
                assert(*t == Token::Group { delim: *delim, inner: *inner });
                assert(seq_model(r->inner@) =~= seq_model(inner@));
            }
            r
        },
    }
}

} // verus!
