//! The scoped scanner and the small token consumers the grammar parsers
//! share.
//!
//! The scanner collects tokens until a stop token matches, treating
//! bracketed groups as atomic (a stop token never fires on anything nested
//! inside a group) and tracking raw angle-bracket depth so that a stop
//! token only fires at the top level of the region being scanned. An
//! unmatched closing angle bracket — one that would close a bracket the
//! scan never opened — always ends the scan, since it belongs to the
//! enclosing list. A closing angle bracket directly preceded by a dash is
//! the tail of an arrow and is ordinary.

use crate::multipeek::Multipeek;
use crate::token::{
    is_group, is_group_m, is_joint_punct, is_joint_punct_m, is_kw, is_kw_m, is_punct, is_punct_m,
    lemma_seq_model_push, seq_model, Delim, Token, TokenM,
};
use vstd::prelude::*;

verus! {

broadcast use vstd::std_specs::vec::group_vec_axioms, vstd::seq::group_seq_axioms;

/// Which tokens end a scan.
#[derive(Clone, Copy, PartialEq, Eq, Debug, Structural)]
pub enum ScanStop {
    /// Stop before a comma.
    Comma,
    /// Stop before a colon.
    Colon,
    /// Stop before a comma, an opening brace group, or a semicolon.
    CommaBraceSemi,
}

/// Whether token `t` ends a scan with stop kind `k`.
pub open spec fn stop_matches(k: ScanStop, t: TokenM) -> bool {
    match k {
        ScanStop::Comma => is_punct_m(t, ','),
        ScanStop::Colon => is_punct_m(t, ':'),
        ScanStop::CommaBraceSemi => is_punct_m(t, ',') || is_punct_m(t, ';') || is_group_m(
            t,
            Delim::Brace,
        ),
    }
}

/// Tests whether a token ends a scan with stop kind `k`.
pub fn token_stops(k: ScanStop, t: &Token) -> (r: bool)
    ensures
        r == stop_matches(k, t.deep_view()),
{
    match k {
        ScanStop::Comma => is_punct(t, ','),
        ScanStop::Colon => is_punct(t, ':'),
        ScanStop::CommaBraceSemi => is_punct(t, ',') || is_punct(t, ';') || is_group(
            t,
            Delim::Brace,
        ),
    }
}

/// How many tokens a scan consumes from `s`, starting at angle-bracket
/// depth `depth`, with `prev_dash` recording whether the previous token was
/// a dash. The scan stops before a stop token at depth zero, before an
/// unmatched closing angle bracket, or at the end of the sequence.
pub open spec fn scan_len(s: Seq<TokenM>, k: ScanStop, depth: int, prev_dash: bool) -> nat
    decreases s.len(),
{
    if s.len() == 0 {
        0
    } else if is_punct_m(s[0], '<') {
        1 + scan_len(s.skip(1), k, depth + 1, false)
    } else if is_punct_m(s[0], '>') && !prev_dash {
        if depth == 0 {
            0
        } else {
            1 + scan_len(s.skip(1), k, depth - 1, false)
        }
    } else if depth == 0 && stop_matches(k, s[0]) {
        0
    } else {
        1 + scan_len(s.skip(1), k, depth, is_punct_m(s[0], '-'))
    }
}

/// How many tokens a scan over `s` consumes, from the top level.
pub open spec fn scan_consumed(s: Seq<TokenM>, k: ScanStop) -> nat {
    scan_len(s, k, 0, false)
}

/// A scan never consumes more tokens than the sequence holds.
pub broadcast proof fn lemma_scan_len_le(s: Seq<TokenM>, k: ScanStop, depth: int, prev_dash: bool)
    ensures
        #[trigger] scan_len(s, k, depth, prev_dash) <= s.len(),
    decreases s.len(),
{
    if s.len() == 0 {
    } else {
        lemma_scan_len_le(s.skip(1), k, depth + 1, false);
        lemma_scan_len_le(s.skip(1), k, depth - 1, false);
        lemma_scan_len_le(s.skip(1), k, depth, is_punct_m(s[0], '-'));
    }
}

/// A scan that stops short of the end stops on a stop token or on an
/// unmatched closing angle bracket.
pub proof fn lemma_scan_stop(s: Seq<TokenM>, k: ScanStop, depth: int, prev_dash: bool)
    ensures
        scan_len(s, k, depth, prev_dash) < s.len() ==> stop_matches(
            k,
            s[scan_len(s, k, depth, prev_dash) as int],
        ) || is_punct_m(s[scan_len(s, k, depth, prev_dash) as int], '>'),
    decreases s.len(),
{
    if s.len() == 0 {
    } else if is_punct_m(s[0], '<') {
        lemma_scan_stop(s.skip(1), k, depth + 1, false);
    } else if is_punct_m(s[0], '>') && !prev_dash {
        if depth != 0 {
            lemma_scan_stop(s.skip(1), k, depth - 1, false);
        }
    } else if depth == 0 && stop_matches(k, s[0]) {
    } else {
        lemma_scan_stop(s.skip(1), k, depth, is_punct_m(s[0], '-'));
    }
}

/// A scanned prefix is scan-closed: scanning exactly the tokens a scan
/// consumed consumes all of them again (no stop token fires inside).
pub proof fn lemma_scan_len_prefix(s: Seq<TokenM>, k: ScanStop, depth: int, prev_dash: bool)
    ensures
        scan_len(s.take(scan_len(s, k, depth, prev_dash) as int), k, depth, prev_dash) == scan_len(
            s,
            k,
            depth,
            prev_dash,
        ),
    decreases s.len(),
{
    lemma_scan_len_le(s, k, depth, prev_dash);
    let n = scan_len(s, k, depth, prev_dash);
    if n == 0 {
        assert(s.take(0) =~= Seq::<TokenM>::empty());
    } else {
        let t = s.take(n as int);
        assert(t[0] == s[0]);
        assert(t.skip(1) =~= s.skip(1).take(n - 1));
        if is_punct_m(s[0], '<') {
            lemma_scan_len_prefix(s.skip(1), k, depth + 1, false);
        } else if is_punct_m(s[0], '>') && !prev_dash {
            lemma_scan_len_prefix(s.skip(1), k, depth - 1, false);
        } else {
            lemma_scan_len_prefix(s.skip(1), k, depth, is_punct_m(s[0], '-'));
        }
    }
}

/// An attribute prefix is attribute-closed: the tokens the attribute
/// consumer took form whole attribute annotations and nothing else.
pub proof fn lemma_attrs_len_prefix(s: Seq<TokenM>)
    ensures
        attrs_len(s.take(attrs_len(s) as int)) == attrs_len(s),
    decreases s.len(),
{
    lemma_attrs_len_le(s);
    let a = attrs_len(s);
    if a == 0 {
        assert(s.take(0) =~= Seq::<TokenM>::empty());
    } else {
        let t = s.take(a as int);
        assert(t[0] == s[0]);
        assert(t[1] == s[1]);
        assert(t.skip(2) =~= s.skip(2).take(a - 2));
        lemma_attrs_len_prefix(s.skip(2));
    }
}

/// A visibility marker is marker-closed: the tokens the visibility
/// consumer took form exactly one whole marker, or none.
pub proof fn lemma_vis_len_prefix(s: Seq<TokenM>)
    ensures
        vis_len(s.take(vis_len(s) as int)) == vis_len(s),
{
    let v = vis_len(s);
    if v == 0 {
        assert(s.take(0) =~= Seq::<TokenM>::empty());
    } else {
        let t = s.take(v as int);
        assert(t[0] == s[0]);
        if v == 2 {
            assert(t[1] == s[1]);
        }
    }
}

/// An attribute prefix never holds more tokens than the sequence does.
pub broadcast proof fn lemma_attrs_len_le(s: Seq<TokenM>)
    ensures
        #[trigger] attrs_len(s) <= s.len(),
    decreases s.len(),
{
    if s.len() >= 2 && is_punct_m(s[0], '#') && is_group_m(s[1], Delim::Bracket) {
        lemma_attrs_len_le(s.skip(2));
    }
}

/// Whether a scan over `s` stops on a stop token (rather than on an
/// unmatched closing angle bracket or the end of the sequence).
pub open spec fn scan_hits(s: Seq<TokenM>, k: ScanStop) -> bool {
    scan_consumed(s, k) < s.len() && stop_matches(k, s[scan_consumed(s, k) as int])
}

/// Scans forward until a stop token matches at the top level, an unmatched
/// closing angle bracket appears, or the stream ends, and returns the
/// scanned tokens. The stop token is left unconsumed; when
/// `include_terminator` is set, a copy of it is also appended to the
/// result.
#[verifier::loop_isolation(false)]
pub fn scan_until(tokens: &mut Multipeek, k: ScanStop, include_terminator: bool) -> (r: Vec<Token>)
    requires
        old(tokens).wf(),
    ensures
        final(tokens).wf(),
        final(tokens).source() == old(tokens).source(),
        final(tokens).consumed() == old(tokens).consumed() + scan_consumed(
            old(tokens).stream(),
            k,
        ),
        final(tokens).stream() == old(tokens).stream().skip(
            scan_consumed(old(tokens).stream(), k) as int,
        ),
        seq_model(r@) == old(tokens).stream().take(scan_consumed(old(tokens).stream(), k) as int)
            + (if include_terminator && scan_hits(old(tokens).stream(), k) {
            seq![old(tokens).stream()[scan_consumed(old(tokens).stream(), k) as int]]
        } else {
            Seq::<TokenM>::empty()
        }),
{
    let ghost orig = old(tokens).stream();
    proof {
        tokens.lemma_stream_len_bounded();
    }
    let mut r: Vec<Token> = Vec::new();
    let mut depth: usize = 0;
    let mut prev_dash: bool = false;
    let ghost mut i: int = 0;
    loop
        invariant
            tokens.wf(),
            tokens.source() == old(tokens).source(),
            0 <= i <= orig.len(),
            orig.len() <= usize::MAX,
            depth <= i,
            tokens.consumed() == old(tokens).consumed() + i,
            tokens.stream() == orig.skip(i),
            seq_model(r@) == orig.take(i),
            scan_consumed(orig, k) == i + scan_len(tokens.stream(), k, depth as int, prev_dash),
        decreases orig.len() - i,
    {
        let t_opt = tokens.peek();
        match t_opt {
            None => {
                proof {
                    assert(tokens.stream().len() == 0);
                    assert(scan_consumed(orig, k) == i);
                    assert(seq_model(r@) =~= orig.take(i) + Seq::<TokenM>::empty());
                }
                return r;
            },
            Some(t) => {
                let ghost pre = tokens.stream();
                let ghost rpre = r@;
                let ghost depth_pre = depth as int;
                let ghost pd_pre = prev_dash;
                proof {
                    assert(pre[0] == orig[i]);
                }
                if is_punct(&t, '<') {
                    let tk = tokens.next().unwrap();
                    r.push(tk);
                    depth = depth + 1;
                    prev_dash = false;
                    proof {
                        lemma_seq_model_push(rpre, tk);
                        assert(orig.take(i + 1) =~= orig.take(i).push(orig[i]));
                        assert(pre.skip(1) =~= orig.skip(i + 1));
                        assert(scan_len(pre, k, depth_pre, pd_pre) == 1 + scan_len(
                            pre.skip(1),
                            k,
                            depth_pre + 1,
                            false,
                        ));
                        i = i + 1;
                    }
                } else if is_punct(&t, '>') && !prev_dash {
                    if depth == 0 {
                        proof {
                            assert(scan_len(pre, k, 0, pd_pre) == 0);
                            assert(scan_consumed(orig, k) == i);
                            assert(!stop_matches(k, orig[i]));
                            assert(!scan_hits(orig, k));
                            assert(seq_model(r@) =~= orig.take(i) + Seq::<TokenM>::empty());
                        }
                        return r;
                    } else {
                        let tk = tokens.next().unwrap();
                        r.push(tk);
                        depth = depth - 1;
                        prev_dash = false;
                        proof {
                            lemma_seq_model_push(rpre, tk);
                            assert(orig.take(i + 1) =~= orig.take(i).push(orig[i]));
                            assert(pre.skip(1) =~= orig.skip(i + 1));
                            assert(scan_len(pre, k, depth_pre, pd_pre) == 1 + scan_len(
                                pre.skip(1),
                                k,
                                depth_pre - 1,
                                false,
                            ));
                            i = i + 1;
                        }
                    }
                } else if depth == 0 && token_stops(k, &t) {
                    proof {
                        assert(scan_len(pre, k, 0, pd_pre) == 0);
                        assert(scan_consumed(orig, k) == i);
                        assert(scan_hits(orig, k));
                    }
                    if include_terminator {
                        let ghost rpre2 = r@;
                        r.push(t);
                        proof {
                            lemma_seq_model_push(rpre2, t);
                            assert(seq_model(r@) =~= orig.take(i) + seq![orig[i]]);
                        }
                    } else {
                        proof {
                            assert(seq_model(r@) =~= orig.take(i) + Seq::<TokenM>::empty());
                        }
                    }
                    return r;
                } else {
                    let pd = is_punct(&t, '-');
                    let tk = tokens.next().unwrap();
                    r.push(tk);
                    prev_dash = pd;
                    proof {
                        lemma_seq_model_push(rpre, tk);
                        assert(orig.take(i + 1) =~= orig.take(i).push(orig[i]));
                        assert(pre.skip(1) =~= orig.skip(i + 1));
                        assert(scan_len(pre, k, depth_pre, pd_pre) == 1 + scan_len(
                            pre.skip(1),
                            k,
                            depth_pre,
                            is_punct_m(pre[0], '-'),
                        ));
                        i = i + 1;
                    }
                }
            },
        }
    }
}

/// Consumes a comma token if one is next, and returns it.
pub fn consume_comma(tokens: &mut Multipeek) -> (r: Option<Token>)
    requires
        old(tokens).wf(),
    ensures
        final(tokens).wf(),
        final(tokens).source() == old(tokens).source(),
        if old(tokens).stream().len() > 0 && is_punct_m(old(tokens).stream()[0], ',') {
            &&& r matches Some(t) && t.deep_view() == old(tokens).stream()[0]
            &&& final(tokens).stream() == old(tokens).stream().skip(1)
            &&& final(tokens).consumed() == old(tokens).consumed() + 1
        } else {
            &&& r is None
            &&& final(tokens).stream() == old(tokens).stream()
            &&& final(tokens).consumed() == old(tokens).consumed()
        },
{
    let t_opt = tokens.peek();
    match t_opt {
        Some(t) => {
            if is_punct(&t, ',') {
                let tk = tokens.next().unwrap();
                Some(tk)
            } else {
                None
            }
        },
        None => None,
    }
}

/// Whether the stream begins with a double colon: a joint colon directly
/// followed by another colon.
pub open spec fn starts_colon2(s: Seq<TokenM>) -> bool {
    s.len() >= 2 && is_joint_punct_m(s[0], ':') && is_punct_m(s[1], ':')
}

/// Speculatively consumes a double colon: both colon tokens when the stream
/// begins with one, nothing otherwise.
pub fn try_consume_colon2(tokens: &mut Multipeek) -> (r: Option<(Token, Token)>)
    requires
        old(tokens).wf(),
    ensures
        final(tokens).wf(),
        final(tokens).source() == old(tokens).source(),
        if starts_colon2(old(tokens).stream()) {
            &&& r matches Some((a, b)) && a.deep_view() == old(tokens).stream()[0]
                && b.deep_view() == old(tokens).stream()[1]
            &&& final(tokens).stream() == old(tokens).stream().skip(2)
            &&& final(tokens).consumed() == old(tokens).consumed() + 2
        } else {
            &&& r is None
            &&& final(tokens).stream() == old(tokens).stream()
            &&& final(tokens).consumed() == old(tokens).consumed()
        },
{
    let t0 = tokens.peek_nth(0);
    let t1 = tokens.peek_nth(1);
    match (t0, t1) {
        (Some(a), Some(b)) => {
            if is_joint_punct(&a, ':') && is_punct(&b, ':') {
                let x = tokens.next().unwrap();
                let y = tokens.next().unwrap();
                proof {
                    assert(old(tokens).stream().skip(1)[0] == old(tokens).stream()[1]);
                    assert(old(tokens).stream().skip(1).skip(1) =~= old(tokens).stream().skip(2));
                }
                Some((x, y))
            } else {
                None
            }
        },
        _ => None,
    }
}

/// Returns the token as an identifier, or reports which token it was not.
pub fn parse_ident(t: Token) -> (r: Result<Token, Token>)
    ensures
        match r {
            Ok(x) => t.deep_view() is Ident && x == t,
            Err(x) => !(t.deep_view() is Ident) && x == t,
        },
{
    if matches!(&t, Token::Ident { .. }) {
        Ok(t)
    } else {
        Err(t)
    }
}

/// How many leading tokens form attribute annotations: repeated pairs of a
/// pound punctuation token and a bracket group.
pub open spec fn attrs_len(s: Seq<TokenM>) -> nat
    decreases s.len(),
{
    if s.len() >= 2 && is_punct_m(s[0], '#') && is_group_m(s[1], Delim::Bracket) {
        (2 + attrs_len(s.skip(2))) as nat
    } else {
        0
    }
}

/// Consumes zero or more attribute annotations and returns their raw
/// tokens.
#[verifier::loop_isolation(false)]
pub fn consume_attributes(tokens: &mut Multipeek) -> (r: Vec<Token>)
    requires
        old(tokens).wf(),
    ensures
        final(tokens).wf(),
        final(tokens).source() == old(tokens).source(),
        final(tokens).consumed() == old(tokens).consumed() + attrs_len(old(tokens).stream()),
        final(tokens).stream() == old(tokens).stream().skip(
            attrs_len(old(tokens).stream()) as int,
        ),
        seq_model(r@) == old(tokens).stream().take(attrs_len(old(tokens).stream()) as int),
{
    let ghost orig = old(tokens).stream();
    proof {
        tokens.lemma_stream_len_bounded();
    }
    let mut r: Vec<Token> = Vec::new();
    let ghost mut i: int = 0;
    loop
        invariant
            tokens.wf(),
            tokens.source() == old(tokens).source(),
            0 <= i <= orig.len(),
            tokens.consumed() == old(tokens).consumed() + i,
            tokens.stream() == orig.skip(i),
            seq_model(r@) == orig.take(i),
            attrs_len(orig) == i + attrs_len(tokens.stream()),
        decreases orig.len() - i,
    {
        let t0 = tokens.peek_nth(0);
        let t1 = tokens.peek_nth(1);
        let ghost pre = tokens.stream();
        match (t0, t1) {
            (Some(a), Some(b)) => {
                if is_punct(&a, '#') && is_group(&b, Delim::Bracket) {
                    let ghost rpre = r@;
                    let x = tokens.next().unwrap();
                    r.push(x);
                    let y = tokens.next().unwrap();
                    r.push(y);
                    proof {
                        lemma_seq_model_push(rpre, x);
                        lemma_seq_model_push(rpre.push(x), y);
                        assert(pre.skip(1)[0] == pre[1]);
                        assert(pre[0] == orig[i] && pre[1] == orig[i + 1]);
                        assert(orig.take(i + 2) =~= orig.take(i).push(orig[i]).push(orig[i + 1]));
                        assert(pre.skip(1).skip(1) =~= orig.skip(i + 2));
                        assert(attrs_len(pre) == 2 + attrs_len(pre.skip(2)));
                        assert(pre.skip(2) =~= orig.skip(i + 2));
                        i = i + 2;
                    }
                } else {
                    proof {
                        assert(attrs_len(tokens.stream()) == 0);
                    }
                    return r;
                }
            },
            _ => {
                proof {
                    assert(attrs_len(tokens.stream()) == 0);
                }
                return r;
            },
        }
    }
}

/// How many leading tokens form a visibility marker: a `pub` keyword token,
/// optionally followed by a parenthesis group qualifying it.
pub open spec fn vis_len(s: Seq<TokenM>) -> nat {
    if s.len() >= 1 && is_kw_m(s[0], "pub"@) {
        if s.len() >= 2 && is_group_m(s[1], Delim::Paren) {
            2
        } else {
            1
        }
    } else {
        0
    }
}

/// Optionally consumes a visibility marker and returns its raw tokens;
/// the result is empty when none is present.
pub fn consume_vis_marker(tokens: &mut Multipeek) -> (r: Vec<Token>)
    requires
        old(tokens).wf(),
    ensures
        final(tokens).wf(),
        final(tokens).source() == old(tokens).source(),
        final(tokens).consumed() == old(tokens).consumed() + vis_len(old(tokens).stream()),
        final(tokens).stream() == old(tokens).stream().skip(vis_len(old(tokens).stream()) as int),
        seq_model(r@) == old(tokens).stream().take(vis_len(old(tokens).stream()) as int),
{
    let ghost orig = old(tokens).stream();
    let mut r: Vec<Token> = Vec::new();
    let t0 = tokens.peek_nth(0);
    match t0 {
        Some(a) => {
            if is_kw(&a, "pub") {
                let x = tokens.next().unwrap();
                r.push(x);
                let t1 = tokens.peek_nth(0);
                match t1 {
                    Some(b) => {
                        if is_group(&b, Delim::Paren) {
                            let y = tokens.next().unwrap();
                            r.push(y);
                            proof {
                                assert(orig.skip(1)[0] == orig[1]);
                                assert(orig.skip(1).skip(1) =~= orig.skip(2));
                                assert(seq_model(r@) =~= orig.take(2));
                            }
                        } else {
                            proof {
                                assert(seq_model(r@) =~= orig.take(1));
                            }
                        }
                    },
                    None => {
                        proof {
                            assert(seq_model(r@) =~= orig.take(1));
                        }
                    },
                }
            } else {
                proof {
                    assert(seq_model(r@) =~= orig.take(0));
                }
            }
        },
        None => {
            proof {
                assert(seq_model(r@) =~= orig.take(0));
            }
        },
    }
    r
}

} // verus!
