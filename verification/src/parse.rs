//! The grammar parsers: declaration name, generic parameter and argument
//! lists, constraint clauses, field lists and enum variants.
//!
//! Every parser drives the lookahead cursor, builds a self-contained tree
//! fragment, and preserves every consumed token in it: on success the
//! stream before the call is the fragment's emission followed by the
//! stream after the call.

use crate::error::ParseError;
use crate::multipeek::Multipeek;
use crate::scan::{
    attrs_len, consume_attributes, consume_comma, consume_vis_marker, parse_ident, scan_consumed,
    scan_until, starts_colon2, try_consume_colon2, vis_len, ScanStop,
};
use crate::token::{
    is_group, is_group_m, is_ident, is_kw, is_kw_m, is_punct, is_punct_m, lemma_seq_model_push,
    seq_model, Delim, Token, TokenM,
};
use crate::tree::{
    emit_list, emit_opt_token, lemma_emit_list_push, Emit, EnumVariant, EnumVariantValue,
    GenericArg, GenericArgList, GenericBound, GenericParam, GenericParamList, NamedField,
    NamedStructFields, Punctuated, StructFields, TupleField, TupleStructFields, TyExpr,
    WhereClause, WhereClauseItem,
};
use vstd::prelude::*;

verus! {

broadcast use
    vstd::std_specs::vec::group_vec_axioms,
    vstd::seq::group_seq_axioms,
    crate::scan::lemma_scan_len_le,
    crate::scan::lemma_attrs_len_le,
;

/// Consumes exactly one token, which must be the identifier naming the
/// declaration.
pub fn consume_declaration_name(tokens: &mut Multipeek) -> (r: Result<Token, ParseError>)
    requires
        old(tokens).wf(),
    ensures
        final(tokens).wf(),
        final(tokens).source() == old(tokens).source(),
        match r {
            Ok(t) => {
                &&& old(tokens).stream().len() > 0
                &&& old(tokens).stream()[0] is Ident
                &&& t.deep_view() == old(tokens).stream()[0]
                &&& final(tokens).stream() == old(tokens).stream().skip(1)
                &&& final(tokens).consumed() == old(tokens).consumed() + 1
            },
            Err(e) => {
                &&& old(tokens).stream().len() == 0 || !(old(tokens).stream()[0] is Ident)
                &&& e matches ParseError::ExpectedIdent { .. }
                &&& e.fatal()
            },
        },
{
    let t = match tokens.next() {
        Some(t) => t,
        None => {
            return Err(ParseError::ExpectedIdent { found: None });
        },
    };
    match parse_ident(t) {
        Ok(x) => Ok(x),
        Err(x) => Err(ParseError::ExpectedIdent { found: Some(x) }),
    }
}

/// Scans the tokens of one field's type, up to the next top-level comma.
/// An empty scan is a fatal error: a lone comma or a dangling field is
/// malformed.
pub fn consume_field_type(tokens: &mut Multipeek) -> (r: Result<Vec<Token>, ParseError>)
    requires
        old(tokens).wf(),
    ensures
        final(tokens).wf(),
        final(tokens).source() == old(tokens).source(),
        match r {
            Ok(v) => {
                &&& scan_consumed(old(tokens).stream(), ScanStop::Comma) > 0
                &&& seq_model(v@) == old(tokens).stream().take(
                    scan_consumed(old(tokens).stream(), ScanStop::Comma) as int,
                )
                &&& final(tokens).stream() == old(tokens).stream().skip(
                    scan_consumed(old(tokens).stream(), ScanStop::Comma) as int,
                )
                &&& final(tokens).consumed() == old(tokens).consumed() + scan_consumed(
                    old(tokens).stream(),
                    ScanStop::Comma,
                )
            },
            Err(e) => {
                &&& scan_consumed(old(tokens).stream(), ScanStop::Comma) == 0
                &&& e matches ParseError::EmptyFieldType { .. }
                &&& e.fatal()
            },
        },
{
    let ghost orig = old(tokens).stream();
    let field_type_tokens = scan_until(tokens, ScanStop::Comma, false);
    proof {
        assert(seq_model(field_type_tokens@) =~= orig.take(
            scan_consumed(orig, ScanStop::Comma) as int,
        ));
        assert(field_type_tokens@.len() == seq_model(field_type_tokens@).len());
    }
    if field_type_tokens.len() == 0 {
        let comma = consume_comma(tokens);
        match comma {
            Some(c) => Err(ParseError::EmptyFieldType { found: Some(c) }),
            None => Err(ParseError::EmptyFieldType { found: None }),
        }
    } else {
        Ok(field_type_tokens)
    }
}

/// Parses an optional explicit enum discriminant: an equals token followed
/// by exactly one value token. Absent when the next token is not an equals
/// sign. A value of more than one token (anything before the next comma or
/// the end of the stream) is the one recoverable error.
pub fn consume_enum_discriminant(tokens: &mut Multipeek) -> (r: Result<
    Option<EnumVariantValue>,
    ParseError,
>)
    requires
        old(tokens).wf(),
    ensures
        final(tokens).wf(),
        final(tokens).source() == old(tokens).source(),
        match r {
            Ok(None) => {
                &&& !(old(tokens).stream().len() > 0 && is_punct_m(old(tokens).stream()[0], '='))
                &&& final(tokens).stream() == old(tokens).stream()
                &&& final(tokens).consumed() == old(tokens).consumed()
            },
            Ok(Some(v)) => {
                &&& old(tokens).stream().len() >= 2
                &&& is_punct_m(old(tokens).stream()[0], '=')
                &&& v.tk_equal.deep_view() == old(tokens).stream()[0]
                &&& v.value.deep_view() == old(tokens).stream()[1]
                &&& old(tokens).stream().len() == 2 || is_punct_m(old(tokens).stream()[2], ',')
                &&& final(tokens).stream() == old(tokens).stream().skip(2)
                &&& final(tokens).consumed() == old(tokens).consumed() + 2
            },
            Err(e) => {
                &&& old(tokens).stream().len() > 0
                &&& is_punct_m(old(tokens).stream()[0], '=')
                &&& if old(tokens).stream().len() == 1 {
                    e.fatal() && e matches ParseError::UnexpectedToken { found: None }
                } else {
                    &&& old(tokens).stream().len() >= 3
                    &&& !is_punct_m(old(tokens).stream()[2], ',')
                    &&& !e.fatal()
                    &&& e matches ParseError::UnsupportedDiscriminant { extra } && extra.deep_view()
                        == old(tokens).stream()[2]
                    &&& final(tokens).stream() == old(tokens).stream().skip(2)
                }
            },
        },
{
    let t0 = tokens.peek();
    let equal = match t0 {
        Some(t) => {
            if is_punct(&t, '=') {
                tokens.next().unwrap()
            } else {
                return Ok(None);
            }
        },
        None => {
            return Ok(None);
        },
    };
    let value_token = match tokens.next() {
        Some(t) => t,
        None => {
            return Err(ParseError::UnexpectedToken { found: None });
        },
    };
    proof {
        assert(old(tokens).stream().skip(1)[0] == old(tokens).stream()[1]);
        assert(old(tokens).stream().skip(1).skip(1) =~= old(tokens).stream().skip(2));
        if old(tokens).stream().len() >= 3 {
            assert(old(tokens).stream().skip(2)[0] == old(tokens).stream()[2]);
        }
    }
    let t2 = tokens.peek();
    match t2 {
        None => Ok(Some(EnumVariantValue { tk_equal: equal, value: value_token })),
        Some(t) => {
            if is_punct(&t, ',') {
                Ok(Some(EnumVariantValue { tk_equal: equal, value: value_token }))
            } else {
                Err(ParseError::UnsupportedDiscriminant { extra: t })
            }
        },
    }
}

/// Whether the stream begins a generic parameter list: an opening angle
/// bracket.
pub open spec fn starts_generic_params(s: Seq<TokenM>) -> bool {
    s.len() > 0 && is_punct_m(s[0], '<')
}

/// Whether the grammar accepts `s` as the inside of a generic parameter
/// list: repeatedly an optional lifetime-mark or `const` prefix, a name
/// identifier, and an optional colon-introduced bound scanned up to the
/// next top-level comma, each followed by an optional comma, up to the
/// closing angle bracket.
pub open spec fn params_items_ok(s: Seq<TokenM>) -> bool
    decreases s.len(), 0int,
{
    if s.len() == 0 {
        false
    } else if is_punct_m(s[0], '>') {
        true
    } else if !(is_punct_m(s[0], '\'') || is_kw_m(s[0], "const"@) || s[0] is Ident) {
        false
    } else {
        let s1 = if is_punct_m(s[0], '\'') || is_kw_m(s[0], "const"@) {
            s.skip(1)
        } else {
            s
        };
        if !(s1.len() > 0 && s1[0] is Ident) {
            false
        } else {
            let s2 = s1.skip(1);
            if s2.len() == 0 {
                false
            } else if is_punct_m(s2[0], ':') {
                let s3 = s2.skip(1);
                params_items_more(s3.skip(scan_consumed(s3, ScanStop::Comma) as int))
            } else if is_punct_m(s2[0], ',') || is_punct_m(s2[0], '>') {
                params_items_more(s2)
            } else {
                false
            }
        }
    }
}

/// Continues a parameter list past one parameter's optional trailing
/// comma.
pub open spec fn params_items_more(s: Seq<TokenM>) -> bool
    decreases s.len(), 1int,
{
    if s.len() > 0 && is_punct_m(s[0], ',') {
        params_items_ok(s.skip(1))
    } else {
        params_items_ok(s)
    }
}

/// Whether the grammar accepts the stream's prefix as a whole generic
/// parameter list.
pub open spec fn params_ok(s: Seq<TokenM>) -> bool {
    starts_generic_params(s) && params_items_ok(s.skip(1))
}

/// Structural validity of one generic parameter: the name is an
/// identifier, the prefix (when present) is a lifetime mark or a `const`
/// keyword token, and the bound (when present) starts with its colon and
/// holds a scan-closed token run (no top-level comma or unmatched closing
/// angle bracket hides inside it).
pub open spec fn param_wf(p: GenericParam) -> bool {
    &&& p.name.deep_view() is Ident
    &&& match p.tk_prefix {
        None => true,
        Some(t) => is_punct_m(t.deep_view(), '\'') || is_kw_m(t.deep_view(), "const"@),
    }
    &&& match p.bound {
        None => true,
        Some(b) => is_punct_m(b.tk_colon.deep_view(), ':') && scan_consumed(
            seq_model(b.tokens@),
            ScanStop::Comma,
        ) == b.tokens@.len(),
    }
}

/// Structural validity of a punctuated generic-parameter list: items are
/// valid, every separator is a comma, and every item but the last carries
/// one.
pub open spec fn params_wf(p: Punctuated<GenericParam>) -> bool {
    &&& p.wf()
    &&& forall|i: int|
        0 <= i < p.items@.len() ==> param_wf(#[trigger] p.items@[i]) && (p.seps@[i] matches Some(c)
            ==> is_punct_m(c.deep_view(), ','))
    &&& forall|i: int| 0 <= i < p.seps@.len() - 1 ==> (#[trigger] p.seps@[i]) is Some
}

/// Parses one generic parameter together with its optional trailing
/// comma: an optional lifetime-mark or `const` prefix, a name identifier,
/// and an optional colon-introduced bound scanned up to the next top-level
/// comma.
#[verifier::rlimit(100)]
fn parse_one_param(tokens: &mut Multipeek) -> (r: Result<
    (GenericParam, Option<Token>),
    ParseError,
>)
    requires
        old(tokens).wf(),
        old(tokens).stream().len() > 0,
        !is_punct_m(old(tokens).stream()[0], '>'),
    ensures
        final(tokens).wf(),
        final(tokens).source() == old(tokens).source(),
        match r {
            Ok((p, sep)) => {
                &&& param_wf(p)
                &&& (sep matches Some(c) ==> is_punct_m(c.deep_view(), ','))
                &&& (sep is None ==> final(tokens).stream().len() == 0 || is_punct_m(
                    final(tokens).stream()[0],
                    '>',
                ))
                &&& old(tokens).stream() == p.emit() + emit_opt_token(sep) + final(tokens).stream()
                &&& final(tokens).stream().len() < old(tokens).stream().len()
                &&& final(tokens).consumed() == old(tokens).consumed() + p.emit().len()
                    + emit_opt_token(sep).len()
                &&& params_items_ok(old(tokens).stream()) == params_items_ok(
                    final(tokens).stream(),
                )
            },
            Err(e) => {
                &&& e.fatal()
                &&& !params_items_ok(old(tokens).stream())
            },
        },
{
    let ghost s0 = tokens.stream();
    let t = tokens.peek().unwrap();
    let prefix: Option<Token> = if is_punct(&t, '\'') {
        Some(tokens.next().unwrap())
    } else if is_kw(&t, "const") {
        Some(tokens.next().unwrap())
    } else if is_ident(&t) {
        None
    } else {
        proof {
            assert(!params_items_ok(s0));
        }
        return Err(ParseError::UnexpectedToken { found: Some(t) });
    };
    let ghost s1 = tokens.stream();
    let name_tok = match tokens.next() {
        Some(x) => x,
        None => {
            proof {
                assert(!params_items_ok(s0));
            }
            return Err(ParseError::ExpectedIdent { found: None });
        },
    };
    let name = match parse_ident(name_tok) {
        Ok(x) => x,
        Err(x) => {
            proof {
                assert(!params_items_ok(s0));
            }
            return Err(ParseError::ExpectedIdent { found: Some(x) });
        },
    };
    let ghost s2 = tokens.stream();
    let t2 = match tokens.peek() {
        Some(x) => x,
        None => {
            proof {
                assert(s0 =~= emit_opt_token(prefix) + s1);
                assert(s1.skip(1) =~= s2);
                assert(!params_items_ok(s0));
            }
            return Err(ParseError::UnexpectedToken { found: None });
        },
    };
    let bound: Option<GenericBound> = if is_punct(&t2, ':') {
        let colon = tokens.next().unwrap();
        let ghost s3 = tokens.stream();
        let bound_tokens = scan_until(tokens, ScanStop::Comma, false);
        proof {
            assert(seq_model(bound_tokens@) =~= s3.take(scan_consumed(s3, ScanStop::Comma) as int));
            assert(s3 =~= s3.take(scan_consumed(s3, ScanStop::Comma) as int) + s3.skip(
                scan_consumed(s3, ScanStop::Comma) as int,
            ));
            crate::scan::lemma_scan_len_prefix(s3, ScanStop::Comma, 0, false);
            assert(bound_tokens@.len() == seq_model(bound_tokens@).len());
        }
        Some(GenericBound { tk_colon: colon, tokens: bound_tokens })
    } else if is_punct(&t2, ',') || is_punct(&t2, '>') {
        None
    } else {
        proof {
            assert(s0 =~= emit_opt_token(prefix) + s1);
            assert(s1.skip(1) =~= s2);
            assert(!params_items_ok(s0));
        }
        return Err(ParseError::UnexpectedToken { found: Some(t2) });
    };
    let ghost s4 = tokens.stream();
    let comma = consume_comma(tokens);
    let param = GenericParam { tk_prefix: prefix, name, bound };
    proof {
        assert(param_wf(param));
        assert(s0 =~= emit_opt_token(prefix) + s1);
        assert(s1 =~= seq![name.deep_view()] + s2);
        assert(s2 =~= (match bound {
            Some(b) => b.emit(),
            None => Seq::<TokenM>::empty(),
        }) + s4);
        assert(s4 =~= emit_opt_token(comma) + tokens.stream());
        assert(s0 =~= param.emit() + emit_opt_token(comma) + tokens.stream());
        assert(tokens.stream().len() < s0.len());
        assert(s1.skip(1) =~= s2);
        if bound is Some {
            assert(s2.skip(1).skip(scan_consumed(s2.skip(1), ScanStop::Comma) as int) =~= s4);
        } else {
            assert(s2 =~= s4);
        }
        assert(params_items_ok(s0) == params_items_more(s4));
        assert(params_items_more(s4) == params_items_ok(tokens.stream()));
        if comma is None && tokens.stream().len() > 0 {
            if bound is Some {
                crate::scan::lemma_scan_stop(s2.skip(1), ScanStop::Comma, 0, false);
                assert(tokens.stream()[0] == s2.skip(1)[scan_consumed(
                    s2.skip(1),
                    ScanStop::Comma,
                ) as int]);
            }
            assert(is_punct_m(tokens.stream()[0], '>'));
        }
    }
    Ok((param, comma))
}

/// Parses an optional `<...>` generic parameter list. Absent — with
/// nothing consumed — when the next token is not an opening angle bracket.
/// The list parses exactly when the parameter grammar accepts what follows
/// the opener; any other shape is a fatal error.
#[verifier::rlimit(100)]
pub fn consume_generic_params(tokens: &mut Multipeek) -> (r: Result<
    Option<GenericParamList>,
    ParseError,
>)
    requires
        old(tokens).wf(),
    ensures
        final(tokens).wf(),
        final(tokens).source() == old(tokens).source(),
        match r {
            Ok(None) => {
                &&& !starts_generic_params(old(tokens).stream())
                &&& final(tokens).stream() == old(tokens).stream()
                &&& final(tokens).consumed() == old(tokens).consumed()
            },
            Ok(Some(gpl)) => {
                &&& params_ok(old(tokens).stream())
                &&& gpl.tk_l_bracket.deep_view() == old(tokens).stream()[0]
                &&& is_punct_m(gpl.tk_r_bracket.deep_view(), '>')
                &&& params_wf(gpl.params)
                &&& old(tokens).stream() == gpl.emit() + final(tokens).stream()
                &&& final(tokens).consumed() == old(tokens).consumed() + gpl.emit().len()
            },
            Err(e) => {
                &&& starts_generic_params(old(tokens).stream())
                &&& !params_ok(old(tokens).stream())
                &&& e.fatal()
            },
        },
{
    let t0 = tokens.peek();
    match t0 {
        Some(t) => {
            if !is_punct(&t, '<') {
                return Ok(None);
            }
        },
        None => {
            return Ok(None);
        },
    }
    let lt = tokens.next().unwrap();
    let mut params = Punctuated::<GenericParam>::new();
    proof {
        assert(old(tokens).stream() =~= seq![lt.deep_view()] + emit_list(
            params.items@,
            params.seps@,
        ) + tokens.stream());
    }
    loop
        invariant
            tokens.wf(),
            tokens.source() == old(tokens).source(),
            params_wf(params),
            old(tokens).stream().len() > 0 && is_punct_m(old(tokens).stream()[0], '<'),
            lt.deep_view() == old(tokens).stream()[0],
            old(tokens).stream() == seq![lt.deep_view()] + emit_list(params.items@, params.seps@)
                + tokens.stream(),
            tokens.consumed() == old(tokens).consumed() + 1 + emit_list(
                params.items@,
                params.seps@,
            ).len(),
            params_items_ok(tokens.stream()) == params_items_ok(old(tokens).stream().skip(1)),
            params.seps@.len() > 0 && params.seps@[params.seps@.len() - 1] is None ==> (
            tokens.stream().len() == 0 || is_punct_m(tokens.stream()[0], '>')),
        decreases tokens.stream().len(),
    {
        let ghost s0 = tokens.stream();
        let t = match tokens.peek() {
            Some(t) => t,
            None => {
                proof {
                    assert(!params_items_ok(s0));
                }
                return Err(ParseError::UnexpectedToken { found: None });
            },
        };
        if is_punct(&t, '>') {
            let gt = tokens.next().unwrap();
            let gpl = GenericParamList { tk_l_bracket: lt, params, tk_r_bracket: gt };
            proof {
                assert(params_items_ok(s0));
                assert(old(tokens).stream() =~= gpl.emit() + tokens.stream());
                assert(old(tokens).stream().len() == gpl.emit().len() + tokens.stream().len());
            }
            return Ok(Some(gpl));
        }
        let pair = match parse_one_param(tokens) {
            Ok(p) => p,
            Err(e) => {
                return Err(e);
            },
        };
        let (param, comma) = pair;
        let ghost items_pre = params.items@;
        let ghost seps_pre = params.seps@;
        params.push(param, comma);
        proof {
            assert forall|i: int| 0 <= i < params.items@.len() implies param_wf(
                #[trigger] params.items@[i],
            ) && (params.seps@[i] matches Some(c) ==> is_punct_m(c.deep_view(), ',')) by {
                if i < items_pre.len() {
                    assert(params.items@[i] == items_pre[i]);
                    assert(params.seps@[i] == seps_pre[i]);
                } else {
                    assert(params.items@[i] == param);
                    assert(params.seps@[i] == comma);
                }
            }
            assert(seps_pre.len() > 0 ==> seps_pre[seps_pre.len() - 1] is Some) by {
                if seps_pre.len() > 0 && seps_pre[seps_pre.len() - 1] is None {
                    assert(s0.len() == 0 || is_punct_m(s0[0], '>'));
                    assert(false);
                }
            }
            assert forall|i: int| 0 <= i < params.seps@.len() - 1 implies (
            #[trigger] params.seps@[i]) is Some by {
                if i < seps_pre.len() - 1 {
                    assert(params.seps@[i] == seps_pre[i]);
                } else {
                    assert(params.seps@[i] == seps_pre[seps_pre.len() - 1]);
                }
            }
            lemma_emit_list_push(items_pre, seps_pre, param, comma);
            assert(old(tokens).stream() =~= seq![lt.deep_view()] + emit_list(
                params.items@,
                params.seps@,
            ) + tokens.stream());
        }
    }
}

/// Classifies the scanned tokens of one generic argument.
///
/// A slice that is exactly a lifetime mark followed by one identifier is a
/// lifetime argument; otherwise a slice beginning with an identifier
/// directly followed by an equals sign is a named binding whose type
/// expression is everything after the equals sign; any other slice is an
/// opaque type-or-constant argument. The argument re-emits exactly the
/// given tokens.
pub fn consume_generic_arg(tokens: Vec<Token>) -> (r: GenericArg)
    requires
        tokens@.len() > 0,
    ensures
        ({
            let s = seq_model(tokens@);
            &&& r.emit() == s
            &&& if s.len() == 2 && is_punct_m(s[0], '\'') && s[1] is Ident {
                r matches GenericArg::Lifetime { tk_lifetime, ident } && tk_lifetime.deep_view()
                    == s[0] && ident.deep_view() == s[1]
            } else if s.len() >= 2 && s[0] is Ident && is_punct_m(s[1], '=') {
                r matches GenericArg::Binding { ident, tk_equals, ty } && ident.deep_view() == s[0]
                    && tk_equals.deep_view() == s[1] && seq_model(ty.tokens@) == s.skip(2)
            } else {
                r matches GenericArg::TyOrConst { expr } && seq_model(expr.tokens@) == s
            }
        }),
{
    let ghost s = seq_model(tokens@);
    if tokens.len() == 2 && is_punct(&tokens[0], '\'') && is_ident(&tokens[1]) {
        let mut v = tokens;
        let tk_lifetime = v.remove(0);
        let ident = v.remove(0);
        let a = GenericArg::Lifetime { tk_lifetime, ident };
        proof {
            assert(a.emit() =~= s);
        }
        a
    } else if tokens.len() >= 2 && is_ident(&tokens[0]) && is_punct(&tokens[1], '=') {
        let mut v = tokens;
        let rest = v.split_off(2);
        let ident = v.remove(0);
        let tk_equals = v.remove(0);
        let a = GenericArg::Binding { ident, tk_equals, ty: TyExpr { tokens: rest } };
        proof {
            assert(seq_model(rest@) =~= s.skip(2));
            assert(a.emit() =~= s);
        }
        a
    } else {
        GenericArg::TyOrConst { expr: TyExpr { tokens } }
    }
}

/// Whether the stream begins a generic argument list: an opening angle
/// bracket, optionally preceded by a turbofish double colon.
pub open spec fn starts_generic_args(s: Seq<TokenM>) -> bool {
    if starts_colon2(s) {
        s.len() >= 3 && is_punct_m(s[2], '<')
    } else {
        s.len() >= 1 && is_punct_m(s[0], '<')
    }
}

/// Whether the grammar accepts `s` as the inside of a generic argument
/// list: repeatedly one argument's tokens scanned up to the next top-level
/// comma followed by an optional comma, where an empty scan marks the
/// closing angle bracket, which must then be next.
pub open spec fn args_items_ok(s: Seq<TokenM>) -> bool
    decreases s.len(), 0int,
{
    let n = scan_consumed(s, ScanStop::Comma);
    if n == 0 {
        s.len() > 0 && is_punct_m(s[0], '>')
    } else {
        args_items_more(s.skip(n as int))
    }
}

/// Continues an argument list past one argument's optional trailing comma.
pub open spec fn args_items_more(s: Seq<TokenM>) -> bool
    decreases s.len(), 1int,
{
    if s.len() > 0 && is_punct_m(s[0], ',') {
        args_items_ok(s.skip(1))
    } else {
        args_items_ok(s)
    }
}

/// Whether the grammar accepts the stream's prefix as a whole generic
/// argument list, optional turbofish included.
pub open spec fn args_ok(s: Seq<TokenM>) -> bool {
    &&& starts_generic_args(s)
    &&& if starts_colon2(s) {
        args_items_ok(s.skip(3))
    } else {
        args_items_ok(s.skip(1))
    }
}

/// A stored argument's variant agrees with its own token shape: exactly a
/// lifetime mark and one identifier is a lifetime argument; otherwise an
/// identifier directly followed by an equals sign is a binding; anything
/// else is a type-or-constant argument.
pub open spec fn arg_classified(a: GenericArg) -> bool {
    let s = a.emit();
    if s.len() == 2 && is_punct_m(s[0], '\'') && s[1] is Ident {
        a is Lifetime
    } else if s.len() >= 2 && s[0] is Ident && is_punct_m(s[1], '=') {
        a is Binding
    } else {
        a is TyOrConst
    }
}

/// Structural validity of a punctuated generic-argument list: every
/// argument emits a non-empty scan-closed token run (one argument per
/// non-empty comma slice), is classified by that run's shape, every
/// separator is a comma, and every item but the last carries one.
pub open spec fn args_wf(p: Punctuated<GenericArg>) -> bool {
    &&& p.wf()
    &&& forall|i: int|
        0 <= i < p.items@.len() ==> {
            let a = #[trigger] p.items@[i];
            &&& a.emit().len() > 0
            &&& scan_consumed(a.emit(), ScanStop::Comma) == a.emit().len()
            &&& arg_classified(a)
            &&& (p.seps@[i] matches Some(c) ==> is_punct_m(c.deep_view(), ','))
        }
    &&& forall|i: int| 0 <= i < p.seps@.len() - 1 ==> (#[trigger] p.seps@[i]) is Some
}

/// Parses one generic argument together with its optional trailing comma:
/// the argument's tokens are scanned up to the next top-level comma and
/// classified.
#[verifier::rlimit(100)]
fn parse_one_generic_arg(tokens: &mut Multipeek) -> (r: Result<
    (GenericArg, Option<Token>),
    ParseError,
>)
    requires
        old(tokens).wf(),
        old(tokens).stream().len() > 0,
        !is_punct_m(old(tokens).stream()[0], '>'),
    ensures
        final(tokens).wf(),
        final(tokens).source() == old(tokens).source(),
        match r {
            Ok((a, sep)) => {
                &&& a.emit().len() > 0
                &&& scan_consumed(a.emit(), ScanStop::Comma) == a.emit().len()
                &&& arg_classified(a)
                &&& (sep matches Some(c) ==> is_punct_m(c.deep_view(), ','))
                &&& (sep is None ==> final(tokens).stream().len() == 0 || is_punct_m(
                    final(tokens).stream()[0],
                    '>',
                ))
                &&& old(tokens).stream() == a.emit() + emit_opt_token(sep) + final(tokens).stream()
                &&& final(tokens).stream().len() < old(tokens).stream().len()
                &&& final(tokens).consumed() == old(tokens).consumed() + a.emit().len()
                    + emit_opt_token(sep).len()
                &&& args_items_ok(old(tokens).stream()) == args_items_ok(final(tokens).stream())
            },
            Err(e) => {
                &&& !args_items_ok(old(tokens).stream())
                &&& e.fatal()
                &&& e matches ParseError::UnclosedArgList { .. }
            },
        },
{
    let ghost s0 = tokens.stream();
    let t = tokens.peek().unwrap();
    let arg_tokens = scan_until(tokens, ScanStop::Comma, false);
    proof {
        assert(seq_model(arg_tokens@) =~= s0.take(scan_consumed(s0, ScanStop::Comma) as int));
        assert(arg_tokens@.len() == seq_model(arg_tokens@).len());
        assert(s0 =~= s0.take(scan_consumed(s0, ScanStop::Comma) as int) + s0.skip(
            scan_consumed(s0, ScanStop::Comma) as int,
        ));
        crate::scan::lemma_scan_len_prefix(s0, ScanStop::Comma, 0, false);
    }
    if arg_tokens.len() == 0 {
        proof {
            assert(!args_items_ok(s0));
        }
        return Err(ParseError::UnclosedArgList { found: Some(t) });
    }
    let arg = consume_generic_arg(arg_tokens);
    let ghost s1 = tokens.stream();
    let comma = consume_comma(tokens);
    proof {
        assert(arg.emit().len() > 0 && arg_classified(arg));
        assert(s1 =~= emit_opt_token(comma) + tokens.stream());
        assert(s0 =~= arg.emit() + emit_opt_token(comma) + tokens.stream());
        assert(tokens.stream().len() < s0.len());
        assert(args_items_ok(s0) == args_items_more(s1));
        assert(args_items_more(s1) == args_items_ok(tokens.stream()));
        if comma is None && tokens.stream().len() > 0 {
            crate::scan::lemma_scan_stop(s0, ScanStop::Comma, 0, false);
            assert(tokens.stream()[0] == s0[scan_consumed(s0, ScanStop::Comma) as int]);
            assert(is_punct_m(tokens.stream()[0], '>'));
        }
    }
    Ok((arg, comma))
}

/// Parses an optional `<...>` generic argument list with optional turbofish
/// prefix.
///
/// The double colon is speculatively consumed; when no opening angle
/// bracket follows, the whole speculative consumption is rolled back and
/// the list is absent, with the stream exactly as it was. The list parses
/// exactly when the argument grammar accepts what follows the opener; the
/// one failure is a list that never finds its closing angle bracket.
#[verifier::loop_isolation(false)]
#[verifier::rlimit(100)]
pub fn consume_generic_args(tokens: &mut Multipeek) -> (r: Result<
    Option<GenericArgList>,
    ParseError,
>)
    requires
        old(tokens).wf(),
    ensures
        final(tokens).wf(),
        final(tokens).source() == old(tokens).source(),
        match r {
            Ok(None) => {
                &&& !starts_generic_args(old(tokens).stream())
                &&& final(tokens).stream() == old(tokens).stream()
                &&& final(tokens).consumed() == old(tokens).consumed()
            },
            Ok(Some(gal)) => {
                &&& args_ok(old(tokens).stream())
                &&& (gal.tk_turbofish_colons is Some) == starts_colon2(old(tokens).stream())
                &&& is_punct_m(gal.tk_l_bracket.deep_view(), '<')
                &&& is_punct_m(gal.tk_r_bracket.deep_view(), '>')
                &&& args_wf(gal.args)
                &&& old(tokens).stream() == gal.emit() + final(tokens).stream()
                &&& final(tokens).consumed() == old(tokens).consumed() + gal.emit().len()
            },
            Err(e) => {
                &&& starts_generic_args(old(tokens).stream())
                &&& !args_ok(old(tokens).stream())
                &&& e.fatal()
                &&& e matches ParseError::UnclosedArgList { .. }
            },
        },
{
    let m = tokens.mark();
    let colons = try_consume_colon2(tokens);
    let ghost s_after = tokens.stream();
    let t0 = tokens.peek();
    let has_bracket = match &t0 {
        Some(x) => is_punct(x, '<'),
        None => false,
    };
    if !has_bracket {
        tokens.reset_to(m);
        proof {
            if starts_colon2(old(tokens).stream()) && old(tokens).stream().len() >= 3 {
                assert(old(tokens).stream().skip(2)[0] == old(tokens).stream()[2]);
            }
            assert(!starts_generic_args(old(tokens).stream()));
        }
        return Ok(None);
    }
    let lb = tokens.next().unwrap();
    proof {
        if starts_colon2(old(tokens).stream()) {
            assert(old(tokens).stream().skip(2)[0] == old(tokens).stream()[2]);
            assert(old(tokens).stream().skip(2).skip(1) =~= old(tokens).stream().skip(3));
        }
    }
    let ghost turbo_emit = match &colons {
        Some((a, b)) => seq![a.deep_view(), b.deep_view()],
        None => Seq::<TokenM>::empty(),
    };
    let mut args = Punctuated::<GenericArg>::new();
    proof {
        assert(old(tokens).stream() =~= turbo_emit + seq![lb.deep_view()] + emit_list(
            args.items@,
            args.seps@,
        ) + tokens.stream());
    }
    loop
        invariant
            tokens.wf(),
            tokens.source() == old(tokens).source(),
            args_wf(args),
            starts_generic_args(old(tokens).stream()),
            (colons is Some) == starts_colon2(old(tokens).stream()),
            turbo_emit == (match &colons {
                Some((a, b)) => seq![a.deep_view(), b.deep_view()],
                None => Seq::<TokenM>::empty(),
            }),
            is_punct_m(lb.deep_view(), '<'),
            old(tokens).stream() == turbo_emit + seq![lb.deep_view()] + emit_list(
                args.items@,
                args.seps@,
            ) + tokens.stream(),
            tokens.consumed() == old(tokens).consumed() + turbo_emit.len() + 1 + emit_list(
                args.items@,
                args.seps@,
            ).len(),
            args_items_ok(tokens.stream()) == args_items_ok(
                old(tokens).stream().skip(turbo_emit.len() as int + 1),
            ),
            args.seps@.len() > 0 && args.seps@[args.seps@.len() - 1] is None ==> (
            tokens.stream().len() == 0 || is_punct_m(tokens.stream()[0], '>')),
        decreases tokens.stream().len(),
    {
        let ghost s0 = tokens.stream();
        let t = match tokens.peek() {
            Some(t) => t,
            None => {
                proof {
                    assert(!args_items_ok(s0));
                }
                return Err(ParseError::UnclosedArgList { found: None });
            },
        };
        if is_punct(&t, '>') {
            let rb = tokens.next().unwrap();
            let gal = GenericArgList {
                tk_turbofish_colons: colons,
                tk_l_bracket: lb,
                args,
                tk_r_bracket: rb,
            };
            proof {
                assert(args_items_ok(s0));
                assert(old(tokens).stream() =~= gal.emit() + tokens.stream());
                assert(old(tokens).stream().len() == gal.emit().len() + tokens.stream().len());
            }
            return Ok(Some(gal));
        }
        let pair = match parse_one_generic_arg(tokens) {
            Ok(p) => p,
            Err(e) => {
                return Err(e);
            },
        };
        let (arg, comma) = pair;
        let ghost items_pre = args.items@;
        let ghost seps_pre = args.seps@;
        args.push(arg, comma);
        proof {
            assert forall|i: int| 0 <= i < args.items@.len() implies ({
                let a = #[trigger] args.items@[i];
                &&& a.emit().len() > 0
                &&& scan_consumed(a.emit(), ScanStop::Comma) == a.emit().len()
                &&& arg_classified(a)
                &&& (args.seps@[i] matches Some(c) ==> is_punct_m(c.deep_view(), ','))
            }) by {
                if i < items_pre.len() {
                    assert(args.items@[i] == items_pre[i]);
                    assert(args.seps@[i] == seps_pre[i]);
                } else {
                    assert(args.items@[i] == arg);
                    assert(args.seps@[i] == comma);
                }
            }
            assert(seps_pre.len() > 0 ==> seps_pre[seps_pre.len() - 1] is Some) by {
                if seps_pre.len() > 0 && seps_pre[seps_pre.len() - 1] is None {
                    assert(s0.len() == 0 || is_punct_m(s0[0], '>'));
                    assert(false);
                }
            }
            assert forall|i: int| 0 <= i < args.seps@.len() - 1 implies (
            #[trigger] args.seps@[i]) is Some by {
                if i < seps_pre.len() - 1 {
                    assert(args.seps@[i] == seps_pre[i]);
                } else {
                    assert(args.seps@[i] == seps_pre[seps_pre.len() - 1]);
                }
            }
            lemma_emit_list_push(items_pre, seps_pre, arg, comma);
            assert(old(tokens).stream() =~= turbo_emit + seq![lb.deep_view()] + emit_list(
                args.items@,
                args.seps@,
            ) + tokens.stream());
        }
    }
}

/// Whether the stream begins with the `where` keyword.
pub open spec fn starts_where(s: Seq<TokenM>) -> bool {
    s.len() > 0 && is_kw_m(s[0], "where"@)
}

/// Whether a token ends the clause list in the surrounding grammar: an
/// opening brace group or a semicolon.
pub open spec fn ends_where_list(t: TokenM) -> bool {
    is_group_m(t, Delim::Brace) || is_punct_m(t, ';')
}

/// Whether the grammar accepts `s` as a run of where-clause items:
/// repeatedly a left-hand side scanned up to a colon, the colon, and a
/// bound scanned up to the next top-level comma, brace group or semicolon,
/// each followed by an optional comma, up to a brace group or semicolon
/// that ends the clause list.
pub open spec fn where_items_ok(s: Seq<TokenM>) -> bool
    decreases s.len(), 0int,
{
    if s.len() == 0 {
        false
    } else if ends_where_list(s[0]) {
        true
    } else {
        let s1 = s.skip(scan_consumed(s, ScanStop::Colon) as int);
        if !(s1.len() > 0 && is_punct_m(s1[0], ':')) {
            false
        } else {
            let s2 = s1.skip(1);
            where_items_more(s2.skip(scan_consumed(s2, ScanStop::CommaBraceSemi) as int))
        }
    }
}

/// Continues a where-clause item run past one item's optional trailing
/// comma.
pub open spec fn where_items_more(s: Seq<TokenM>) -> bool
    decreases s.len(), 1int,
{
    if s.len() > 0 && is_punct_m(s[0], ',') {
        where_items_ok(s.skip(1))
    } else {
        where_items_ok(s)
    }
}

/// Whether the grammar accepts the stream's prefix as a whole where
/// clause.
pub open spec fn where_ok(s: Seq<TokenM>) -> bool {
    starts_where(s) && where_items_ok(s.skip(1))
}

/// Structural validity of one where-clause item: the left-hand side is a
/// scan-closed run holding no top-level colon, the bound starts with its
/// colon, and the bound's tokens are a scan-closed run, possibly extended
/// by a copy of the brace group or semicolon that ended the clause list.
pub open spec fn where_item_wf(item: WhereClauseItem) -> bool {
    &&& scan_consumed(seq_model(item.left_side@), ScanStop::Colon) == item.left_side@.len()
    &&& is_punct_m(item.bound.tk_colon.deep_view(), ':')
    &&& {
        let bm = seq_model(item.bound.tokens@);
        ||| scan_consumed(bm, ScanStop::CommaBraceSemi) == bm.len()
        ||| (bm.len() > 0 && ends_where_list(bm[bm.len() - 1]) && scan_consumed(
            bm.take(bm.len() - 1),
            ScanStop::CommaBraceSemi,
        ) == bm.len() - 1)
    }
}

/// Structural validity of a punctuated where-clause item list: every item
/// is valid, every separator is a comma, and every item but the last
/// carries one.
pub open spec fn where_items_wf(p: Punctuated<WhereClauseItem>) -> bool {
    &&& p.wf()
    &&& forall|i: int|
        0 <= i < p.items@.len() ==> where_item_wf(#[trigger] p.items@[i]) && (p.seps@[i] matches
            Some(c) ==> is_punct_m(c.deep_view(), ','))
    &&& forall|i: int| 0 <= i < p.seps@.len() - 1 ==> (#[trigger] p.seps@[i]) is Some
}

/// Parses an optional trailing `where` clause. Absent — with nothing
/// consumed — when the next token is not the `where` keyword.
///
/// Each item's bound is scanned up to the next top-level comma, opening
/// brace group or semicolon; a brace group or semicolon also ends the whole
/// clause list, and a copy of it is kept in the bound while the token
/// itself is left for the surrounding grammar, so the clause re-emits the
/// list terminator it saw. On success the stream is left exactly at that
/// terminator, and the emission is the consumed prefix, extended by the
/// terminator copy exactly when the last item carries no comma separator.
#[verifier::loop_isolation(false)]
#[verifier::rlimit(100)]
pub fn consume_where_clause(tokens: &mut Multipeek) -> (r: Result<Option<WhereClause>, ParseError>)
    requires
        old(tokens).wf(),
    ensures
        final(tokens).wf(),
        final(tokens).source() == old(tokens).source(),
        match r {
            Ok(None) => {
                &&& !starts_where(old(tokens).stream())
                &&& final(tokens).stream() == old(tokens).stream()
                &&& final(tokens).consumed() == old(tokens).consumed()
            },
            Ok(Some(wc)) => {
                let n = old(tokens).stream().len() - final(tokens).stream().len();
                &&& where_ok(old(tokens).stream())
                &&& wc.tk_where.deep_view() == old(tokens).stream()[0]
                &&& where_items_wf(wc.items)
                &&& final(tokens).stream().len() > 0 && ends_where_list(final(tokens).stream()[0])
                &&& final(tokens).stream() == old(tokens).stream().skip(n)
                &&& final(tokens).consumed() == old(tokens).consumed() + n
                &&& wc.emit() == old(tokens).stream().take(n) + (if wc.items.items@.len() > 0
                    && wc.items.seps@[wc.items.seps@.len() - 1] is None {
                    seq![final(tokens).stream()[0]]
                } else {
                    Seq::<TokenM>::empty()
                })
            },
            Err(e) => {
                &&& starts_where(old(tokens).stream())
                &&& !where_ok(old(tokens).stream())
                &&& e.fatal()
            },
        },
{
    let t0 = tokens.peek();
    match t0 {
        Some(t) => {
            if !is_kw(&t, "where") {
                return Ok(None);
            }
        },
        None => {
            return Ok(None);
        },
    }
    let tk_where = tokens.next().unwrap();
    let mut items = Punctuated::<WhereClauseItem>::new();
    let ghost mut n: int = 1;
    proof {
        assert(old(tokens).stream().take(1) =~= seq![tk_where.deep_view()] + emit_list(
            items.items@,
            items.seps@,
        ));
    }
    loop
        invariant
            tokens.wf(),
            tokens.source() == old(tokens).source(),
            starts_where(old(tokens).stream()),
            tk_where.deep_view() == old(tokens).stream()[0],
            where_items_wf(items),
            1 <= n <= old(tokens).stream().len(),
            tokens.consumed() == old(tokens).consumed() + n,
            tokens.stream() == old(tokens).stream().skip(n),
            if items.items@.len() > 0 && items.seps@[items.seps@.len() - 1] is None
                && tokens.stream().len() > 0 && ends_where_list(tokens.stream()[0]) {
                seq![tk_where.deep_view()] + emit_list(items.items@, items.seps@) == old(
                    tokens,
                ).stream().take(n) + seq![tokens.stream()[0]]
            } else {
                seq![tk_where.deep_view()] + emit_list(items.items@, items.seps@) == old(
                    tokens,
                ).stream().take(n)
            },
            where_items_ok(tokens.stream()) == where_items_ok(old(tokens).stream().skip(1)),
            items.seps@.len() > 0 && items.seps@[items.seps@.len() - 1] is None ==> (
            tokens.stream().len() == 0 || ends_where_list(tokens.stream()[0]) || is_punct_m(
                tokens.stream()[0],
                '>',
            )),
        decreases old(tokens).stream().len() - n,
    {
        let t = match tokens.peek() {
            Some(t) => t,
            None => {
                proof {
                    assert(!where_items_ok(tokens.stream()));
                }
                return Err(ParseError::UnexpectedToken { found: None });
            },
        };
        if is_group(&t, Delim::Brace) || is_punct(&t, ';') {
            let wc = WhereClause { tk_where, items };
            proof {
                assert(where_items_ok(tokens.stream()));
            }
            return Ok(Some(wc));
        }
        let ghost s0 = tokens.stream();
        let left_side = scan_until(tokens, ScanStop::Colon, false);
        proof {
            assert(seq_model(left_side@) =~= s0.take(scan_consumed(s0, ScanStop::Colon) as int));
            assert(s0 =~= s0.take(scan_consumed(s0, ScanStop::Colon) as int) + s0.skip(
                scan_consumed(s0, ScanStop::Colon) as int,
            ));
        }
        let colon = match tokens.next() {
            Some(c) => {
                if !is_punct(&c, ':') {
                    proof {
                        assert(!where_items_ok(s0));
                    }
                    return Err(ParseError::ExpectedColon { found: Some(c) });
                }
                c
            },
            None => {
                proof {
                    assert(!where_items_ok(s0));
                }
                return Err(ParseError::ExpectedColon { found: None });
            },
        };
        let ghost s2 = tokens.stream();
        let mut bound_tokens = scan_until(tokens, ScanStop::CommaBraceSemi, false);
        let ghost s3 = tokens.stream();
        let ghost bt_pre = bound_tokens@;
        proof {
            assert(seq_model(bt_pre) =~= s2.take(scan_consumed(s2, ScanStop::CommaBraceSemi) as int));
            assert(s2 =~= s2.take(scan_consumed(s2, ScanStop::CommaBraceSemi) as int) + s2.skip(
                scan_consumed(s2, ScanStop::CommaBraceSemi) as int,
            ));
            crate::scan::lemma_scan_len_prefix(s0, ScanStop::Colon, 0, false);
            crate::scan::lemma_scan_len_prefix(s2, ScanStop::CommaBraceSemi, 0, false);
            assert(left_side@.len() == seq_model(left_side@).len());
            assert(bt_pre.len() == seq_model(bt_pre).len());
        }
        let tstop = tokens.peek();
        let mut copied: bool = false;
        match tstop {
            Some(x) => {
                if is_group(&x, Delim::Brace) || is_punct(&x, ';') {
                    bound_tokens.push(x);
                    copied = true;
                }
            },
            None => {},
        }
        proof {
            if copied {
                lemma_seq_model_push(bt_pre, bound_tokens@[bound_tokens@.len() - 1]);
            }
        }
        let comma = consume_comma(tokens);
        let item = WhereClauseItem {
            left_side,
            bound: GenericBound { tk_colon: colon, tokens: bound_tokens },
        };
        let ghost items_pre = items.items@;
        let ghost seps_pre = items.seps@;
        items.push(item, comma);
        let ghost consumed_here = s0.len() - tokens.stream().len();
        proof {
            if copied {
                assert(seq_model(item.bound.tokens@).take(
                    seq_model(item.bound.tokens@).len() - 1,
                ) =~= seq_model(bt_pre));
            }
            assert(where_item_wf(item));
            assert forall|i: int| 0 <= i < items.items@.len() implies where_item_wf(
                #[trigger] items.items@[i],
            ) && (items.seps@[i] matches Some(c) ==> is_punct_m(c.deep_view(), ',')) by {
                if i < items_pre.len() {
                    assert(items.items@[i] == items_pre[i]);
                    assert(items.seps@[i] == seps_pre[i]);
                } else {
                    assert(items.items@[i] == item);
                    assert(items.seps@[i] == comma);
                }
            }
            assert(seps_pre.len() > 0 ==> seps_pre[seps_pre.len() - 1] is Some) by {
                if seps_pre.len() > 0 && seps_pre[seps_pre.len() - 1] is None {
                    if s0.len() > 0 && is_punct_m(s0[0], '>') {
                        assert(scan_consumed(s0, ScanStop::Colon) == 0);
                        assert(false);
                    }
                    assert(false);
                }
            }
            assert forall|i: int| 0 <= i < items.seps@.len() - 1 implies (
            #[trigger] items.seps@[i]) is Some by {
                if i < seps_pre.len() - 1 {
                    assert(items.seps@[i] == seps_pre[i]);
                } else {
                    assert(items.seps@[i] == seps_pre[seps_pre.len() - 1]);
                }
            }
            if comma is None && tokens.stream().len() > 0 {
                crate::scan::lemma_scan_stop(s2, ScanStop::CommaBraceSemi, 0, false);
                assert(tokens.stream()[0] == s2[scan_consumed(s2, ScanStop::CommaBraceSemi) as int]);
                assert(ends_where_list(tokens.stream()[0]) || is_punct_m(tokens.stream()[0], '>'));
            }
            assert(s2 =~= s0.skip(scan_consumed(s0, ScanStop::Colon) as int).skip(1));
            assert(where_items_ok(s0) == where_items_more(s3));
            assert(where_items_more(s3) == where_items_ok(tokens.stream()));
            lemma_emit_list_push(items_pre, seps_pre, item, comma);
            assert(tokens.stream() =~= old(tokens).stream().skip(n + consumed_here));
            if copied {
                assert(item.emit() =~= s0.take(consumed_here) + seq![tokens.stream()[0]]);
                assert(seq![tk_where.deep_view()] + emit_list(items.items@, items.seps@) =~= old(
                    tokens,
                ).stream().take(n + consumed_here) + seq![tokens.stream()[0]]);
            } else {
                assert(item.emit() + emit_opt_token(comma) =~= s0.take(consumed_here));
                assert(seq![tk_where.deep_view()] + emit_list(items.items@, items.seps@) =~= old(
                    tokens,
                ).stream().take(n + consumed_here));
            }
            n = n + consumed_here;
        }
    }
}

/// Whether the grammar accepts `s` as the contents of a tuple-style field
/// list: repeatedly an attribute prefix, a visibility marker, and a
/// non-empty type-token run scanned up to the next top-level comma, each
/// followed by an optional comma, until the tokens are exhausted.
pub open spec fn tuple_fields_ok(s: Seq<TokenM>) -> bool
    decreases s.len(), 0int,
{
    if s.len() == 0 {
        true
    } else {
        let s1 = s.skip(attrs_len(s) as int);
        let s2 = s1.skip(vis_len(s1) as int);
        let n = scan_consumed(s2, ScanStop::Comma);
        if n == 0 {
            false
        } else {
            tuple_fields_more(s2.skip(n as int))
        }
    }
}

/// Continues a tuple-style field list past one field's optional trailing
/// comma.
pub open spec fn tuple_fields_more(s: Seq<TokenM>) -> bool
    decreases s.len(), 1int,
{
    if s.len() > 0 && is_punct_m(s[0], ',') {
        tuple_fields_ok(s.skip(1))
    } else {
        tuple_fields_ok(s)
    }
}

/// Structural validity of one tuple-style field: the attribute tokens form
/// whole attribute annotations, the visibility tokens form one whole marker
/// or none, and the type holds a non-empty scan-closed token run.
pub open spec fn tuple_field_wf(f: TupleField) -> bool {
    &&& attrs_len(seq_model(f.attributes@)) == f.attributes@.len()
    &&& vis_len(seq_model(f.vis_marker@)) == f.vis_marker@.len()
    &&& f.ty.tokens@.len() > 0
    &&& scan_consumed(seq_model(f.ty.tokens@), ScanStop::Comma) == f.ty.tokens@.len()
}

/// Structural validity of a punctuated tuple-field list: every field is
/// valid, every separator is a comma, and every field but the last carries
/// one.
pub open spec fn tuple_fields_wf(p: Punctuated<TupleField>) -> bool {
    &&& p.wf()
    &&& forall|i: int|
        0 <= i < p.items@.len() ==> tuple_field_wf(#[trigger] p.items@[i]) && (p.seps@[i] matches
            Some(c) ==> is_punct_m(c.deep_view(), ','))
    &&& forall|i: int| 0 <= i < p.seps@.len() - 1 ==> (#[trigger] p.seps@[i]) is Some
}

/// Parses one tuple-style field together with its optional trailing comma.
#[verifier::rlimit(100)]
fn parse_one_tuple_field(tokens: &mut Multipeek) -> (r: Result<
    (TupleField, Option<Token>),
    ParseError,
>)
    requires
        old(tokens).wf(),
        old(tokens).stream().len() > 0,
    ensures
        final(tokens).wf(),
        final(tokens).source() == old(tokens).source(),
        match r {
            Ok((f, sep)) => {
                &&& tuple_field_wf(f)
                &&& (sep matches Some(c) ==> is_punct_m(c.deep_view(), ','))
                &&& !is_punct_m(old(tokens).stream()[0], '>')
                &&& (sep is None ==> final(tokens).stream().len() == 0 || is_punct_m(
                    final(tokens).stream()[0],
                    '>',
                ))
                &&& old(tokens).stream() == f.emit() + emit_opt_token(sep) + final(tokens).stream()
                &&& final(tokens).stream().len() < old(tokens).stream().len()
                &&& tuple_fields_ok(old(tokens).stream()) == tuple_fields_ok(
                    final(tokens).stream(),
                )
            },
            Err(e) => {
                &&& e.fatal()
                &&& e matches ParseError::EmptyFieldType { .. }
                &&& !tuple_fields_ok(old(tokens).stream())
            },
        },
{
    let ghost s0 = tokens.stream();
    proof {
        tokens.lemma_stream_len_bounded();
    }
    let attributes = consume_attributes(tokens);
    proof {
        assert(seq_model(attributes@) =~= s0.take(attrs_len(s0) as int));
        assert(s0 =~= s0.take(attrs_len(s0) as int) + s0.skip(attrs_len(s0) as int));
        crate::scan::lemma_attrs_len_prefix(s0);
        assert(attributes@.len() == seq_model(attributes@).len());
    }
    let ghost s1 = tokens.stream();
    let vis_marker = consume_vis_marker(tokens);
    proof {
        assert(seq_model(vis_marker@) =~= s1.take(vis_len(s1) as int));
        assert(s1 =~= s1.take(vis_len(s1) as int) + s1.skip(vis_len(s1) as int));
        crate::scan::lemma_vis_len_prefix(s1);
        assert(vis_marker@.len() == seq_model(vis_marker@).len());
    }
    let ghost s2 = tokens.stream();
    let ty_tokens = match consume_field_type(tokens) {
        Ok(v) => v,
        Err(e) => {
            proof {
                assert(!tuple_fields_ok(s0));
            }
            return Err(e);
        },
    };
    proof {
        assert(seq_model(ty_tokens@) =~= s2.take(scan_consumed(s2, ScanStop::Comma) as int));
        assert(s2 =~= s2.take(scan_consumed(s2, ScanStop::Comma) as int) + s2.skip(
            scan_consumed(s2, ScanStop::Comma) as int,
        ));
        crate::scan::lemma_scan_len_prefix(s2, ScanStop::Comma, 0, false);
        assert(ty_tokens@.len() == seq_model(ty_tokens@).len());
    }
    let ghost s3 = tokens.stream();
    let comma = consume_comma(tokens);
    let field = TupleField { attributes, vis_marker, ty: TyExpr { tokens: ty_tokens } };
    proof {
        assert(tuple_field_wf(field));
        assert(s3 =~= emit_opt_token(comma) + tokens.stream());
        assert(s0 =~= field.emit() + emit_opt_token(comma) + tokens.stream());
        assert(tokens.stream().len() < s0.len());
        assert(tuple_fields_ok(s0) == tuple_fields_more(s3));
        assert(tuple_fields_more(s3) == tuple_fields_ok(tokens.stream()));
        assert(!is_punct_m(s0[0], '>')) by {
            if is_punct_m(s0[0], '>') {
                assert(attrs_len(s0) == 0);
                assert(vis_len(s0) == 0);
                assert(s1 == s0 && s2 == s0);
                assert(scan_consumed(s2, ScanStop::Comma) == 0);
            }
        }
        if comma is None && tokens.stream().len() > 0 {
            crate::scan::lemma_scan_stop(s2, ScanStop::Comma, 0, false);
            assert(tokens.stream()[0] == s2[scan_consumed(s2, ScanStop::Comma) as int]);
            assert(is_punct_m(tokens.stream()[0], '>'));
        }
    }
    Ok((field, comma))
}

/// Parses the contents of a parenthesis group as a tuple-style field list,
/// until the group's tokens are exhausted. The list re-emits as exactly
/// the group it came from, and parses exactly when the field grammar
/// accepts the group's contents.
#[verifier::rlimit(100)]
pub fn parse_tuple_fields(group: Token) -> (r: Result<TupleStructFields, ParseError>)
    requires
        group.deep_view() is Group,
    ensures
        match r {
            Ok(t) => {
                &&& tuple_fields_ok(group.deep_view()->inner)
                &&& t.emit_group() == group.deep_view()
                &&& tuple_fields_wf(t.fields)
            },
            Err(e) => {
                &&& !tuple_fields_ok(group.deep_view()->inner)
                &&& e.fatal()
                &&& e matches ParseError::EmptyFieldType { .. }
            },
        },
{
    let (delim, inner) = match group {
        Token::Group { delim, inner } => (delim, inner),
        _ => {
            proof {
                assert(false);
            }
            return Err(ParseError::EmptyFieldType { found: None });
        },
    };
    let ghost innerm = seq_model(inner@);
    proof {
        crate::token::lemma_token_model_group(delim, inner);
    }
    let mut tokens = Multipeek::new(inner);
    let mut fields = Punctuated::<TupleField>::new();
    loop
        invariant_except_break
            tokens.wf(),
            tuple_fields_wf(fields),
            innerm == group.deep_view()->inner,
            innerm == emit_list(fields.items@, fields.seps@) + tokens.stream(),
            tuple_fields_ok(tokens.stream()) == tuple_fields_ok(innerm),
            fields.seps@.len() > 0 && fields.seps@[fields.seps@.len() - 1] is None ==> (
            tokens.stream().len() == 0 || is_punct_m(tokens.stream()[0], '>')),
        ensures
            tuple_fields_wf(fields),
            innerm == emit_list(fields.items@, fields.seps@) + tokens.stream(),
            tokens.stream().len() == 0,
            tuple_fields_ok(innerm),
        decreases tokens.stream().len(),
    {
        let ghost s_top = tokens.stream();
        match tokens.peek() {
            None => {
                break ;
            },
            Some(_) => {},
        }
        let pair = match parse_one_tuple_field(&mut tokens) {
            Ok(p) => p,
            Err(e) => {
                return Err(e);
            },
        };
        let (field, comma) = pair;
        let ghost items_pre = fields.items@;
        let ghost seps_pre = fields.seps@;
        fields.push(field, comma);
        proof {
            assert forall|i: int| 0 <= i < fields.items@.len() implies tuple_field_wf(
                #[trigger] fields.items@[i],
            ) && (fields.seps@[i] matches Some(c) ==> is_punct_m(c.deep_view(), ',')) by {
                if i < items_pre.len() {
                    assert(fields.items@[i] == items_pre[i]);
                    assert(fields.seps@[i] == seps_pre[i]);
                } else {
                    assert(fields.items@[i] == field);
                    assert(fields.seps@[i] == comma);
                }
            }
            assert(seps_pre.len() > 0 ==> seps_pre[seps_pre.len() - 1] is Some) by {
                if seps_pre.len() > 0 && seps_pre[seps_pre.len() - 1] is None {
                    assert(s_top.len() == 0 || is_punct_m(s_top[0], '>'));
                    assert(false);
                }
            }
            assert forall|i: int| 0 <= i < fields.seps@.len() - 1 implies (
            #[trigger] fields.seps@[i]) is Some by {
                if i < seps_pre.len() - 1 {
                    assert(fields.seps@[i] == seps_pre[i]);
                } else {
                    assert(fields.seps@[i] == seps_pre[seps_pre.len() - 1]);
                }
            }
            lemma_emit_list_push(items_pre, seps_pre, field, comma);
            assert(innerm =~= emit_list(fields.items@, fields.seps@) + tokens.stream());
        }
    }
    let t = TupleStructFields { fields, delim };
    proof {
        assert(emit_list(t.fields.items@, t.fields.seps@) =~= innerm);
    }
    Ok(t)
}

/// Whether the grammar accepts `s` as the contents of a named field list:
/// like the tuple form, with a mandatory name identifier and colon between
/// the visibility marker and the type.
pub open spec fn named_fields_ok(s: Seq<TokenM>) -> bool
    decreases s.len(), 0int,
{
    if s.len() == 0 {
        true
    } else {
        let s1 = s.skip(attrs_len(s) as int);
        let s2 = s1.skip(vis_len(s1) as int);
        if !(s2.len() > 0 && s2[0] is Ident) {
            false
        } else if !(s2.len() > 1 && is_punct_m(s2[1], ':')) {
            false
        } else {
            let s3 = s2.skip(2);
            let n = scan_consumed(s3, ScanStop::Comma);
            if n == 0 {
                false
            } else {
                named_fields_more(s3.skip(n as int))
            }
        }
    }
}

/// Continues a named field list past one field's optional trailing comma.
pub open spec fn named_fields_more(s: Seq<TokenM>) -> bool
    decreases s.len(), 1int,
{
    if s.len() > 0 && is_punct_m(s[0], ',') {
        named_fields_ok(s.skip(1))
    } else {
        named_fields_ok(s)
    }
}

/// Structural validity of one named field: attribute and visibility tokens
/// are shaped as the consumers take them, the name is an identifier, the
/// colon is a colon, and the type holds a non-empty scan-closed token run.
pub open spec fn named_field_wf(f: NamedField) -> bool {
    &&& attrs_len(seq_model(f.attributes@)) == f.attributes@.len()
    &&& vis_len(seq_model(f.vis_marker@)) == f.vis_marker@.len()
    &&& f.name.deep_view() is Ident
    &&& is_punct_m(f.tk_colon.deep_view(), ':')
    &&& f.ty.tokens@.len() > 0
    &&& scan_consumed(seq_model(f.ty.tokens@), ScanStop::Comma) == f.ty.tokens@.len()
}

/// Structural validity of a punctuated named-field list: every field is
/// valid, every separator is a comma, and every field but the last carries
/// one.
pub open spec fn named_fields_wf(p: Punctuated<NamedField>) -> bool {
    &&& p.wf()
    &&& forall|i: int|
        0 <= i < p.items@.len() ==> named_field_wf(#[trigger] p.items@[i]) && (p.seps@[i] matches
            Some(c) ==> is_punct_m(c.deep_view(), ','))
    &&& forall|i: int| 0 <= i < p.seps@.len() - 1 ==> (#[trigger] p.seps@[i]) is Some
}

/// Stitches the per-step stream equations of one parsed named field into
/// the field's emission equation.
proof fn lemma_named_field_stitch(
    s0: Seq<TokenM>,
    s1: Seq<TokenM>,
    s2: Seq<TokenM>,
    s3: Seq<TokenM>,
    s4: Seq<TokenM>,
    rest: Seq<TokenM>,
    f: NamedField,
    comma: Option<Token>,
)
    requires
        s0 == seq_model(f.attributes@) + s1,
        s1 == seq_model(f.vis_marker@) + s2,
        s2 == seq![f.name.deep_view(), f.tk_colon.deep_view()] + s3,
        s3 == seq_model(f.ty.tokens@) + s4,
        s4 == emit_opt_token(comma) + rest,
    ensures
        s0 == f.emit() + emit_opt_token(comma) + rest,
        rest.len() < s0.len(),
{
    assert(s0 =~= f.emit() + emit_opt_token(comma) + rest);
}

/// Parses one named field together with its optional trailing comma.
#[verifier::rlimit(100)]
fn parse_one_named_field(tokens: &mut Multipeek) -> (r: Result<
    (NamedField, Option<Token>),
    ParseError,
>)
    requires
        old(tokens).wf(),
        old(tokens).stream().len() > 0,
    ensures
        final(tokens).wf(),
        final(tokens).source() == old(tokens).source(),
        match r {
            Ok((f, sep)) => {
                &&& named_field_wf(f)
                &&& (sep matches Some(c) ==> is_punct_m(c.deep_view(), ','))
                &&& !is_punct_m(old(tokens).stream()[0], '>')
                &&& (sep is None ==> final(tokens).stream().len() == 0 || is_punct_m(
                    final(tokens).stream()[0],
                    '>',
                ))
                &&& old(tokens).stream() == f.emit() + emit_opt_token(sep) + final(tokens).stream()
                &&& final(tokens).stream().len() < old(tokens).stream().len()
                &&& named_fields_ok(old(tokens).stream()) == named_fields_ok(
                    final(tokens).stream(),
                )
            },
            Err(e) => {
                &&& e.fatal()
                &&& !named_fields_ok(old(tokens).stream())
            },
        },
{
    let ghost s0 = tokens.stream();
    proof {
        tokens.lemma_stream_len_bounded();
    }
    let attributes = consume_attributes(tokens);
    proof {
        assert(seq_model(attributes@) =~= s0.take(attrs_len(s0) as int));
        assert(s0 =~= s0.take(attrs_len(s0) as int) + s0.skip(attrs_len(s0) as int));
        crate::scan::lemma_attrs_len_prefix(s0);
        assert(attributes@.len() == seq_model(attributes@).len());
    }
    let ghost s1 = tokens.stream();
    let vis_marker = consume_vis_marker(tokens);
    proof {
        assert(seq_model(vis_marker@) =~= s1.take(vis_len(s1) as int));
        assert(s1 =~= s1.take(vis_len(s1) as int) + s1.skip(vis_len(s1) as int));
        crate::scan::lemma_vis_len_prefix(s1);
        assert(vis_marker@.len() == seq_model(vis_marker@).len());
    }
    let ghost s2 = tokens.stream();
    let name_tok = match tokens.next() {
        Some(x) => x,
        None => {
            proof {
                assert(!named_fields_ok(s0));
            }
            return Err(ParseError::ExpectedIdent { found: None });
        },
    };
    let name = match parse_ident(name_tok) {
        Ok(x) => x,
        Err(x) => {
            proof {
                assert(!named_fields_ok(s0));
            }
            return Err(ParseError::ExpectedIdent { found: Some(x) });
        },
    };
    let colon = match tokens.next() {
        Some(c) => {
            if !is_punct(&c, ':') {
                proof {
                    assert(s2.skip(1)[0] == s2[1]);
                    assert(!named_fields_ok(s0));
                }
                return Err(ParseError::ExpectedColon { found: Some(c) });
            }
            c
        },
        None => {
            proof {
                assert(!named_fields_ok(s0));
            }
            return Err(ParseError::ExpectedColon { found: None });
        },
    };
    proof {
        assert(s2.skip(1)[0] == s2[1]);
        assert(s2.skip(1).skip(1) =~= s2.skip(2));
    }
    let ghost s3 = tokens.stream();
    let ty_tokens = match consume_field_type(tokens) {
        Ok(v) => v,
        Err(e) => {
            proof {
                assert(!named_fields_ok(s0));
            }
            return Err(e);
        },
    };
    proof {
        assert(seq_model(ty_tokens@) =~= s3.take(scan_consumed(s3, ScanStop::Comma) as int));
        assert(s3 =~= s3.take(scan_consumed(s3, ScanStop::Comma) as int) + s3.skip(
            scan_consumed(s3, ScanStop::Comma) as int,
        ));
        crate::scan::lemma_scan_len_prefix(s3, ScanStop::Comma, 0, false);
        assert(ty_tokens@.len() == seq_model(ty_tokens@).len());
    }
    let ghost s4 = tokens.stream();
    let comma = consume_comma(tokens);
    let field = NamedField {
        attributes,
        vis_marker,
        name,
        tk_colon: colon,
        ty: TyExpr { tokens: ty_tokens },
    };
    proof {
        assert(named_field_wf(field));
        assert(s0 =~= seq_model(field.attributes@) + s1);
        assert(s1 =~= seq_model(field.vis_marker@) + s2);
        assert(s2 =~= seq![field.name.deep_view(), field.tk_colon.deep_view()] + s3);
        assert(s3 =~= seq_model(field.ty.tokens@) + s4);
        assert(s4 =~= emit_opt_token(comma) + tokens.stream());
        lemma_named_field_stitch(s0, s1, s2, s3, s4, tokens.stream(), field, comma);
        assert(named_fields_ok(s0) == named_fields_more(s4));
        assert(named_fields_more(s4) == named_fields_ok(tokens.stream()));
        assert(!is_punct_m(s0[0], '>')) by {
            if is_punct_m(s0[0], '>') {
                assert(attrs_len(s0) == 0);
                assert(vis_len(s0) == 0);
                assert(s1 == s0 && s2 == s0);
            }
        }
        if comma is None && tokens.stream().len() > 0 {
            crate::scan::lemma_scan_stop(s3, ScanStop::Comma, 0, false);
            assert(tokens.stream()[0] == s3[scan_consumed(s3, ScanStop::Comma) as int]);
            assert(is_punct_m(tokens.stream()[0], '>'));
        }
    }
    Ok((field, comma))
}

/// Parses the contents of a brace group as a named field list, until the
/// group's tokens are exhausted. The list re-emits as exactly the group it
/// came from, and parses exactly when the field grammar accepts the
/// group's contents.
#[verifier::rlimit(100)]
pub fn parse_named_fields(group: Token) -> (r: Result<NamedStructFields, ParseError>)
    requires
        group.deep_view() is Group,
    ensures
        match r {
            Ok(t) => {
                &&& named_fields_ok(group.deep_view()->inner)
                &&& t.emit_group() == group.deep_view()
                &&& named_fields_wf(t.fields)
            },
            Err(e) => {
                &&& !named_fields_ok(group.deep_view()->inner)
                &&& e.fatal()
            },
        },
{
    let (delim, inner) = match group {
        Token::Group { delim, inner } => (delim, inner),
        _ => {
            proof {
                assert(false);
            }
            return Err(ParseError::ExpectedIdent { found: None });
        },
    };
    let ghost innerm = seq_model(inner@);
    proof {
        crate::token::lemma_token_model_group(delim, inner);
    }
    let mut tokens = Multipeek::new(inner);
    let mut fields = Punctuated::<NamedField>::new();
    loop
        invariant_except_break
            tokens.wf(),
            named_fields_wf(fields),
            innerm == group.deep_view()->inner,
            innerm == emit_list(fields.items@, fields.seps@) + tokens.stream(),
            named_fields_ok(tokens.stream()) == named_fields_ok(innerm),
            fields.seps@.len() > 0 && fields.seps@[fields.seps@.len() - 1] is None ==> (
            tokens.stream().len() == 0 || is_punct_m(tokens.stream()[0], '>')),
        ensures
            named_fields_wf(fields),
            innerm == emit_list(fields.items@, fields.seps@) + tokens.stream(),
            tokens.stream().len() == 0,
            named_fields_ok(innerm),
        decreases tokens.stream().len(),
    {
        let ghost s_top = tokens.stream();
        match tokens.peek() {
            None => {
                break ;
            },
            Some(_) => {},
        }
        let pair = match parse_one_named_field(&mut tokens) {
            Ok(p) => p,
            Err(e) => {
                return Err(e);
            },
        };
        let (field, comma) = pair;
        let ghost items_pre = fields.items@;
        let ghost seps_pre = fields.seps@;
        fields.push(field, comma);
        proof {
            assert forall|i: int| 0 <= i < fields.items@.len() implies named_field_wf(
                #[trigger] fields.items@[i],
            ) && (fields.seps@[i] matches Some(c) ==> is_punct_m(c.deep_view(), ',')) by {
                if i < items_pre.len() {
                    assert(fields.items@[i] == items_pre[i]);
                    assert(fields.seps@[i] == seps_pre[i]);
                } else {
                    assert(fields.items@[i] == field);
                    assert(fields.seps@[i] == comma);
                }
            }
            assert(seps_pre.len() > 0 ==> seps_pre[seps_pre.len() - 1] is Some) by {
                if seps_pre.len() > 0 && seps_pre[seps_pre.len() - 1] is None {
                    assert(s_top.len() == 0 || is_punct_m(s_top[0], '>'));
                    assert(false);
                }
            }
            assert forall|i: int| 0 <= i < fields.seps@.len() - 1 implies (
            #[trigger] fields.seps@[i]) is Some by {
                if i < seps_pre.len() - 1 {
                    assert(fields.seps@[i] == seps_pre[i]);
                } else {
                    assert(fields.seps@[i] == seps_pre[seps_pre.len() - 1]);
                }
            }
            lemma_emit_list_push(items_pre, seps_pre, field, comma);
            assert(innerm =~= emit_list(fields.items@, fields.seps@) + tokens.stream());
        }
    }
    let t = NamedStructFields { fields, delim };
    proof {
        assert(emit_list(t.fields.items@, t.fields.seps@) =~= innerm);
    }
    Ok(t)
}

/// The inner token sequence of a group token model.
pub open spec fn group_inner(t: TokenM) -> Seq<TokenM>
    recommends
        t is Group,
{
    t->inner
}

/// Whether the grammar accepts `s` as a whole variant list: repeatedly an
/// attribute prefix, a visibility marker, a name identifier, contents
/// classified by the next token, an optional single-token discriminant and
/// an optional comma, until the tokens are exhausted.
pub open spec fn variants_ok(s: Seq<TokenM>) -> bool
    decreases s.len(), 0int,
{
    if s.len() == 0 {
        true
    } else {
        let s1 = s.skip(attrs_len(s) as int);
        let s2 = s1.skip(vis_len(s1) as int);
        if !(s2.len() > 0 && s2[0] is Ident) {
            false
        } else {
            contents_step_ok(s2.skip(1))
        }
    }
}

/// One variant's contents and what follows them: absent, a comma or an
/// equals sign mean a unit variant; a parenthesis or brace group must hold
/// a valid field list; anything else is a grammar violation.
pub open spec fn contents_step_ok(s: Seq<TokenM>) -> bool
    decreases s.len(), 3int,
{
    if s.len() == 0 {
        true
    } else if is_punct_m(s[0], ',') || is_punct_m(s[0], '=') {
        variants_value(s)
    } else if is_group_m(s[0], Delim::Paren) {
        tuple_fields_ok(group_inner(s[0])) && variants_value(s.skip(1))
    } else if is_group_m(s[0], Delim::Brace) {
        named_fields_ok(group_inner(s[0])) && variants_value(s.skip(1))
    } else {
        false
    }
}

/// Continues a variant list past one variant's optional discriminant: an
/// equals sign must be followed by exactly one value token and then a
/// comma or the end.
pub open spec fn variants_value(s: Seq<TokenM>) -> bool
    decreases s.len(), 2int,
{
    if s.len() > 0 && is_punct_m(s[0], '=') {
        if s.len() == 1 {
            false
        } else if s.len() == 2 || is_punct_m(s[2], ',') {
            variants_more(s.skip(2))
        } else {
            false
        }
    } else {
        variants_more(s)
    }
}

/// Continues a variant list past one variant's optional trailing comma.
pub open spec fn variants_more(s: Seq<TokenM>) -> bool
    decreases s.len(), 1int,
{
    if s.len() > 0 && is_punct_m(s[0], ',') {
        variants_ok(s.skip(1))
    } else {
        variants_ok(s)
    }
}

/// Whether parsing `s` as a variant list fails recoverably: everything is
/// grammatical until some variant's explicit discriminant holds more than
/// one token.
pub open spec fn variants_rec(s: Seq<TokenM>) -> bool
    decreases s.len(), 0int,
{
    if s.len() == 0 {
        false
    } else {
        let s1 = s.skip(attrs_len(s) as int);
        let s2 = s1.skip(vis_len(s1) as int);
        if !(s2.len() > 0 && s2[0] is Ident) {
            false
        } else {
            contents_step_rec(s2.skip(1))
        }
    }
}

/// The contents step of `variants_rec`.
pub open spec fn contents_step_rec(s: Seq<TokenM>) -> bool
    decreases s.len(), 3int,
{
    if s.len() == 0 {
        false
    } else if is_punct_m(s[0], ',') || is_punct_m(s[0], '=') {
        variants_value_rec(s)
    } else if is_group_m(s[0], Delim::Paren) {
        tuple_fields_ok(group_inner(s[0])) && variants_value_rec(s.skip(1))
    } else if is_group_m(s[0], Delim::Brace) {
        named_fields_ok(group_inner(s[0])) && variants_value_rec(s.skip(1))
    } else {
        false
    }
}

/// The discriminant step of `variants_rec`: a value of more than one token
/// is the recoverable failure.
pub open spec fn variants_value_rec(s: Seq<TokenM>) -> bool
    decreases s.len(), 2int,
{
    if s.len() > 0 && is_punct_m(s[0], '=') {
        if s.len() == 1 {
            false
        } else if s.len() == 2 || is_punct_m(s[2], ',') {
            variants_more_rec(s.skip(2))
        } else {
            true
        }
    } else {
        variants_more_rec(s)
    }
}

/// Continues `variants_rec` past one variant's optional trailing comma.
pub open spec fn variants_more_rec(s: Seq<TokenM>) -> bool
    decreases s.len(), 1int,
{
    if s.len() > 0 && is_punct_m(s[0], ',') {
        variants_rec(s.skip(1))
    } else {
        variants_rec(s)
    }
}

/// Structural validity of one enum variant: attribute and visibility
/// tokens are shaped as the consumers take them, the name is an
/// identifier, the contents are valid field lists, and the discriminant
/// (when present) starts with an equals sign.
pub open spec fn variant_wf(v: EnumVariant) -> bool {
    &&& attrs_len(seq_model(v.attributes@)) == v.attributes@.len()
    &&& vis_len(seq_model(v.vis_marker@)) == v.vis_marker@.len()
    &&& v.name.deep_view() is Ident
    &&& match v.contents {
        StructFields::Unit => true,
        StructFields::Tuple(t) => tuple_fields_wf(t.fields) && t.delim == Delim::Paren,
        StructFields::Named(n) => named_fields_wf(n.fields) && n.delim == Delim::Brace,
    }
    &&& (v.value matches Some(ev) ==> is_punct_m(ev.tk_equal.deep_view(), '='))
}

/// Structural validity of a punctuated variant list: every variant is
/// valid and every separator is a comma.
pub open spec fn variants_wf(p: Punctuated<EnumVariant>) -> bool {
    &&& p.wf()
    &&& forall|i: int|
        0 <= i < p.items@.len() ==> variant_wf(#[trigger] p.items@[i]) && (p.seps@[i] matches Some(
            c,
        ) ==> is_punct_m(c.deep_view(), ','))
}

/// Stitches the per-step stream equations of one parsed variant into the
/// variant's emission equation.
proof fn lemma_variant_stitch(
    s0: Seq<TokenM>,
    s1: Seq<TokenM>,
    s2: Seq<TokenM>,
    s3: Seq<TokenM>,
    s4: Seq<TokenM>,
    s5: Seq<TokenM>,
    rest: Seq<TokenM>,
    variant: EnumVariant,
    comma: Option<Token>,
)
    requires
        s0 == seq_model(variant.attributes@) + s1,
        s1 == seq_model(variant.vis_marker@) + s2,
        s2 == seq![variant.name.deep_view()] + s3,
        s3 == variant.contents.emit() + s4,
        s4 == (match variant.value {
            Some(v) => v.emit(),
            None => Seq::<TokenM>::empty(),
        }) + s5,
        s5 == emit_opt_token(comma) + rest,
    ensures
        s0 == variant.emit() + emit_opt_token(comma) + rest,
        rest.len() < s2.len(),
{
    assert(s0 =~= variant.emit() + emit_opt_token(comma) + rest);
}

/// Parses one variant's contents, classified by the next token: absent, a
/// comma or an equals sign mean a unit variant with nothing consumed; a
/// parenthesis group holds tuple fields; a brace group holds named fields;
/// any other token is a fatal error.
#[verifier::rlimit(100)]
fn parse_variant_contents(tokens: &mut Multipeek) -> (r: Result<StructFields, ParseError>)
    requires
        old(tokens).wf(),
    ensures
        final(tokens).wf(),
        final(tokens).source() == old(tokens).source(),
        match r {
            Ok(c) => {
                &&& match c {
                    StructFields::Unit => true,
                    StructFields::Tuple(t) => tuple_fields_wf(t.fields) && t.delim == Delim::Paren,
                    StructFields::Named(n) => named_fields_wf(n.fields) && n.delim
                        == Delim::Brace,
                }
                &&& old(tokens).stream() == c.emit() + final(tokens).stream()
                &&& contents_step_ok(old(tokens).stream()) == variants_value(
                    final(tokens).stream(),
                )
                &&& contents_step_rec(old(tokens).stream()) == variants_value_rec(
                    final(tokens).stream(),
                )
            },
            Err(e) => {
                &&& !contents_step_ok(old(tokens).stream())
                &&& !contents_step_rec(old(tokens).stream())
                &&& e.fatal()
            },
        },
{
    let ghost s0 = tokens.stream();
    let t0 = tokens.peek();
    match t0 {
        None => {
            proof {
                assert(s0 =~= StructFields::Unit.emit() + s0);
            }
            Ok(StructFields::Unit)
        },
        Some(t) => {
            if is_punct(&t, ',') || is_punct(&t, '=') {
                proof {
                    assert(s0 =~= StructFields::Unit.emit() + s0);
                }
                Ok(StructFields::Unit)
            } else if is_group(&t, Delim::Paren) {
                let g = tokens.next().unwrap();
                match parse_tuple_fields(g) {
                    Ok(f) => {
                        let c = StructFields::Tuple(f);
                        proof {
                            assert(f.emit_group()->delim == f.delim);
                            assert(f.delim == Delim::Paren);
                            assert(s0 =~= c.emit() + tokens.stream());
                        }
                        Ok(c)
                    },
                    Err(e) => Err(e),
                }
            } else if is_group(&t, Delim::Brace) {
                let g = tokens.next().unwrap();
                match parse_named_fields(g) {
                    Ok(f) => {
                        let c = StructFields::Named(f);
                        proof {
                            assert(f.emit_group()->delim == f.delim);
                            assert(f.delim == Delim::Brace);
                            assert(s0 =~= c.emit() + tokens.stream());
                        }
                        Ok(c)
                    },
                    Err(e) => Err(e),
                }
            } else {
                Err(ParseError::UnexpectedToken { found: Some(t) })
            }
        },
    }
}

/// Parses one enum variant together with its optional trailing comma: an
/// attribute prefix, a visibility marker, a name, contents classified by
/// the next token (absent, comma or equals sign mean a unit variant; a
/// parenthesis group, tuple fields; a brace group, named fields), and an
/// optional explicit discriminant.
#[verifier::rlimit(100)]
fn parse_one_variant(tokens: &mut Multipeek) -> (r: Result<
    (EnumVariant, Option<Token>),
    ParseError,
>)
    requires
        old(tokens).wf(),
        old(tokens).stream().len() > 0,
    ensures
        final(tokens).wf(),
        final(tokens).source() == old(tokens).source(),
        match r {
            Ok((v, sep)) => {
                &&& variant_wf(v)
                &&& (sep matches Some(c) ==> is_punct_m(c.deep_view(), ','))
                &&& old(tokens).stream() == v.emit() + emit_opt_token(sep) + final(tokens).stream()
                &&& final(tokens).stream().len() < old(tokens).stream().len()
                &&& variants_ok(old(tokens).stream()) == variants_ok(final(tokens).stream())
                &&& variants_rec(old(tokens).stream()) == variants_rec(final(tokens).stream())
            },
            Err(e) => {
                &&& !variants_ok(old(tokens).stream())
                &&& e.fatal() == !variants_rec(old(tokens).stream())
            },
        },
{
    let ghost s0 = tokens.stream();
    proof {
        tokens.lemma_stream_len_bounded();
    }
    let attributes = consume_attributes(tokens);
    proof {
        assert(seq_model(attributes@) =~= s0.take(attrs_len(s0) as int));
        assert(s0 =~= s0.take(attrs_len(s0) as int) + s0.skip(attrs_len(s0) as int));
        crate::scan::lemma_attrs_len_prefix(s0);
        assert(attributes@.len() == seq_model(attributes@).len());
    }
    let ghost s1 = tokens.stream();
    let vis_marker = consume_vis_marker(tokens);
    proof {
        assert(seq_model(vis_marker@) =~= s1.take(vis_len(s1) as int));
        assert(s1 =~= s1.take(vis_len(s1) as int) + s1.skip(vis_len(s1) as int));
        crate::scan::lemma_vis_len_prefix(s1);
        assert(vis_marker@.len() == seq_model(vis_marker@).len());
    }
    let ghost s2 = tokens.stream();
    let name_tok = match tokens.next() {
        Some(x) => x,
        None => {
            proof {
                assert(!variants_ok(s0));
                assert(!variants_rec(s0));
            }
            return Err(ParseError::ExpectedIdent { found: None });
        },
    };
    let name = match parse_ident(name_tok) {
        Ok(x) => x,
        Err(x) => {
            proof {
                assert(!variants_ok(s0));
                assert(!variants_rec(s0));
            }
            return Err(ParseError::ExpectedIdent { found: Some(x) });
        },
    };
    let ghost s3 = tokens.stream();
    let contents: StructFields = match parse_variant_contents(tokens) {
        Ok(c) => c,
        Err(e) => {
            proof {
                assert(!variants_ok(s0));
                assert(!variants_rec(s0));
            }
            return Err(e);
        },
    };
    let ghost s4 = tokens.stream();
    proof {
        assert(variants_ok(s0) == variants_value(s4));
        assert(variants_rec(s0) == variants_value_rec(s4));
    }
    let value = match consume_enum_discriminant(tokens) {
        Ok(v) => v,
        Err(e) => {
            proof {
                assert(!variants_ok(s0));
                assert(e.fatal() == !variants_rec(s0));
            }
            return Err(e);
        },
    };
    let ghost s5 = tokens.stream();
    let comma = consume_comma(tokens);
    let variant = EnumVariant { attributes, vis_marker, name, contents, value };
    proof {
        assert(variant_wf(variant));
        assert(s0 =~= seq_model(variant.attributes@) + s1);
        assert(s1 =~= seq_model(variant.vis_marker@) + s2);
        assert(s2 =~= seq![variant.name.deep_view()] + s3);
        assert(s3 =~= variant.contents.emit() + s4);
        assert(s4 =~= (match variant.value {
            Some(v) => v.emit(),
            None => Seq::<TokenM>::empty(),
        }) + s5);
        assert(s5 =~= emit_opt_token(comma) + tokens.stream());
        lemma_variant_stitch(s0, s1, s2, s3, s4, s5, tokens.stream(), variant, comma);
        assert(variants_value(s4) == variants_more(s5));
        assert(variants_more(s5) == variants_ok(tokens.stream()));
        assert(variants_value_rec(s4) == variants_more_rec(s5));
        assert(variants_more_rec(s5) == variants_rec(tokens.stream()));
    }
    Ok((variant, comma))
}

/// Parses a comma-separated list of enum variants until the tokens are
/// exhausted. The list re-emits exactly the input, and parses exactly when
/// the variant grammar accepts it. A failing parse is recoverable exactly
/// when the first failure is an explicit discriminant of more than one
/// token; every other failure is fatal.
#[verifier::rlimit(100)]
pub fn parse_enum_variants(input: Vec<Token>) -> (r: Result<Punctuated<EnumVariant>, ParseError>)
    ensures
        match r {
            Ok(vs) => {
                &&& variants_ok(seq_model(input@))
                &&& variants_wf(vs)
                &&& emit_list(vs.items@, vs.seps@) == seq_model(input@)
            },
            Err(e) => {
                &&& !variants_ok(seq_model(input@))
                &&& e.fatal() == !variants_rec(seq_model(input@))
            },
        },
{
    let ghost innerm = seq_model(input@);
    let mut tokens = Multipeek::new(input);
    let mut variants = Punctuated::<EnumVariant>::new();
    loop
        invariant_except_break
            tokens.wf(),
            variants_wf(variants),
            innerm == seq_model(input@),
            innerm == emit_list(variants.items@, variants.seps@) + tokens.stream(),
            variants_ok(tokens.stream()) == variants_ok(innerm),
            variants_rec(tokens.stream()) == variants_rec(innerm),
        ensures
            variants_wf(variants),
            innerm == emit_list(variants.items@, variants.seps@) + tokens.stream(),
            tokens.stream().len() == 0,
            variants_ok(innerm),
        decreases tokens.stream().len(),
    {
        match tokens.peek() {
            None => {
                break ;
            },
            Some(_) => {},
        }
        let pair = match parse_one_variant(&mut tokens) {
            Ok(p) => p,
            Err(e) => {
                return Err(e);
            },
        };
        let (variant, comma) = pair;
        let ghost items_pre = variants.items@;
        let ghost seps_pre = variants.seps@;
        variants.push(variant, comma);
        proof {
            assert forall|i: int| 0 <= i < variants.items@.len() implies variant_wf(
                #[trigger] variants.items@[i],
            ) && (variants.seps@[i] matches Some(c) ==> is_punct_m(c.deep_view(), ',')) by {
                if i < items_pre.len() {
                    assert(variants.items@[i] == items_pre[i]);
                    assert(variants.seps@[i] == seps_pre[i]);
                } else {
                    assert(variants.items@[i] == variant);
                    assert(variants.seps@[i] == comma);
                }
            }
            lemma_emit_list_push(items_pre, seps_pre, variant, comma);
            assert(innerm =~= emit_list(variants.items@, variants.seps@) + tokens.stream());
        }
    }
    proof {
        assert(emit_list(variants.items@, variants.seps@) =~= innerm);
    }
    Ok(variants)
}

} // verus!
