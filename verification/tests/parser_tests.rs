use declparse::error::ParseError;
use declparse::multipeek::{multipeek, Multipeek};
use declparse::parse::{
    consume_declaration_name, consume_enum_discriminant, consume_field_type, consume_generic_args,
    consume_generic_params, consume_where_clause, parse_enum_variants, parse_named_fields,
    parse_tuple_fields,
};
use declparse::scan::{scan_until, ScanStop};
use declparse::token::{Delim, Token};
use declparse::tree::{GenericArg, GenericParamList, StructFields};

fn ident(s: &str) -> Token {
    Token::Ident { text: s.to_string() }
}

fn punct(c: char) -> Token {
    Token::Punct { ch: c, joint: false }
}

fn jpunct(c: char) -> Token {
    Token::Punct { ch: c, joint: true }
}

fn lit(s: &str) -> Token {
    Token::Literal { text: s.to_string() }
}

fn group(delim: Delim, inner: Vec<Token>) -> Token {
    Token::Group { delim, inner }
}

fn param_list_tokens() -> Vec<Token> {
    vec![
        punct('<'),
        jpunct('\''),
        ident("a"),
        punct(','),
        ident("T"),
        punct(':'),
        ident("Bound"),
        punct(','),
        ident("const"),
        ident("N"),
        punct(':'),
        ident("usize"),
        punct('>'),
    ]
}

fn emit_params(g: GenericParamList) -> Vec<Token> {
    let mut out = vec![g.tk_l_bracket];
    for (item, sep) in g.params.items.into_iter().zip(g.params.seps.into_iter()) {
        if let Some(p) = item.tk_prefix {
            out.push(p);
        }
        out.push(item.name);
        if let Some(b) = item.bound {
            out.push(b.tk_colon);
            out.extend(b.tokens);
        }
        if let Some(c) = sep {
            out.push(c);
        }
    }
    out.push(g.tk_r_bracket);
    out
}

#[test]
fn generic_params_three_kinds() {
    let mut mp = multipeek(param_list_tokens());
    let g = consume_generic_params(&mut mp).unwrap().unwrap();
    assert_eq!(g.params.items.len(), 3);
    let p0 = &g.params.items[0];
    assert_eq!(p0.tk_prefix, Some(jpunct('\'')));
    assert_eq!(p0.name, ident("a"));
    assert!(p0.bound.is_none());
    let p1 = &g.params.items[1];
    assert!(p1.tk_prefix.is_none());
    assert_eq!(p1.name, ident("T"));
    assert_eq!(p1.bound.as_ref().unwrap().tokens, vec![ident("Bound")]);
    let p2 = &g.params.items[2];
    assert_eq!(p2.tk_prefix, Some(ident("const")));
    assert_eq!(p2.name, ident("N"));
    assert_eq!(p2.bound.as_ref().unwrap().tokens, vec![ident("usize")]);
    assert!(mp.next().is_none());
}

#[test]
fn generic_params_round_trip() {
    let mut mp = multipeek(param_list_tokens());
    let g = consume_generic_params(&mut mp).unwrap().unwrap();
    assert_eq!(emit_params(g), param_list_tokens());
}

#[test]
fn generic_params_absent() {
    let mut mp = multipeek(vec![ident("Foo")]);
    let r = consume_generic_params(&mut mp).unwrap();
    assert!(r.is_none());
    assert_eq!(mp.next(), Some(ident("Foo")));
}

#[test]
fn generic_params_trailing_comma_differs_only_in_last_separator() {
    let with_comma = vec![punct('<'), ident("T"), punct(','), punct('>')];
    let without = vec![punct('<'), ident("T"), punct('>')];
    let mut mp1 = multipeek(with_comma);
    let mut mp2 = multipeek(without);
    let g1 = consume_generic_params(&mut mp1).unwrap().unwrap();
    let g2 = consume_generic_params(&mut mp2).unwrap().unwrap();
    assert_eq!(g1.params.items, g2.params.items);
    assert_eq!(g1.params.seps, vec![Some(punct(','))]);
    assert_eq!(g2.params.seps, vec![None]);
}

#[test]
fn generic_params_unexpected_token_is_fatal() {
    let mut mp = multipeek(vec![punct('<'), punct('+'), punct('>')]);
    let e = consume_generic_params(&mut mp).unwrap_err();
    assert!(!e.is_recoverable());
    assert!(matches!(e, ParseError::UnexpectedToken { .. }));
}

fn arg_list_tokens() -> Vec<Token> {
    vec![
        jpunct(':'),
        punct(':'),
        punct('<'),
        jpunct('\''),
        ident("x"),
        punct(','),
        ident("Item"),
        punct('='),
        ident("u8"),
        punct(','),
        lit("3"),
        punct('>'),
    ]
}

#[test]
fn generic_args_turbofish_three_shapes() {
    let mut mp = multipeek(arg_list_tokens());
    let g = consume_generic_args(&mut mp).unwrap().unwrap();
    assert!(g.tk_turbofish_colons.is_some());
    assert_eq!(g.args.items.len(), 3);
    match &g.args.items[0] {
        GenericArg::Lifetime { ident: i, .. } => assert_eq!(*i, ident("x")),
        other => panic!("expected lifetime argument, got {:?}", other),
    }
    match &g.args.items[1] {
        GenericArg::Binding { ident: i, ty, .. } => {
            assert_eq!(*i, ident("Item"));
            assert_eq!(ty.tokens, vec![ident("u8")]);
        },
        other => panic!("expected binding argument, got {:?}", other),
    }
    match &g.args.items[2] {
        GenericArg::TyOrConst { expr } => assert_eq!(expr.tokens, vec![lit("3")]),
        other => panic!("expected type-or-const argument, got {:?}", other),
    }
    assert!(mp.next().is_none());
}

#[test]
fn turbofish_rollback_leaves_stream_untouched() {
    let mut mp = multipeek(vec![jpunct(':'), punct(':'), ident("x")]);
    let r = consume_generic_args(&mut mp).unwrap();
    assert!(r.is_none());
    assert_eq!(mp.next(), Some(jpunct(':')));
    assert_eq!(mp.next(), Some(punct(':')));
    assert_eq!(mp.next(), Some(ident("x")));
}

#[test]
fn generic_args_malformed_lifetime_slice_is_ty_or_const() {
    let mut mp = multipeek(vec![
        punct('<'),
        jpunct('\''),
        ident("a"),
        ident("b"),
        punct('>'),
    ]);
    let g = consume_generic_args(&mut mp).unwrap().unwrap();
    assert_eq!(g.args.items.len(), 1);
    match &g.args.items[0] {
        GenericArg::TyOrConst { expr } => {
            assert_eq!(expr.tokens, vec![jpunct('\''), ident("a"), ident("b")]);
        },
        other => panic!("expected type-or-const argument, got {:?}", other),
    }
}

#[test]
fn generic_args_missing_closer_is_fatal() {
    let mut mp = multipeek(vec![punct('<'), ident("T")]);
    let e = consume_generic_args(&mut mp).unwrap_err();
    assert!(!e.is_recoverable());
    assert!(matches!(e, ParseError::UnclosedArgList { .. }));
}

#[test]
fn generic_args_nested_angle_brackets_stay_in_one_argument() {
    let mut mp = multipeek(vec![
        punct('<'),
        ident("Vec"),
        punct('<'),
        ident("u8"),
        punct('>'),
        punct('>'),
    ]);
    let g = consume_generic_args(&mut mp).unwrap().unwrap();
    assert!(g.tk_turbofish_colons.is_none());
    assert_eq!(g.args.items.len(), 1);
    match &g.args.items[0] {
        GenericArg::TyOrConst { expr } => {
            assert_eq!(
                expr.tokens,
                vec![ident("Vec"), punct('<'), ident("u8"), punct('>')]
            );
        },
        other => panic!("expected type-or-const argument, got {:?}", other),
    }
}

#[test]
fn declaration_name_takes_one_identifier() {
    let mut mp = multipeek(vec![ident("Foo"), punct('<')]);
    let t = consume_declaration_name(&mut mp).unwrap();
    assert_eq!(t, ident("Foo"));
    assert_eq!(mp.next(), Some(punct('<')));
}

#[test]
fn declaration_name_rejects_punctuation() {
    let mut mp = multipeek(vec![punct('!')]);
    let e = consume_declaration_name(&mut mp).unwrap_err();
    assert!(matches!(e, ParseError::ExpectedIdent { found: Some(_) }));
}

#[test]
fn where_clause_keeps_list_terminator_copy() {
    let mut mp = multipeek(vec![
        ident("where"),
        ident("T"),
        punct(':'),
        ident("Debug"),
        group(Delim::Brace, vec![]),
    ]);
    let wc = consume_where_clause(&mut mp).unwrap().unwrap();
    assert_eq!(wc.tk_where, ident("where"));
    assert_eq!(wc.items.items.len(), 1);
    let item = &wc.items.items[0];
    assert_eq!(item.left_side, vec![ident("T")]);
    assert_eq!(
        item.bound.tokens,
        vec![ident("Debug"), group(Delim::Brace, vec![])]
    );
    assert_eq!(mp.next(), Some(group(Delim::Brace, vec![])));
}

#[test]
fn where_clause_two_items_ending_in_semicolon() {
    let mut mp = multipeek(vec![
        ident("where"),
        ident("T"),
        punct(':'),
        ident("A"),
        punct(','),
        ident("U"),
        punct(':'),
        ident("B"),
        punct(';'),
    ]);
    let wc = consume_where_clause(&mut mp).unwrap().unwrap();
    assert_eq!(wc.items.items.len(), 2);
    assert_eq!(wc.items.items[0].bound.tokens, vec![ident("A")]);
    assert_eq!(wc.items.seps[0], Some(punct(',')));
    assert_eq!(wc.items.items[1].bound.tokens, vec![ident("B"), punct(';')]);
    assert_eq!(wc.items.seps[1], None);
    assert_eq!(mp.next(), Some(punct(';')));
}

#[test]
fn where_clause_absent() {
    let mut mp = multipeek(vec![group(Delim::Brace, vec![])]);
    let r = consume_where_clause(&mut mp).unwrap();
    assert!(r.is_none());
    assert_eq!(mp.next(), Some(group(Delim::Brace, vec![])));
}

#[test]
fn where_clause_missing_colon_is_fatal() {
    let mut mp = multipeek(vec![ident("where"), ident("T"), group(Delim::Brace, vec![])]);
    let e = consume_where_clause(&mut mp).unwrap_err();
    assert!(matches!(e, ParseError::ExpectedColon { .. }));
}

#[test]
fn named_fields_trailing_comma_preserved() {
    let g = group(
        Delim::Brace,
        vec![
            ident("x"),
            punct(':'),
            ident("i32"),
            punct(','),
            ident("y"),
            punct(':'),
            ident("i32"),
            punct(','),
        ],
    );
    let f = parse_named_fields(g).unwrap();
    assert_eq!(f.delim, Delim::Brace);
    assert_eq!(f.fields.items.len(), 2);
    assert_eq!(f.fields.items[0].name, ident("x"));
    assert_eq!(f.fields.items[0].ty.tokens, vec![ident("i32")]);
    assert_eq!(f.fields.items[1].name, ident("y"));
    assert_eq!(f.fields.seps[0], Some(punct(',')));
    assert_eq!(f.fields.seps[1], Some(punct(',')));
}

#[test]
fn named_fields_missing_colon_is_fatal() {
    let g = group(Delim::Brace, vec![ident("x"), ident("i32")]);
    let e = parse_named_fields(g).unwrap_err();
    assert!(matches!(e, ParseError::ExpectedColon { found: Some(_) }));
}

#[test]
fn tuple_fields_with_visibility_and_attribute() {
    let g = group(
        Delim::Paren,
        vec![
            ident("pub"),
            ident("u8"),
            punct(','),
            punct('#'),
            group(Delim::Bracket, vec![ident("x")]),
            ident("i64"),
        ],
    );
    let f = parse_tuple_fields(g).unwrap();
    assert_eq!(f.fields.items.len(), 2);
    assert_eq!(f.fields.items[0].vis_marker, vec![ident("pub")]);
    assert_eq!(f.fields.items[0].ty.tokens, vec![ident("u8")]);
    assert_eq!(
        f.fields.items[1].attributes,
        vec![punct('#'), group(Delim::Bracket, vec![ident("x")])]
    );
    assert_eq!(f.fields.items[1].ty.tokens, vec![ident("i64")]);
}

#[test]
fn tuple_fields_lone_comma_is_fatal() {
    let g = group(Delim::Paren, vec![punct(',')]);
    let e = parse_tuple_fields(g).unwrap_err();
    assert!(matches!(e, ParseError::EmptyFieldType { found: Some(_) }));
}

#[test]
fn enum_discriminant_single_token() {
    let mut mp = multipeek(vec![punct('='), lit("1")]);
    let v = consume_enum_discriminant(&mut mp).unwrap().unwrap();
    assert_eq!(v.tk_equal, punct('='));
    assert_eq!(v.value, lit("1"));
}

#[test]
fn enum_discriminant_complex_value_is_recoverable() {
    let mut mp = multipeek(vec![punct('='), lit("1"), punct('+'), lit("2")]);
    let e = consume_enum_discriminant(&mut mp).unwrap_err();
    assert!(e.is_recoverable());
    assert!(matches!(e, ParseError::UnsupportedDiscriminant { .. }));
}

#[test]
fn enum_discriminant_parenthesized_value_is_one_token() {
    let mut mp = multipeek(vec![
        punct('='),
        group(Delim::Paren, vec![lit("1"), punct('+'), lit("2")]),
    ]);
    let v = consume_enum_discriminant(&mut mp).unwrap().unwrap();
    assert_eq!(v.value, group(Delim::Paren, vec![lit("1"), punct('+'), lit("2")]));
}

#[test]
fn enum_variants_all_shapes() {
    let vs = parse_enum_variants(vec![
        ident("A"),
        punct(','),
        ident("B"),
        group(Delim::Paren, vec![ident("i32")]),
        punct(','),
        ident("C"),
        group(
            Delim::Brace,
            vec![ident("x"), punct(':'), ident("i32")],
        ),
        punct(','),
        ident("D"),
        punct('='),
        lit("5"),
    ])
    .unwrap();
    assert_eq!(vs.items.len(), 4);
    assert_eq!(vs.items[0].name, ident("A"));
    assert!(matches!(vs.items[0].contents, StructFields::Unit));
    match &vs.items[1].contents {
        StructFields::Tuple(t) => assert_eq!(t.fields.items[0].ty.tokens, vec![ident("i32")]),
        other => panic!("expected tuple fields, got {:?}", other),
    }
    match &vs.items[2].contents {
        StructFields::Named(n) => assert_eq!(n.fields.items[0].name, ident("x")),
        other => panic!("expected named fields, got {:?}", other),
    }
    assert!(matches!(vs.items[3].contents, StructFields::Unit));
    assert_eq!(vs.items[3].value.as_ref().unwrap().value, lit("5"));
}

#[test]
fn enum_variants_recoverable_discriminant_propagates() {
    let e = parse_enum_variants(vec![ident("Red"), punct('='), lit("1"), punct('+'), lit("2")])
        .unwrap_err();
    assert!(e.is_recoverable());
}

#[test]
fn multipeek_peek_does_not_consume() {
    let mut mp: Multipeek = multipeek(vec![ident("a"), ident("b"), ident("c")]);
    assert_eq!(mp.peek_nth(1), Some(ident("b")));
    assert_eq!(mp.peek(), Some(ident("a")));
    assert_eq!(mp.next(), Some(ident("a")));
    assert_eq!(mp.next(), Some(ident("b")));
    assert_eq!(mp.peek(), Some(ident("c")));
    assert_eq!(mp.next(), Some(ident("c")));
    assert_eq!(mp.peek(), None);
    assert_eq!(mp.next(), None);
}

#[test]
fn multipeek_peek_past_end_returns_none() {
    let mut mp = multipeek(vec![ident("a")]);
    assert_eq!(mp.peek_nth(5), None);
    assert_eq!(mp.next(), Some(ident("a")));
}

#[test]
fn scan_until_copies_terminator_without_consuming() {
    let mut mp = multipeek(vec![ident("A"), punct(';'), ident("B")]);
    let r = scan_until(&mut mp, ScanStop::CommaBraceSemi, true);
    assert_eq!(r, vec![ident("A"), punct(';')]);
    assert_eq!(mp.next(), Some(punct(';')));
    assert_eq!(mp.next(), Some(ident("B")));
}

#[test]
fn scan_until_arrow_closer_is_ordinary() {
    let mut mp = multipeek(vec![
        ident("F"),
        punct('-'),
        punct('>'),
        ident("u8"),
        punct(','),
        ident("rest"),
    ]);
    let r = scan_until(&mut mp, ScanStop::Comma, false);
    assert_eq!(r, vec![ident("F"), punct('-'), punct('>'), ident("u8")]);
    assert_eq!(mp.next(), Some(punct(',')));
}
