//! The syntax-tree fragments the parsers build, and what each re-emits.
//!
//! Every consumed token is stored in some field, so the concatenation of a
//! fragment's preserved tokens — its *emission* — reproduces exactly what
//! was consumed to build it.

use crate::token::{seq_model, Delim, Token, TokenM};
use vstd::prelude::*;

verus! {

broadcast use vstd::std_specs::vec::group_vec_axioms, vstd::seq::group_seq_axioms;

/// What a tree fragment re-emits: the models of its preserved tokens, in
/// stored order.
pub trait Emit {
    spec fn emit(&self) -> Seq<TokenM>;
}

/// The emission of an optional single token.
pub open spec fn emit_opt_token(o: Option<Token>) -> Seq<TokenM> {
    match o {
        Some(t) => seq![t.deep_view()],
        None => Seq::empty(),
    }
}

/// An ordered sequence of items, each paired with an optional trailing
/// separator token. Every item but conceptually the last may carry a
/// separator; insertion order is preserved for faithful re-emission.
#[derive(Debug, PartialEq, Eq)]
pub struct Punctuated<T> {
    pub items: Vec<T>,
    pub seps: Vec<Option<Token>>,
}

impl<T> Punctuated<T> {
    /// Each item is paired with its (possibly absent) separator.
    pub open spec fn wf(&self) -> bool {
        self.items@.len() == self.seps@.len()
    }

    pub fn new() -> (r: Self)
        ensures
            r.wf(),
            r.items@ == Seq::<T>::empty(),
            r.seps@ == Seq::<Option<Token>>::empty(),
    {
        Punctuated { items: Vec::new(), seps: Vec::new() }
    }

    /// Appends an item together with its optional trailing separator.
    pub fn push(&mut self, item: T, sep: Option<Token>)
        ensures
            final(self).items@ == old(self).items@.push(item),
            final(self).seps@ == old(self).seps@.push(sep),
    {
        self.items.push(item);
        self.seps.push(sep);
    }
}

/// The emission of a punctuated list: each item followed by its separator,
/// in order.
pub open spec fn emit_list<T: Emit>(items: Seq<T>, seps: Seq<Option<Token>>) -> Seq<TokenM>
    decreases items.len(),
{
    if items.len() == 0 {
        Seq::empty()
    } else {
        items[0].emit() + emit_opt_token(seps[0]) + emit_list(items.skip(1), seps.skip(1))
    }
}

/// Appending an item appends its emission.
pub proof fn lemma_emit_list_push<T: Emit>(
    items: Seq<T>,
    seps: Seq<Option<Token>>,
    x: T,
    s: Option<Token>,
)
    requires
        items.len() == seps.len(),
    ensures
        emit_list(items.push(x), seps.push(s)) == emit_list(items, seps) + x.emit()
            + emit_opt_token(s),
    decreases items.len(),
{
    if items.len() == 0 {
        assert(items.push(x)[0] == x);
        assert(seps.push(s)[0] == s);
        assert(items.push(x).skip(1) =~= Seq::<T>::empty());
        assert(seps.push(s).skip(1) =~= Seq::<Option<Token>>::empty());
        assert(emit_list(items.push(x).skip(1), seps.push(s).skip(1)) == Seq::<TokenM>::empty());
        assert(emit_list(items.push(x), seps.push(s)) == items.push(x)[0].emit() + emit_opt_token(
            seps.push(s)[0],
        ) + emit_list(items.push(x).skip(1), seps.push(s).skip(1)));
        assert(emit_list(items.push(x), seps.push(s)) =~= emit_list(items, seps) + x.emit()
            + emit_opt_token(s));
    } else {
        assert(items.push(x)[0] == items[0]);
        assert(seps.push(s)[0] == seps[0]);
        assert(items.push(x).skip(1) =~= items.skip(1).push(x));
        assert(seps.push(s).skip(1) =~= seps.skip(1).push(s));
        lemma_emit_list_push(items.skip(1), seps.skip(1), x, s);
        assert(emit_list(items.push(x), seps.push(s)) =~= emit_list(items, seps) + x.emit()
            + emit_opt_token(s));
    }
}

/// Trailing-separator law at the emission level: two punctuated lists with
/// the same items whose separators differ only in the last entry — absent
/// in one, a separator token in the other — emit the same sequence except
/// for that one trailing token. So a list parsed with a trailing comma and
/// the same list parsed without one differ only in whether the last item's
/// separator is present.
pub proof fn lemma_emit_list_trailing_sep<T: Emit>(
    items: Seq<T>,
    seps: Seq<Option<Token>>,
    c: Token,
)
    requires
        items.len() == seps.len(),
        items.len() > 0,
        seps[seps.len() - 1] is None,
    ensures
        emit_list(items, seps.update(seps.len() - 1, Some(c))) == emit_list(items, seps) + seq![
            c.deep_view(),
        ],
    decreases items.len(),
{
    let seps2 = seps.update(seps.len() - 1, Some(c));
    if items.len() == 1 {
        assert(seps2[0] == Some(c));
        assert(items.skip(1) =~= Seq::<T>::empty());
        assert(seps.skip(1) =~= Seq::<Option<Token>>::empty());
        assert(seps2.skip(1) =~= Seq::<Option<Token>>::empty());
        assert(emit_list(items, seps2) == items[0].emit() + emit_opt_token(seps2[0]) + emit_list(
            items.skip(1),
            seps2.skip(1),
        ));
        assert(emit_list(items, seps) == items[0].emit() + emit_opt_token(seps[0]) + emit_list(
            items.skip(1),
            seps.skip(1),
        ));
        assert(emit_list(items, seps2) =~= emit_list(items, seps) + seq![c.deep_view()]);
    } else {
        assert(seps2[0] == seps[0]);
        assert(seps.skip(1).len() == items.skip(1).len());
        assert(seps.skip(1)[seps.skip(1).len() - 1] is None);
        assert(seps2.skip(1) =~= seps.skip(1).update(seps.skip(1).len() - 1, Some(c)));
        lemma_emit_list_trailing_sep(items.skip(1), seps.skip(1), c);
        assert(emit_list(items, seps2) == items[0].emit() + emit_opt_token(seps2[0]) + emit_list(
            items.skip(1),
            seps2.skip(1),
        ));
        assert(emit_list(items, seps) == items[0].emit() + emit_opt_token(seps[0]) + emit_list(
            items.skip(1),
            seps.skip(1),
        ));
        assert(emit_list(items, seps2) =~= emit_list(items, seps) + seq![c.deep_view()]);
    }
}

/// An opaque, unparsed sequence of tokens standing for a type or constant
/// expression; downstream consumers re-emit or reparse it verbatim.
#[derive(Debug, PartialEq, Eq)]
pub struct TyExpr {
    pub tokens: Vec<Token>,
}

impl Emit for TyExpr {
    open spec fn emit(&self) -> Seq<TokenM> {
        seq_model(self.tokens@)
    }
}

/// A colon token followed by the raw tokens of a bound.
#[derive(Debug, PartialEq, Eq)]
pub struct GenericBound {
    pub tk_colon: Token,
    pub tokens: Vec<Token>,
}

impl Emit for GenericBound {
    open spec fn emit(&self) -> Seq<TokenM> {
        seq![self.tk_colon.deep_view()] + seq_model(self.tokens@)
    }
}

/// One generic parameter: an optional prefix token (a lifetime-introducing
/// punctuation token or a `const` keyword token), the name, and an optional
/// bound.
#[derive(Debug, PartialEq, Eq)]
pub struct GenericParam {
    pub tk_prefix: Option<Token>,
    pub name: Token,
    pub bound: Option<GenericBound>,
}

impl Emit for GenericParam {
    open spec fn emit(&self) -> Seq<TokenM> {
        emit_opt_token(self.tk_prefix) + seq![self.name.deep_view()] + (match self.bound {
            Some(b) => b.emit(),
            None => Seq::empty(),
        })
    }
}

/// A `<...>` generic parameter list with its bracket tokens.
#[derive(Debug, PartialEq, Eq)]
pub struct GenericParamList {
    pub tk_l_bracket: Token,
    pub params: Punctuated<GenericParam>,
    pub tk_r_bracket: Token,
}

impl Emit for GenericParamList {
    open spec fn emit(&self) -> Seq<TokenM> {
        seq![self.tk_l_bracket.deep_view()] + emit_list(self.params.items@, self.params.seps@)
            + seq![self.tk_r_bracket.deep_view()]
    }
}

/// One generic argument: a lifetime, a named binding, or an opaque
/// type-or-constant expression.
#[derive(Debug, PartialEq, Eq)]
pub enum GenericArg {
    Lifetime { tk_lifetime: Token, ident: Token },
    Binding { ident: Token, tk_equals: Token, ty: TyExpr },
    TyOrConst { expr: TyExpr },
}

impl Emit for GenericArg {
    open spec fn emit(&self) -> Seq<TokenM> {
        match self {
            GenericArg::Lifetime { tk_lifetime, ident } => seq![
                tk_lifetime.deep_view(),
                ident.deep_view(),
            ],
            GenericArg::Binding { ident, tk_equals, ty } => seq![
                ident.deep_view(),
                tk_equals.deep_view(),
            ] + ty.emit(),
            GenericArg::TyOrConst { expr } => expr.emit(),
        }
    }
}

/// A `<...>` generic argument list, with its optional turbofish
/// double-colon prefix and its bracket tokens.
#[derive(Debug, PartialEq, Eq)]
pub struct GenericArgList {
    pub tk_turbofish_colons: Option<(Token, Token)>,
    pub tk_l_bracket: Token,
    pub args: Punctuated<GenericArg>,
    pub tk_r_bracket: Token,
}

impl Emit for GenericArgList {
    open spec fn emit(&self) -> Seq<TokenM> {
        (match self.tk_turbofish_colons {
            Some((a, b)) => seq![a.deep_view(), b.deep_view()],
            None => Seq::empty(),
        }) + seq![self.tk_l_bracket.deep_view()] + emit_list(self.args.items@, self.args.seps@)
            + seq![self.tk_r_bracket.deep_view()]
    }
}

/// One constraint clause: a raw left-hand token sequence and its bound.
#[derive(Debug, PartialEq, Eq)]
pub struct WhereClauseItem {
    pub left_side: Vec<Token>,
    pub bound: GenericBound,
}

impl Emit for WhereClauseItem {
    open spec fn emit(&self) -> Seq<TokenM> {
        seq_model(self.left_side@) + self.bound.emit()
    }
}

/// A `where` keyword token and its punctuated constraint clauses.
#[derive(Debug, PartialEq, Eq)]
pub struct WhereClause {
    pub tk_where: Token,
    pub items: Punctuated<WhereClauseItem>,
}

impl Emit for WhereClause {
    open spec fn emit(&self) -> Seq<TokenM> {
        seq![self.tk_where.deep_view()] + emit_list(self.items.items@, self.items.seps@)
    }
}

/// One field of a tuple-style field list: an opaque attribute prefix, an
/// opaque visibility marker, and the field's type tokens.
#[derive(Debug, PartialEq, Eq)]
pub struct TupleField {
    pub attributes: Vec<Token>,
    pub vis_marker: Vec<Token>,
    pub ty: TyExpr,
}

impl Emit for TupleField {
    open spec fn emit(&self) -> Seq<TokenM> {
        seq_model(self.attributes@) + seq_model(self.vis_marker@) + self.ty.emit()
    }
}

/// One field of a named field list: attribute prefix, visibility marker,
/// name, the mandatory colon, and the field's type tokens.
#[derive(Debug, PartialEq, Eq)]
pub struct NamedField {
    pub attributes: Vec<Token>,
    pub vis_marker: Vec<Token>,
    pub name: Token,
    pub tk_colon: Token,
    pub ty: TyExpr,
}

impl Emit for NamedField {
    open spec fn emit(&self) -> Seq<TokenM> {
        seq_model(self.attributes@) + seq_model(self.vis_marker@) + seq![
            self.name.deep_view(),
            self.tk_colon.deep_view(),
        ] + self.ty.emit()
    }
}

/// A parenthesized field list, with the delimiter kind of the group it came
/// from, so the group can be re-emitted exactly.
#[derive(Debug, PartialEq, Eq)]
pub struct TupleStructFields {
    pub fields: Punctuated<TupleField>,
    pub delim: Delim,
}

impl TupleStructFields {
    /// The group token this list re-emits as.
    pub open spec fn emit_group(&self) -> TokenM {
        TokenM::Group { delim: self.delim, inner: emit_list(self.fields.items@, self.fields.seps@) }
    }
}

/// A braced field list, with the delimiter kind of the group it came from.
#[derive(Debug, PartialEq, Eq)]
pub struct NamedStructFields {
    pub fields: Punctuated<NamedField>,
    pub delim: Delim,
}

impl NamedStructFields {
    /// The group token this list re-emits as.
    pub open spec fn emit_group(&self) -> TokenM {
        TokenM::Group { delim: self.delim, inner: emit_list(self.fields.items@, self.fields.seps@) }
    }
}

/// The contents of an enum variant: none, a tuple-style list, or a named
/// list.
#[derive(Debug, PartialEq, Eq)]
pub enum StructFields {
    Unit,
    Tuple(TupleStructFields),
    Named(NamedStructFields),
}

impl Emit for StructFields {
    open spec fn emit(&self) -> Seq<TokenM> {
        match self {
            StructFields::Unit => Seq::empty(),
            StructFields::Tuple(t) => seq![t.emit_group()],
            StructFields::Named(n) => seq![n.emit_group()],
        }
    }
}

/// An explicit enum discriminant: the equals token and the single value
/// token.
#[derive(Debug, PartialEq, Eq)]
pub struct EnumVariantValue {
    pub tk_equal: Token,
    pub value: Token,
}

impl Emit for EnumVariantValue {
    open spec fn emit(&self) -> Seq<TokenM> {
        seq![self.tk_equal.deep_view(), self.value.deep_view()]
    }
}

/// One enum variant: attribute prefix, visibility marker, name, contents,
/// and optional explicit discriminant.
#[derive(Debug, PartialEq, Eq)]
pub struct EnumVariant {
    pub attributes: Vec<Token>,
    pub vis_marker: Vec<Token>,
    pub name: Token,
    pub contents: StructFields,
    pub value: Option<EnumVariantValue>,
}

impl Emit for EnumVariant {
    open spec fn emit(&self) -> Seq<TokenM> {
        seq_model(self.attributes@) + seq_model(self.vis_marker@) + seq![self.name.deep_view()]
            + self.contents.emit() + (match self.value {
            Some(v) => v.emit(),
            None => Seq::empty(),
        })
    }
}

} // verus!
