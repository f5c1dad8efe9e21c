//! Annotation transformation engine: rewrites the labeled contract blocks of
//! one function body into auxiliary, separately type-checked declarations.
//!
//! The engine is a pure syntax-tree-to-syntax-tree function. Source syntax is
//! modeled as plain data: parameter lists, attribute text, label text and
//! block bodies are carried verbatim as character sequences; the engine never
//! interprets them, it only moves them into the synthesized declarations.

use vstd::prelude::*;

use crate::text::copy_chars;

verus! {

broadcast use crate::text::lemma_vec_char_deep_view;

/// One function parameter: a binder pattern and its type, as source text.
#[derive(Clone, Debug, PartialEq, Eq)]
pub struct Param {
    pub pat: Vec<char>,
    pub ty: Vec<char>,
}

/// Mathematical content of a [`Param`].
#[verifier::ext_equal]
pub struct ParamView {
    pub pat: Seq<char>,
    pub ty: Seq<char>,
}

impl View for Param {
    type V = ParamView;

    open spec fn view(&self) -> ParamView {
        ParamView { pat: self.pat@, ty: self.ty@ }
    }
}

impl DeepView for Param {
    type V = ParamView;

    open spec fn deep_view(&self) -> ParamView {
        self@
    }
}

/// A function signature as the engine reads it: the parameter list and the
/// declared return type, if any.
#[derive(Clone, Debug, PartialEq, Eq)]
pub struct Sig {
    pub params: Vec<Param>,
    pub ret_ty: Option<Vec<char>>,
}

/// Mathematical content of a [`Sig`].
#[verifier::ext_equal]
pub struct SigView {
    pub params: Seq<ParamView>,
    pub ret_ty: Option<Seq<char>>,
}

impl View for Sig {
    type V = SigView;

    open spec fn view(&self) -> SigView {
        SigView { params: self.params.deep_view(), ret_ty: self.ret_ty.deep_view() }
    }
}

/// The three kinds of synthesized auxiliary declaration.
#[derive(Clone, Copy, Debug, PartialEq, Eq, Structural)]
pub enum AuxKind {
    /// Zero-parameter marker that the function was declared pure.
    Pure,
    /// Boolean predicate over the function's parameters.
    Requires,
    /// Boolean predicate over the parameters plus the bound return value.
    Ensures,
}

/// A synthesized auxiliary declaration. When rendered back to source text, a
/// `Requires` or `Ensures` declaration additionally carries an
/// unused-variable suppression attribute, since its body commonly ignores
/// some parameters.
#[derive(Clone, Debug, PartialEq, Eq)]
pub struct AuxDecl {
    /// Which declaration this is.
    pub kind: AuxKind,
    /// Attributes copied from the labeled block, as source text.
    pub attrs: Vec<Vec<char>>,
    /// Parameter list; empty for `Pure`.
    pub params: Vec<Param>,
    /// Body of the declaration, as source text; empty for `Pure`.
    pub body: Vec<char>,
}

/// Mathematical content of an [`AuxDecl`].
#[verifier::ext_equal]
pub struct AuxDeclView {
    pub kind: AuxKind,
    pub attrs: Seq<Seq<char>>,
    pub params: Seq<ParamView>,
    pub body: Seq<char>,
}

impl View for AuxDecl {
    type V = AuxDeclView;

    open spec fn view(&self) -> AuxDeclView {
        AuxDeclView {
            kind: self.kind,
            attrs: self.attrs.deep_view(),
            params: self.params.deep_view(),
            body: self.body@,
        }
    }
}

impl DeepView for AuxDecl {
    type V = AuxDeclView;

    open spec fn deep_view(&self) -> AuxDeclView {
        self@
    }
}

/// One top-level statement of a function body, as the engine sees it.
#[derive(Clone, Debug, PartialEq, Eq)]
pub enum Stmt {
    /// A block labeled `label`, carrying attributes and its body text.
    Labeled { attrs: Vec<Vec<char>>, label: Vec<char>, body: Vec<char> },
    /// A synthesized auxiliary declaration.
    Aux(AuxDecl),
    /// Any other statement, kept verbatim as source text.
    Other { text: Vec<char> },
}

/// Mathematical content of a [`Stmt`].
#[verifier::ext_equal]
pub enum StmtView {
    Labeled { attrs: Seq<Seq<char>>, label: Seq<char>, body: Seq<char> },
    Aux(AuxDeclView),
    Other { text: Seq<char> },
}

impl View for Stmt {
    type V = StmtView;

    open spec fn view(&self) -> StmtView {
        match self {
            Stmt::Labeled { attrs, label, body } => StmtView::Labeled {
                attrs: attrs.deep_view(),
                label: label@,
                body: body@,
            },
            Stmt::Aux(d) => StmtView::Aux(d@),
            Stmt::Other { text } => StmtView::Other { text: text@ },
        }
    }
}

impl DeepView for Stmt {
    type V = StmtView;

    open spec fn deep_view(&self) -> StmtView {
        self@
    }
}

/// The label that marks a precondition block.
pub open spec fn requires_label() -> Seq<char> {
    seq!['r', 'e', 'q', 'u', 'i', 'r', 'e', 's']
}

/// The label that marks a postcondition block.
pub open spec fn ensures_label() -> Seq<char> {
    seq!['e', 'n', 's', 'u', 'r', 'e', 's']
}

/// The identifier of the purity attribute argument.
pub open spec fn pure_ident() -> Seq<char> {
    seq!['p', 'u', 'r', 'e']
}

/// The identifier of the return-binder attribute argument, which is also the
/// default binder pattern for the return value.
pub open spec fn ret_ident() -> Seq<char> {
    seq!['r', 'e', 't']
}

/// One attribute argument, parsed.
#[derive(Clone, Debug, PartialEq, Eq)]
pub enum ElcArg {
    /// The `pure` modifier.
    Pure,
    /// `ret = pattern`: a custom binder pattern for the return value.
    Ret(Vec<char>),
}

/// Mathematical content of an [`ElcArg`].
#[verifier::ext_equal]
pub enum ElcArgView {
    Pure,
    Ret(Seq<char>),
}

impl View for ElcArg {
    type V = ElcArgView;

    open spec fn view(&self) -> ElcArgView {
        match self {
            ElcArg::Pure => ElcArgView::Pure,
            ElcArg::Ret(p) => ElcArgView::Ret(p@),
        }
    }
}

impl DeepView for ElcArg {
    type V = ElcArgView;

    open spec fn deep_view(&self) -> ElcArgView {
        self@
    }
}

/// One attribute argument as written: an identifier, optionally followed by
/// `= pattern`.
#[derive(Clone, Debug, PartialEq, Eq)]
pub struct RawArg {
    pub ident: Vec<char>,
    pub pattern: Option<Vec<char>>,
}

/// Mathematical content of a [`RawArg`].
#[verifier::ext_equal]
pub struct RawArgView {
    pub ident: Seq<char>,
    pub pattern: Option<Seq<char>>,
}

impl View for RawArg {
    type V = RawArgView;

    open spec fn view(&self) -> RawArgView {
        RawArgView { ident: self.ident@, pattern: self.pattern.deep_view() }
    }
}

impl DeepView for RawArg {
    type V = RawArgView;

    open spec fn deep_view(&self) -> RawArgView {
        self@
    }
}

/// Why an attribute argument was rejected.
#[derive(Clone, Debug, PartialEq, Eq)]
pub enum ArgError {
    /// The identifier is neither `pure` nor `ret`; carries the identifier so
    /// the report can name it.
    UnknownIdent { ident: Vec<char> },
    /// `ret` was not followed by `= pattern`.
    MissingPattern,
    /// `pure` was followed by a stray `= pattern`.
    StrayPattern,
}

/// Mathematical content of an [`ArgError`].
#[verifier::ext_equal]
pub enum ArgErrorView {
    UnknownIdent { ident: Seq<char> },
    MissingPattern,
    StrayPattern,
}

impl View for ArgError {
    type V = ArgErrorView;

    open spec fn view(&self) -> ArgErrorView {
        match self {
            ArgError::UnknownIdent { ident } => ArgErrorView::UnknownIdent { ident: ident@ },
            ArgError::MissingPattern => ArgErrorView::MissingPattern,
            ArgError::StrayPattern => ArgErrorView::StrayPattern,
        }
    }
}

/// What parsing one attribute argument yields: `pure` alone and
/// `ret = pattern` are accepted; an unknown identifier is reported by name,
/// never silently ignored.
pub open spec fn parse_arg_spec(a: RawArgView) -> Result<ElcArgView, ArgErrorView> {
    if a.ident == pure_ident() {
        match a.pattern {
            Option::None => Ok(ElcArgView::Pure),
            Option::Some(p) => Err(ArgErrorView::StrayPattern),
        }
    } else if a.ident == ret_ident() {
        match a.pattern {
            Option::Some(p) => Ok(ElcArgView::Ret(p)),
            Option::None => Err(ArgErrorView::MissingPattern),
        }
    } else {
        Err(ArgErrorView::UnknownIdent { ident: a.ident })
    }
}

/// What parsing a whole argument list yields: the parsed arguments in order,
/// or the first error.
pub open spec fn parse_args_spec(args: Seq<RawArgView>) -> Result<Seq<ElcArgView>, ArgErrorView>
    decreases args.len(),
{
    if args.len() == 0 {
        Ok(seq![])
    } else {
        match parse_arg_spec(args.first()) {
            Err(e) => Err(e),
            Ok(a) => match parse_args_spec(args.drop_first()) {
                Ok(t) => Ok(seq![a] + t),
                Err(e) => Err(e),
            },
        }
    }
}

/// Copy an attribute list.
fn copy_attrs(s: &Vec<Vec<char>>) -> (r: Vec<Vec<char>>)
    ensures
        r.deep_view() == s.deep_view(),
{
    let mut r: Vec<Vec<char>> = Vec::new();
    let mut i: usize = 0;
    while i < s.len()
        invariant
            i <= s@.len(),
            r.deep_view() =~~= s.deep_view().take(i as int),
        decreases s@.len() - i,
    {
        let ghost old_dv = r.deep_view();
        let x = copy_chars(&s[i]);
        r.push(x);
        proof {
            assert(r.deep_view() =~~= old_dv.push(x@));
            assert(x@ == s.deep_view()[i as int]);
            assert(s.deep_view().take(i + 1) =~~= s.deep_view().take(i as int).push(
                s.deep_view()[i as int],
            ));
            assert(r.deep_view() =~~= s.deep_view().take(i + 1));
        }
        i = i + 1;
    }
    proof {
        assert(s.deep_view().take(s@.len() as int) =~~= s.deep_view());
    }
    r
}

/// Copy a parameter list.
fn copy_params(s: &Vec<Param>) -> (r: Vec<Param>)
    ensures
        r.deep_view() == s.deep_view(),
{
    let mut r: Vec<Param> = Vec::new();
    let mut i: usize = 0;
    while i < s.len()
        invariant
            i <= s@.len(),
            r.deep_view() =~~= s.deep_view().take(i as int),
        decreases s@.len() - i,
    {
        let ghost old_dv = r.deep_view();
        let p = Param { pat: copy_chars(&s[i].pat), ty: copy_chars(&s[i].ty) };
        proof {
            assert(p.deep_view() =~~= s.deep_view()[i as int]);
        }
        r.push(p);
        proof {
            assert(r.deep_view() =~~= old_dv.push(s.deep_view()[i as int]));
            assert(s.deep_view().take(i + 1) =~~= s.deep_view().take(i as int).push(
                s.deep_view()[i as int],
            ));
            assert(r.deep_view() =~~= s.deep_view().take(i + 1));
        }
        i = i + 1;
    }
    proof {
        assert(s.deep_view().take(s@.len() as int) =~~= s.deep_view());
    }
    r
}

/// Is `s` exactly the identifier `pure`.
fn is_pure_ident(s: &Vec<char>) -> (r: bool)
    ensures
        r == (s@ == pure_ident()),
{
    let r = s.len() == 4 && s[0] == 'p' && s[1] == 'u' && s[2] == 'r' && s[3] == 'e';
    proof {
        if r {
            assert(s@ =~= pure_ident());
        }
    }
    r
}

/// Is `s` exactly the identifier `ret`.
fn is_ret_ident(s: &Vec<char>) -> (r: bool)
    ensures
        r == (s@ == ret_ident()),
{
    let r = s.len() == 3 && s[0] == 'r' && s[1] == 'e' && s[2] == 't';
    proof {
        if r {
            assert(s@ =~= ret_ident());
        }
    }
    r
}

/// Is `s` exactly the label `requires`.
fn is_requires_label(s: &Vec<char>) -> (r: bool)
    ensures
        r == (s@ == requires_label()),
{
    let r = s.len() == 8 && s[0] == 'r' && s[1] == 'e' && s[2] == 'q' && s[3] == 'u' && s[4] == 'i'
        && s[5] == 'r' && s[6] == 'e' && s[7] == 's';
    proof {
        if r {
            assert(s@ =~= requires_label());
        }
    }
    r
}

/// Is `s` exactly the label `ensures`.
fn is_ensures_label(s: &Vec<char>) -> (r: bool)
    ensures
        r == (s@ == ensures_label()),
{
    let r = s.len() == 7 && s[0] == 'e' && s[1] == 'n' && s[2] == 's' && s[3] == 'u' && s[4] == 'r'
        && s[5] == 'e' && s[6] == 's';
    proof {
        if r {
            assert(s@ =~= ensures_label());
        }
    }
    r
}

/// Parse one attribute argument, per [`parse_arg_spec`].
pub fn parse_arg(a: RawArg) -> (r: Result<ElcArg, ArgError>)
    ensures
        match r {
            Ok(e) => parse_arg_spec(a@) == Ok::<ElcArgView, ArgErrorView>(e@),
            Err(e) => parse_arg_spec(a@) == Err::<ElcArgView, ArgErrorView>(e@),
        },
{
    let RawArg { ident, pattern } = a;
    if is_pure_ident(&ident) {
        match pattern {
            Option::None => Ok(ElcArg::Pure),
            Option::Some(_) => Err(ArgError::StrayPattern),
        }
    } else if is_ret_ident(&ident) {
        match pattern {
            Option::Some(p) => Ok(ElcArg::Ret(p)),
            Option::None => Err(ArgError::MissingPattern),
        }
    } else {
        Err(ArgError::UnknownIdent { ident })
    }
}

/// Loop relation for [`parse_args`]: parsing the whole list is parsing the
/// remaining suffix after the arguments already parsed into `acc`.
spec fn parse_args_loop_inv(dv: Seq<RawArgView>, i: int, acc: Seq<ElcArgView>) -> bool {
    parse_args_spec(dv) == (match parse_args_spec(dv.skip(i)) {
        Ok(t) => Ok::<Seq<ElcArgView>, ArgErrorView>(acc + t),
        Err(e) => Err::<Seq<ElcArgView>, ArgErrorView>(e),
    })
}

/// Parse a whole attribute-argument list, per [`parse_args_spec`]: all
/// arguments in order, or the first error. An unknown identifier is a
/// reported error carrying that identifier, not a silent no-op.
pub fn parse_args(args: Vec<RawArg>) -> (r: Result<Vec<ElcArg>, ArgError>)
    ensures
        match r {
            Ok(es) => parse_args_spec(args.deep_view()) == Ok::<Seq<ElcArgView>, ArgErrorView>(
                es.deep_view(),
            ),
            Err(e) => parse_args_spec(args.deep_view()) == Err::<Seq<ElcArgView>, ArgErrorView>(
                e@,
            ),
        },
{
    let ghost dv = args.deep_view();
    let mut rem = args;
    let mut out: Vec<ElcArg> = Vec::new();
    let ghost i: int = 0;
    proof {
        assert(dv.skip(0) =~= dv);
        match parse_args_spec(dv) {
            Ok(t) => {
                assert(out.deep_view() + t =~= t);
            },
            Err(e) => {},
        }
        assert(parse_args_loop_inv(dv, 0, out.deep_view()));
    }
    while rem.len() > 0
        invariant
            dv == args.deep_view(),
            0 <= i <= dv.len(),
            rem.deep_view() =~= dv.skip(i),
            parse_args_loop_inv(dv, i, out.deep_view()),
        decreases rem@.len(),
    {
        let ghost rest = dv.skip(i);
        let a = rem.remove(0);
        proof {
            assert(rest.len() > 0);
            assert(a.deep_view() == rest.first());
            assert(rem.deep_view() =~~= rest.drop_first());
            assert(rest.drop_first() =~= dv.skip(i + 1));
        }
        let ghost old_acc = out.deep_view();
        match parse_arg(a) {
            Ok(e) => {
                out.push(e);
                proof {
                    assert(out.deep_view() =~~= old_acc.push(e@));
                    match parse_args_spec(dv.skip(i + 1)) {
                        Ok(t) => {
                            assert(old_acc + (seq![e@] + t) =~= out.deep_view() + t);
                        },
                        Err(e2) => {},
                    }
                }
            },
            Err(e) => {
                proof {
                    assert(parse_args_spec(rest) == Err::<Seq<ElcArgView>, ArgErrorView>(e@));
                    assert(parse_args_spec(dv) == Err::<Seq<ElcArgView>, ArgErrorView>(e@));
                }
                return Err(e);
            },
        }
        proof {
            i = i + 1;
        }
    }
    proof {
        assert(dv.skip(i) =~= Seq::<RawArgView>::empty());
        assert(out.deep_view() + Seq::<ElcArgView>::empty() =~= out.deep_view());
    }
    Ok(out)
}

/// The binder pattern for the return value: the pattern of the last
/// `ret = ...` argument, or the default binder `ret`.
pub open spec fn ret_pat_spec(args: Seq<ElcArgView>) -> Seq<char>
    decreases args.len(),
{
    if args.len() == 0 {
        ret_ident()
    } else {
        match args.last() {
            ElcArgView::Ret(p) => p,
            ElcArgView::Pure => ret_pat_spec(args.drop_last()),
        }
    }
}

/// The purity markers: one zero-parameter declaration per `pure` argument,
/// in argument order.
pub open spec fn markers_spec(args: Seq<ElcArgView>) -> Seq<StmtView>
    decreases args.len(),
{
    if args.len() == 0 {
        seq![]
    } else {
        markers_spec(args.drop_last()) + (match args.last() {
            ElcArgView::Pure => seq![pure_marker()],
            ElcArgView::Ret(p) => seq![],
        })
    }
}

/// The declaration that marks a function pure.
pub open spec fn pure_marker() -> StmtView {
    StmtView::Aux(
        AuxDeclView { kind: AuxKind::Pure, attrs: seq![], params: seq![], body: seq![] },
    )
}

/// Is this statement a contract block: a top-level block labeled `requires`
/// or `ensures`. Blocks with any other label, and all other statements, are
/// passed through untouched.
pub open spec fn is_contract_stmt(s: StmtView) -> bool {
    match s {
        StmtView::Labeled { attrs, label, body } => label == requires_label() || label
            == ensures_label(),
        _ => false,
    }
}

/// The parameter list of a synthesized postcondition predicate: the
/// function's parameters, plus one parameter binding the return value when
/// the function declares a return type; unchanged when it does not.
pub open spec fn ensures_params(sig: SigView, ret: Seq<char>) -> Seq<ParamView> {
    match sig.ret_ty {
        Option::Some(t) => sig.params.push(ParamView { pat: ret, ty: t }),
        Option::None => sig.params,
    }
}

/// The auxiliary predicate a contract block becomes: a boolean declaration
/// with the block's attributes and body, over the function's parameters (a
/// precondition) or the parameters plus the return binder (a postcondition).
pub open spec fn rewrite_stmt_spec(sig: SigView, ret: Seq<char>, s: StmtView) -> StmtView {
    match s {
        StmtView::Labeled { attrs, label, body } => {
            if label == requires_label() {
                StmtView::Aux(
                    AuxDeclView { kind: AuxKind::Requires, attrs, params: sig.params, body },
                )
            } else if label == ensures_label() {
                StmtView::Aux(
                    AuxDeclView {
                        kind: AuxKind::Ensures,
                        attrs,
                        params: ensures_params(sig, ret),
                        body,
                    },
                )
            } else {
                s
            }
        },
        _ => s,
    }
}

/// The synthesized predicates: every contract block, rewritten, in the order
/// the labels occur.
pub open spec fn preds_spec(sig: SigView, ret: Seq<char>, stmts: Seq<StmtView>) -> Seq<StmtView>
    decreases stmts.len(),
{
    if stmts.len() == 0 {
        seq![]
    } else {
        preds_spec(sig, ret, stmts.drop_last()) + (if is_contract_stmt(stmts.last()) {
            seq![rewrite_stmt_spec(sig, ret, stmts.last())]
        } else {
            seq![]
        })
    }
}

/// The statements that are not contract blocks, in original order.
pub open spec fn rest_spec(stmts: Seq<StmtView>) -> Seq<StmtView>
    decreases stmts.len(),
{
    if stmts.len() == 0 {
        seq![]
    } else {
        rest_spec(stmts.drop_last()) + (if is_contract_stmt(stmts.last()) {
            seq![]
        } else {
            seq![stmts.last()]
        })
    }
}

/// The whole rewritten body: the purity markers, then the synthesized
/// predicates in label order, then the remaining original statements in
/// original order.
pub open spec fn transform_spec(args: Seq<ElcArgView>, sig: SigView, stmts: Seq<StmtView>) -> Seq<
    StmtView,
> {
    markers_spec(args) + preds_spec(sig, ret_pat_spec(args), stmts) + rest_spec(stmts)
}

/// Rewrite one function body: replace every top-level `requires` block by a
/// precondition predicate over exactly the function's parameters, every
/// top-level `ensures` block by a postcondition predicate over the
/// parameters plus the return binder, prepend one purity marker per `pure`
/// argument, and keep every other statement, in the order given by
/// [`transform_spec`].
pub fn transform(args: &Vec<ElcArg>, sig: &Sig, stmts: Vec<Stmt>) -> (r: Vec<Stmt>)
    ensures
        r.deep_view() == transform_spec(args.deep_view(), sig@, stmts.deep_view()),
{
    let ghost adv = args.deep_view();
    let ghost sdv = stmts.deep_view();

    // One pass over the arguments: collect purity markers and the last
    // custom return binder.
    let mut out: Vec<Stmt> = Vec::new();
    let mut ret: Vec<char> = Vec::new();
    ret.push('r');
    ret.push('e');
    ret.push('t');
    proof {
        assert(ret@ =~= ret_ident());
        assert(adv.take(0) =~= Seq::<ElcArgView>::empty());
        assert(out.deep_view() =~~= markers_spec(adv.take(0)));
    }
    let mut i: usize = 0;
    while i < args.len()
        invariant
            i <= adv.len(),
            adv == args.deep_view(),
            adv.len() == args@.len(),
            ret@ == ret_pat_spec(adv.take(i as int)),
            out.deep_view() == markers_spec(adv.take(i as int)),
        decreases adv.len() - i,
    {
        let ghost old_out = out.deep_view();
        proof {
            assert(adv.take(i + 1).drop_last() =~= adv.take(i as int));
            assert(adv.take(i + 1).last() == adv[i as int]);
            assert(args[i as int].deep_view() == adv[i as int]);
        }
        match &args[i] {
            ElcArg::Pure => {
                out.push(
                    Stmt::Aux(
                        AuxDecl {
                            kind: AuxKind::Pure,
                            attrs: Vec::new(),
                            params: Vec::new(),
                            body: Vec::new(),
                        },
                    ),
                );
                proof {
                    assert(out.deep_view() =~~= old_out.push(pure_marker()));
                    assert(out.deep_view() =~~= markers_spec(adv.take(i + 1)));
                }
            },
            ElcArg::Ret(p) => {
                ret = copy_chars(p);
                proof {
                    assert(out.deep_view() =~~= markers_spec(adv.take(i + 1)));
                }
            },
        }
        i = i + 1;
    }
    proof {
        assert(adv.take(adv.len() as int) =~= adv);
    }
    let ghost rpat = ret_pat_spec(adv);

    // One pass over the statements: rewrite the contract blocks, in order,
    // into `preds`, and keep everything else, in order, in `rest`.
    let mut preds: Vec<Stmt> = Vec::new();
    let mut rest: Vec<Stmt> = Vec::new();
    let mut stmts = stmts;
    let ghost k: int = 0;
    proof {
        assert(sdv.skip(0) =~= sdv);
        assert(sdv.take(0) =~= Seq::<StmtView>::empty());
        assert(preds.deep_view() =~~= preds_spec(sig@, rpat, sdv.take(0)));
        assert(rest.deep_view() =~~= rest_spec(sdv.take(0)));
    }
    while stmts.len() > 0
        invariant
            0 <= k <= sdv.len(),
            stmts.deep_view() =~= sdv.skip(k),
            ret@ == rpat,
            preds.deep_view() == preds_spec(sig@, rpat, sdv.take(k)),
            rest.deep_view() == rest_spec(sdv.take(k)),
        decreases stmts@.len(),
    {
        let ghost old_preds = preds.deep_view();
        let ghost old_rest = rest.deep_view();
        let ghost suffix = sdv.skip(k);
        let s = stmts.remove(0);
        proof {
            assert(suffix.len() > 0);
            assert(s.deep_view() == suffix.first());
            assert(suffix.first() == sdv[k]);
            assert(stmts.deep_view() =~~= suffix.drop_first());
            assert(suffix.drop_first() =~= sdv.skip(k + 1));
            assert(sdv.take(k + 1).drop_last() =~= sdv.take(k));
            assert(sdv.take(k + 1).last() == sdv[k]);
        }
        match s {
            Stmt::Labeled { attrs, label, body } => {
                if is_requires_label(&label) {
                    let d = AuxDecl {
                        kind: AuxKind::Requires,
                        attrs,
                        params: copy_params(&sig.params),
                        body,
                    };
                    preds.push(Stmt::Aux(d));
                    proof {
                        assert(preds.deep_view() =~~= old_preds.push(
                            rewrite_stmt_spec(sig@, rpat, sdv[k]),
                        ));
                        assert(preds.deep_view() =~~= preds_spec(sig@, rpat, sdv.take(k + 1)));
                        assert(rest.deep_view() =~~= rest_spec(sdv.take(k + 1)));
                    }
                } else if is_ensures_label(&label) {
                    let mut params = copy_params(&sig.params);
                    proof {
                        assert(ret@ == rpat);
                    }
                    match &sig.ret_ty {
                        Option::Some(t) => {
                            let ghost base = params.deep_view();
                            let pnew = Param { pat: copy_chars(&ret), ty: copy_chars(t) };
                            proof {
                                assert(pnew@ =~~= (ParamView { pat: rpat, ty: t@ }));
                            }
                            params.push(pnew);
                            proof {
                                assert(params.deep_view() =~~= base.push(pnew@));
                                assert(sig@.ret_ty == Some::<Seq<char>>(t@));
                                assert(params.deep_view() =~~= ensures_params(sig@, rpat));
                            }
                        },
                        Option::None => {
                            proof {
                                assert(sig@.ret_ty is None);
                                assert(params.deep_view() =~~= ensures_params(sig@, rpat));
                            }
                        },
                    }
                    let d = AuxDecl { kind: AuxKind::Ensures, attrs, params, body };
                    preds.push(Stmt::Aux(d));
                    proof {
                        assert(preds.deep_view() =~~= old_preds.push(
                            rewrite_stmt_spec(sig@, rpat, sdv[k]),
                        ));
                        assert(preds.deep_view() =~~= preds_spec(sig@, rpat, sdv.take(k + 1)));
                        assert(rest.deep_view() =~~= rest_spec(sdv.take(k + 1)));
                    }
                } else {
                    rest.push(Stmt::Labeled { attrs, label, body });
                    proof {
                        assert(rest.deep_view() =~~= old_rest.push(sdv[k]));
                        assert(rest.deep_view() =~~= rest_spec(sdv.take(k + 1)));
                        assert(preds.deep_view() =~~= preds_spec(sig@, rpat, sdv.take(k + 1)));
                    }
                }
            },
            other => {
                rest.push(other);
                proof {
                    assert(!is_contract_stmt(sdv[k]));
                    assert(rest.deep_view() =~~= old_rest.push(sdv[k]));
                    assert(rest.deep_view() =~~= rest_spec(sdv.take(k + 1)));
                    assert(preds.deep_view() =~~= preds_spec(sig@, rpat, sdv.take(k + 1)));
                }
            },
        }
        proof {
            k = k + 1;
        }
    }
    proof {
        assert(sdv.take(k) =~= sdv);
    }
    let ghost out_markers = out.deep_view();
    out.append(&mut preds);
    out.append(&mut rest);
    proof {
        assert(out.deep_view() =~~= out_markers + preds_spec(sig@, rpat, sdv) + rest_spec(sdv));
    }
    out
}


/// Every contract block of the input yields its rewritten declaration among
/// the synthesized predicates.
proof fn lemma_preds_has_rewrite(sig: SigView, ret: Seq<char>, stmts: Seq<StmtView>, i: int)
    requires
        0 <= i < stmts.len(),
        is_contract_stmt(stmts[i]),
    ensures
        exists|j: int|
            0 <= j < preds_spec(sig, ret, stmts).len() && preds_spec(sig, ret, stmts)[j]
                == rewrite_stmt_spec(sig, ret, stmts[i]),
    decreases stmts.len(),
{
    let p = preds_spec(sig, ret, stmts);
    if i == stmts.len() - 1 {
        assert(stmts.last() == stmts[i]);
        assert(p[p.len() - 1] == rewrite_stmt_spec(sig, ret, stmts[i]));
    } else {
        assert(stmts.drop_last()[i] == stmts[i]);
        lemma_preds_has_rewrite(sig, ret, stmts.drop_last(), i);
        let p0 = preds_spec(sig, ret, stmts.drop_last());
        let j = choose|j: int|
            0 <= j < p0.len() && p0[j] == rewrite_stmt_spec(sig, ret, stmts.drop_last()[i]);
        assert(p[j] == p0[j]);
    }
}

/// Law: every top-level `requires` block, with the enclosing function's
/// parameter list and the block's attributes and body, becomes a boolean
/// precondition declaration with exactly that parameter list and body, and
/// it stands before all remaining original statements of the output.
pub proof fn lemma_requires_block_rewritten(
    args: Seq<ElcArgView>,
    sig: SigView,
    stmts: Seq<StmtView>,
    i: int,
    attrs: Seq<Seq<char>>,
    body: Seq<char>,
)
    requires
        0 <= i < stmts.len(),
        stmts[i] == (StmtView::Labeled { attrs, label: requires_label(), body }),
    ensures
        exists|j: int|
            0 <= j < transform_spec(args, sig, stmts).len() - rest_spec(stmts).len()
                && transform_spec(args, sig, stmts)[j] == StmtView::Aux(
                AuxDeclView { kind: AuxKind::Requires, attrs, params: sig.params, body },
            ),
{
    let ret = ret_pat_spec(args);
    assert(is_contract_stmt(stmts[i]));
    lemma_preds_has_rewrite(sig, ret, stmts, i);
    let p = preds_spec(sig, ret, stmts);
    let j = choose|j: int| 0 <= j < p.len() && p[j] == rewrite_stmt_spec(sig, ret, stmts[i]);
    let m = markers_spec(args);
    let t = transform_spec(args, sig, stmts);
    assert(t[m.len() + j] == p[j]);
    assert(rewrite_stmt_spec(sig, ret, stmts[i]) == StmtView::Aux(
        AuxDeclView { kind: AuxKind::Requires, attrs, params: sig.params, body },
    ));
    assert(t.len() == m.len() + p.len() + rest_spec(stmts).len());
}

/// Law: every top-level `ensures` block becomes a boolean postcondition
/// declaration whose parameter list is the function's parameters plus one
/// binder of the declared return type bound to the chosen return pattern —
/// and exactly the parameters when no return type is declared — with the
/// block's body, standing before all remaining original statements.
pub proof fn lemma_ensures_block_rewritten(
    args: Seq<ElcArgView>,
    sig: SigView,
    stmts: Seq<StmtView>,
    i: int,
    attrs: Seq<Seq<char>>,
    body: Seq<char>,
)
    requires
        0 <= i < stmts.len(),
        stmts[i] == (StmtView::Labeled { attrs, label: ensures_label(), body }),
    ensures
        exists|j: int|
            0 <= j < transform_spec(args, sig, stmts).len() - rest_spec(stmts).len()
                && transform_spec(args, sig, stmts)[j] == StmtView::Aux(
                AuxDeclView {
                    kind: AuxKind::Ensures,
                    attrs,
                    params: ensures_params(sig, ret_pat_spec(args)),
                    body,
                },
            ),
{
    let ret = ret_pat_spec(args);
    assert(requires_label().len() == 8);
    assert(ensures_label().len() == 7);
    assert(is_contract_stmt(stmts[i]));
    lemma_preds_has_rewrite(sig, ret, stmts, i);
    let p = preds_spec(sig, ret, stmts);
    let j = choose|j: int| 0 <= j < p.len() && p[j] == rewrite_stmt_spec(sig, ret, stmts[i]);
    let m = markers_spec(args);
    let t = transform_spec(args, sig, stmts);
    assert(t[m.len() + j] == p[j]);
    assert(rewrite_stmt_spec(sig, ret, stmts[i]) == StmtView::Aux(
        AuxDeclView { kind: AuxKind::Ensures, attrs, params: ensures_params(sig, ret), body },
    ));
    assert(t.len() == m.len() + p.len() + rest_spec(stmts).len());
}

/// No purity marker is a contract block.
proof fn lemma_markers_not_contract(args: Seq<ElcArgView>, j: int)
    requires
        0 <= j < markers_spec(args).len(),
    ensures
        !is_contract_stmt(markers_spec(args)[j]),
    decreases args.len(),
{
    let m = markers_spec(args);
    let m0 = markers_spec(args.drop_last());
    if j < m0.len() {
        lemma_markers_not_contract(args.drop_last(), j);
        assert(m[j] == m0[j]);
    }
}

/// No synthesized predicate is a contract block.
proof fn lemma_preds_not_contract(sig: SigView, ret: Seq<char>, stmts: Seq<StmtView>, j: int)
    requires
        0 <= j < preds_spec(sig, ret, stmts).len(),
    ensures
        !is_contract_stmt(preds_spec(sig, ret, stmts)[j]),
    decreases stmts.len(),
{
    let p = preds_spec(sig, ret, stmts);
    let p0 = preds_spec(sig, ret, stmts.drop_last());
    if j < p0.len() {
        lemma_preds_not_contract(sig, ret, stmts.drop_last(), j);
        assert(p[j] == p0[j]);
    }
}

/// No passed-through statement is a contract block.
proof fn lemma_rest_not_contract(stmts: Seq<StmtView>, j: int)
    requires
        0 <= j < rest_spec(stmts).len(),
    ensures
        !is_contract_stmt(rest_spec(stmts)[j]),
    decreases stmts.len(),
{
    let r = rest_spec(stmts);
    let r0 = rest_spec(stmts.drop_last());
    if j < r0.len() {
        lemma_rest_not_contract(stmts.drop_last(), j);
        assert(r[j] == r0[j]);
    }
}

/// On a body without contract blocks the rewrite synthesizes nothing and
/// passes every statement through.
proof fn lemma_no_contract_identity(sig: SigView, ret: Seq<char>, stmts: Seq<StmtView>)
    requires
        forall|j: int| 0 <= j < stmts.len() ==> !is_contract_stmt(#[trigger] stmts[j]),
    ensures
        preds_spec(sig, ret, stmts) == Seq::<StmtView>::empty(),
        rest_spec(stmts) == stmts,
    decreases stmts.len(),
{
    if stmts.len() == 0 {
        assert(rest_spec(stmts) =~= stmts);
    } else {
        assert(forall|j: int|
            0 <= j < stmts.drop_last().len() ==> stmts.drop_last()[j] == stmts[j]
                && !is_contract_stmt(#[trigger] stmts.drop_last()[j]));
        lemma_no_contract_identity(sig, ret, stmts.drop_last());
        assert(!is_contract_stmt(stmts.last()));
        assert(preds_spec(sig, ret, stmts) =~= Seq::<StmtView>::empty());
        assert(rest_spec(stmts) =~= stmts.drop_last().push(stmts.last()));
        assert(stmts.drop_last().push(stmts.last()) =~= stmts);
    }
}

/// Law: the transformation is idempotent on structure. Its output holds no
/// further `requires`/`ensures` blocks, so re-parsing the printed output and
/// expanding it again — the attribute arguments are consumed by the first
/// expansion — leaves it unchanged.
pub proof fn lemma_transform_idempotent(args: Seq<ElcArgView>, sig: SigView, stmts: Seq<StmtView>)
    ensures
        transform_spec(seq![], sig, transform_spec(args, sig, stmts)) == transform_spec(
            args,
            sig,
            stmts,
        ),
{
    let out = transform_spec(args, sig, stmts);
    let ret = ret_pat_spec(args);
    let m = markers_spec(args);
    let p = preds_spec(sig, ret, stmts);
    let r = rest_spec(stmts);
    assert forall|j: int| 0 <= j < out.len() implies !is_contract_stmt(#[trigger] out[j]) by {
        if j < m.len() {
            lemma_markers_not_contract(args, j);
            assert(out[j] == m[j]);
        } else if j < m.len() + p.len() {
            lemma_preds_not_contract(sig, ret, stmts, j - m.len());
            assert(out[j] == p[j - m.len()]);
        } else {
            lemma_rest_not_contract(stmts, j - m.len() - p.len());
            assert(out[j] == r[j - m.len() - p.len()]);
        }
    }
    lemma_no_contract_identity(sig, ret_pat_spec(seq![]), out);
    assert(markers_spec(seq![]) == Seq::<StmtView>::empty());
    assert(transform_spec(seq![], sig, out) =~= out);
}

} // verus!
