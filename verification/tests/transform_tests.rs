//! Tests for the annotation transformation engine.

use elcc::transform::{
    transform, parse_arg, parse_args, ArgError, AuxDecl, AuxKind, ElcArg, Param, RawArg, Sig, Stmt,
};

fn chars(s: &str) -> Vec<char> {
    s.chars().collect()
}

fn param(pat: &str, ty: &str) -> Param {
    Param { pat: chars(pat), ty: chars(ty) }
}

fn labeled(label: &str, body: &str) -> Stmt {
    Stmt::Labeled { attrs: vec![], label: chars(label), body: chars(body) }
}

fn other(text: &str) -> Stmt {
    Stmt::Other { text: chars(text) }
}

#[test]
fn test_elc() {
    let sig = Sig { params: vec![param("n", "i32")], ret_ty: Some(chars("i32")) };
    let stmts = vec![
        labeled("requires", "n > 2"),
        labeled("ensures", "ret > 8"),
        other("n * n"),
    ];
    let out = transform(&vec![], &sig, stmts);
    let expected = vec![
        Stmt::Aux(AuxDecl {
            kind: AuxKind::Requires,
            attrs: vec![],
            params: vec![param("n", "i32")],
            body: chars("n > 2"),
        }),
        Stmt::Aux(AuxDecl {
            kind: AuxKind::Ensures,
            attrs: vec![],
            params: vec![param("n", "i32"), param("ret", "i32")],
            body: chars("ret > 8"),
        }),
        other("n * n"),
    ];
    assert_eq!(out, expected);
}

#[test]
fn test_elc_params() {
    let sig = Sig { params: vec![param("n", "i32")], ret_ty: Some(chars("(i32, i32)")) };
    let stmts = vec![labeled("ensures", "ret0 == ret1"), other("(n, n)")];
    let args = vec![ElcArg::Pure, ElcArg::Ret(chars("(ret0, ret1)"))];
    let out = transform(&args, &sig, stmts);
    let expected = vec![
        Stmt::Aux(AuxDecl {
            kind: AuxKind::Pure,
            attrs: vec![],
            params: vec![],
            body: vec![],
        }),
        Stmt::Aux(AuxDecl {
            kind: AuxKind::Ensures,
            attrs: vec![],
            params: vec![param("n", "i32"), param("(ret0, ret1)", "(i32, i32)")],
            body: chars("ret0 == ret1"),
        }),
        other("(n, n)"),
    ];
    assert_eq!(out, expected);
}

#[test]
fn test_elc_no_ret() {
    let sig = Sig { params: vec![param("_n", "i32")], ret_ty: None };
    let stmts = vec![labeled("requires", "_n > 0"), labeled("ensures", "_n >= 0")];
    let out = transform(&vec![], &sig, stmts);
    let expected = vec![
        Stmt::Aux(AuxDecl {
            kind: AuxKind::Requires,
            attrs: vec![],
            params: vec![param("_n", "i32")],
            body: chars("_n > 0"),
        }),
        Stmt::Aux(AuxDecl {
            kind: AuxKind::Ensures,
            attrs: vec![],
            params: vec![param("_n", "i32")],
            body: chars("_n >= 0"),
        }),
    ];
    assert_eq!(out, expected);
}

#[test]
fn unknown_argument_is_named_in_the_error() {
    let r = parse_arg(RawArg { ident: chars("impure"), pattern: None });
    assert_eq!(r, Err(ArgError::UnknownIdent { ident: chars("impure") }));
    let rs = parse_args(vec![
        RawArg { ident: chars("pure"), pattern: None },
        RawArg { ident: chars("frobnicate"), pattern: None },
    ]);
    assert_eq!(rs, Err(ArgError::UnknownIdent { ident: chars("frobnicate") }));
}

#[test]
fn argument_parsing_accepts_pure_and_ret() {
    let rs = parse_args(vec![
        RawArg { ident: chars("pure"), pattern: None },
        RawArg { ident: chars("ret"), pattern: Some(chars("(a, b)")) },
    ]);
    assert_eq!(rs, Ok(vec![ElcArg::Pure, ElcArg::Ret(chars("(a, b)"))]));
    let bad = parse_args(vec![RawArg { ident: chars("ret"), pattern: None }]);
    assert_eq!(bad, Err(ArgError::MissingPattern));
    let stray = parse_args(vec![RawArg { ident: chars("pure"), pattern: Some(chars("x")) }]);
    assert_eq!(stray, Err(ArgError::StrayPattern));
}

#[test]
fn other_labels_and_nested_text_pass_through() {
    let sig = Sig { params: vec![param("n", "i32")], ret_ty: Some(chars("i32")) };
    let stmts = vec![
        labeled("invariant", "n > 0"),
        other("if b { 'requires: { n > 2 } }"),
        labeled("requires", "n > 2"),
    ];
    let out = transform(&vec![], &sig, stmts);
    let expected = vec![
        Stmt::Aux(AuxDecl {
            kind: AuxKind::Requires,
            attrs: vec![],
            params: vec![param("n", "i32")],
            body: chars("n > 2"),
        }),
        labeled("invariant", "n > 0"),
        other("if b { 'requires: { n > 2 } }"),
    ];
    assert_eq!(out, expected);
}

#[test]
fn transform_twice_changes_nothing_more() {
    let sig = Sig { params: vec![param("n", "i32")], ret_ty: Some(chars("i32")) };
    let stmts = vec![
        labeled("requires", "n > 2"),
        labeled("ensures", "ret > 8"),
        other("n * n"),
    ];
    let once = transform(&vec![], &sig, stmts);
    let twice = transform(&vec![], &sig, once.clone());
    assert_eq!(twice, once);
}

#[test]
fn attributes_on_the_block_are_carried_over() {
    let sig = Sig { params: vec![], ret_ty: None };
    let stmts = vec![Stmt::Labeled {
        attrs: vec![chars("#[allow(dead_code)]")],
        label: chars("requires"),
        body: chars("true"),
    }];
    let out = transform(&vec![], &sig, stmts);
    let expected = vec![Stmt::Aux(AuxDecl {
        kind: AuxKind::Requires,
        attrs: vec![chars("#[allow(dead_code)]")],
        params: vec![],
        body: chars("true"),
    })];
    assert_eq!(out, expected);
}
