use lisp_front::common::{Span, Spanned};
use lisp_front::parser::ast as syntax;
use lisp_front::parser::parser::parse_source;
use lisp_front::semantic::ast::{LispModule, LispValX};
use lisp_front::semantic::diagnostic::{Category, Diagnostic, DiagnosticKind, Severity};
use lisp_front::semantic::lower::{holds_name, lower_module, lower_tree, operator_named};
use std::sync::Arc;

fn sp(start: usize, end: usize) -> Span {
    Span { start, end }
}

fn s(text: &str) -> Arc<String> {
    Arc::new(text.to_string())
}

fn lowered(text: &str) -> Result<LispModule, Vec<Diagnostic>> {
    let out = parse_source("t", text);
    assert_eq!(out.errors, vec![]);
    lower_module(&out.module)
}

fn body_of(module: &LispModule, k: usize) -> Vec<Spanned<Arc<LispValX>>> {
    match &*module.functions[k].x {
        LispValX::Function { body, .. } => (**body).clone(),
        _ => panic!("not a definition"),
    }
}

#[test]
fn an_operator_list_becomes_a_call() {
    let m = lowered("(define (f x) (+ x 1))").unwrap();
    let body = body_of(&m, 0);
    assert_eq!(body[0].span, sp(14, 21));
    match &*body[0].x {
        LispValX::FunctionCall { name, args } => {
            assert_eq!(**name, "+");
            assert_eq!(args.len(), 2);
            assert_eq!(*args[0].x, LispValX::Atom(s("x")));
            assert_eq!(args[0].span, sp(17, 18));
            assert_eq!(*args[1].x, LispValX::Int(s("1")));
        }
        other => panic!("not a call: {:?}", other),
    }
}

#[test]
fn a_list_headed_by_a_function_becomes_a_call() {
    let m = lowered("(define (f) (g 1)) (define (g x) x)").unwrap();
    match &*body_of(&m, 0)[0].x {
        LispValX::FunctionCall { name, args } => {
            assert_eq!(**name, "g");
            assert_eq!(args.len(), 1);
        }
        other => panic!("not a call: {:?}", other),
    }
    assert_eq!(*body_of(&m, 1)[0].x, LispValX::Atom(s("x")));
}

#[test]
fn a_function_can_call_itself() {
    let m = lowered("(define (f x) (f x))").unwrap();
    match &*body_of(&m, 0)[0].x {
        LispValX::FunctionCall { name, .. } => assert_eq!(**name, "f"),
        other => panic!("not a call: {:?}", other),
    }
}

#[test]
fn other_lists_stay_data() {
    let m = lowered("(define (f) () (1 2) ((f) 3) \"s\" #f)").unwrap();
    let body = body_of(&m, 0);
    match &*body[0].x {
        LispValX::List(items) => assert!(items.is_empty()),
        other => panic!("not a list: {:?}", other),
    }
    match &*body[1].x {
        LispValX::List(items) => {
            assert_eq!(*items[0].x, LispValX::Int(s("1")));
            assert_eq!(*items[1].x, LispValX::Int(s("2")));
        }
        other => panic!("not a list: {:?}", other),
    }
    match &*body[2].x {
        LispValX::List(items) => {
            assert!(matches!(&*items[0].x, LispValX::FunctionCall { .. }));
            assert_eq!(*items[1].x, LispValX::Int(s("3")));
        }
        other => panic!("not a list: {:?}", other),
    }
    assert_eq!(*body[3].x, LispValX::String(s("s")));
    assert_eq!(*body[4].x, LispValX::Bool(false));
}

#[test]
fn calls_in_contract_clauses_are_lowered() {
    let m = lowered("(define (f x) requires (> x 0) ensures (p result) x) (define (p y) #t)")
        .unwrap();
    match &*m.functions[0].x {
        LispValX::Function { name, params, preconditions, postcondition, .. } => {
            assert_eq!(**name, "f");
            assert_eq!(*params, vec![s("x")]);
            let pre = preconditions.as_ref().unwrap();
            assert!(matches!(&*pre[0].x, LispValX::FunctionCall { .. }));
            let post = postcondition.as_ref().unwrap();
            match &*post.x {
                LispValX::FunctionCall { name, .. } => assert_eq!(**name, "p"),
                other => panic!("not a call: {:?}", other),
            }
        }
        _ => panic!("not a definition"),
    }
}

#[test]
fn an_unresolved_call_points_at_the_call() {
    let errors = lowered("(define (f x) (+ (g x) 1))").unwrap_err();
    assert_eq!(
        errors,
        vec![Diagnostic {
            kind: DiagnosticKind::UnresolvedCall(s("g")),
            span: sp(17, 22),
            in_contract: false,
        }]
    );
    assert_eq!(errors[0].category(), Category::Resolution);
    assert_eq!(errors[0].severity(), Severity::Recoverable);
    assert!(!errors[0].is_fatal());
}

#[test]
fn a_parameter_is_no_function() {
    let errors = lowered("(define (f x) (x 1))").unwrap_err();
    assert_eq!(errors[0].kind, DiagnosticKind::UnresolvedCall(s("x")));
}

#[test]
fn each_definition_reports_its_first_unresolved_call() {
    let errors = lowered("(define (f) (a) (b)) (define (g) 1) (define (h) (c))").unwrap_err();
    assert_eq!(errors.len(), 2);
    assert_eq!(errors[0].kind, DiagnosticKind::UnresolvedCall(s("a")));
    assert_eq!(errors[1].kind, DiagnosticKind::UnresolvedCall(s("c")));
}

#[test]
fn a_top_level_form_that_is_no_definition_is_fatal() {
    let atom = Spanned {
        source: s("t"),
        x: Arc::new(syntax::LispValX::Atom(s("x"))),
        span: sp(3, 4),
    };
    let module = syntax::LispModuleX { functions: Arc::new(vec![atom]) };
    let errors = lower_module(&module).unwrap_err();
    assert_eq!(
        errors,
        vec![Diagnostic { kind: DiagnosticKind::NotAFunction, span: sp(3, 4), in_contract: false }]
    );
    assert_eq!(errors[0].category(), Category::Structure);
    assert_eq!(errors[0].severity(), Severity::Fatal);
    assert!(errors[0].is_fatal());
}

#[test]
fn a_tree_is_lowered_against_the_names_given() {
    let out = parse_source("t", "(define (f) (g 1))");
    let f = &out.module.functions[0];
    assert!(lower_tree(&vec![s("g")], f).is_ok());
    assert!(lower_tree(&vec![], f).is_err());
}

#[test]
fn names_and_operators() {
    for op in ["+", "-", "*", "/", "<", "<=", ">", ">=", "=="] {
        assert!(operator_named(&s(op)));
    }
    assert!(!operator_named(&s("=")));
    assert!(!operator_named(&s("plus")));
    assert!(holds_name(&vec![s("a"), s("b")], &s("b")));
    assert!(!holds_name(&vec![s("a"), s("b")], &s("c")));
}
