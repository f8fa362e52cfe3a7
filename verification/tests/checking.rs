use lisp_front::common::{Span, Spanned};
use lisp_front::parser::ast as syntax;
use lisp_front::parser::parser::parse_source;
use lisp_front::semantic::ast::{LispModuleX, LispValX};
use lisp_front::semantic::context::{Context, ContextElement};
use lisp_front::semantic::diagnostic::{Category, Diagnostic, DiagnosticKind, Severity};
use lisp_front::semantic::rules::Status;
use lisp_front::semantic::typeck::{
    check_against, check_function, check_module, synt_to, synth, CheckedModule, Entry, LiteralType,
    Signature, State, Type,
};
use std::sync::Arc;

const INT: Type = Type::Literal(LiteralType::Int);
const BOOL: Type = Type::Literal(LiteralType::Bool);
const STRING: Type = Type::Literal(LiteralType::String);
const UNIT: Type = Type::Literal(LiteralType::Unit);

fn sp(start: usize, end: usize) -> Span {
    Span { start, end }
}

fn s(text: &str) -> Arc<String> {
    Arc::new(text.to_string())
}

fn run(text: &str) -> Result<CheckedModule, Vec<Diagnostic>> {
    let out = parse_source("t", text);
    assert_eq!(out.errors, vec![]);
    synth(out.module)
}

fn signatures(text: &str) -> Vec<Signature> {
    run(text).unwrap().signatures
}

fn sig(params: Vec<Type>, ret: Type) -> Signature {
    Signature { params, ret }
}

#[test]
fn addition_makes_parameter_and_result_int() {
    assert_eq!(signatures("(define (f x) (+ x 1))"), vec![sig(vec![INT], INT)]);
}

#[test]
fn a_precondition_over_the_parameters_is_accepted() {
    assert_eq!(
        signatures("(define (g x) requires (> x 0) (+ x 1))"),
        vec![sig(vec![INT], INT)]
    );
}

#[test]
fn a_precondition_over_another_name_is_rejected() {
    let errors = run("(define (h x) requires (> y 0) (+ x 1))").unwrap_err();
    assert_eq!(
        errors,
        vec![Diagnostic {
            kind: DiagnosticKind::UnboundVariable(s("y")),
            span: sp(26, 27),
            in_contract: true,
        }]
    );
    assert_eq!(errors[0].category(), Category::ContractScope);
    assert_eq!(errors[0].severity(), Severity::Recoverable);
}

#[test]
fn mutual_recursion_gives_both_functions_types() {
    let sigs = signatures(
        "(define (even n) (== (odd (- n 1)) 0)) (define (odd n) (pick (even (- n 1)))) (define (pick b) requires b 1)",
    );
    assert_eq!(sigs, vec![sig(vec![INT], BOOL), sig(vec![INT], INT), sig(vec![BOOL], INT)]);
}

#[test]
fn mutual_recursion_with_open_result() {
    let sigs = signatures("(define (even n) (odd (- n 1))) (define (odd n) (even (- n 1)))");
    assert_eq!(sigs.len(), 2);
    assert_eq!(sigs[0].params, vec![INT]);
    assert_eq!(sigs[1].params, vec![INT]);
    assert!(matches!(sigs[0].ret, Type::Existential(_)));
    assert_eq!(sigs[0].ret, sigs[1].ret);
}

#[test]
fn inconsistent_mutual_recursion_is_one_mismatch() {
    let errors = run("(define (f x) (g (+ x 1))) (define (g y) (f (== y 1)))").unwrap_err();
    assert_eq!(
        errors,
        vec![Diagnostic {
            kind: DiagnosticKind::TypeMismatch { expected: INT, actual: BOOL },
            span: sp(44, 52),
            in_contract: false,
        }]
    );
    assert_eq!(errors[0].category(), Category::Type);
}

#[test]
fn literal_types() {
    assert_eq!(
        signatures("(define (a) 1) (define (b) \"s\") (define (c) #t) (define (d) ()) (define (e) 2.5)"),
        vec![
            sig(vec![], INT),
            sig(vec![], STRING),
            sig(vec![], BOOL),
            sig(vec![], UNIT),
            sig(vec![], INT),
        ]
    );
}

#[test]
fn the_last_body_expression_gives_the_result() {
    assert_eq!(signatures("(define (f x) (+ x 1) \"s\" (< x 2))"), vec![sig(vec![INT], BOOL)]);
}

#[test]
fn a_mismatch_names_both_types_and_the_place() {
    let errors = run("(define (f x) (+ x #t))").unwrap_err();
    assert_eq!(
        errors,
        vec![Diagnostic {
            kind: DiagnosticKind::TypeMismatch { expected: INT, actual: BOOL },
            span: sp(19, 21),
            in_contract: false,
        }]
    );
}

#[test]
fn a_parameter_has_one_type() {
    let errors = run("(define (f x) (+ x 1) (p x)) (define (p b) requires b 1)").unwrap_err();
    assert_eq!(errors.len(), 1);
    assert_eq!(errors[0].kind, DiagnosticKind::TypeMismatch { expected: BOOL, actual: INT });
    assert_eq!(errors[0].span, sp(25, 26));
}

#[test]
fn an_unbound_variable_in_a_body() {
    let errors = run("(define (f) y)").unwrap_err();
    assert_eq!(
        errors,
        vec![Diagnostic {
            kind: DiagnosticKind::UnboundVariable(s("y")),
            span: sp(12, 13),
            in_contract: false,
        }]
    );
    assert_eq!(errors[0].category(), Category::Resolution);
}

#[test]
fn a_contract_clause_must_be_bool() {
    let errors = run("(define (f x) requires (+ x 1) x)").unwrap_err();
    assert_eq!(
        errors,
        vec![Diagnostic {
            kind: DiagnosticKind::ContractNotBool { actual: INT },
            span: sp(23, 30),
            in_contract: true,
        }]
    );
    assert_eq!(errors[0].category(), Category::Type);
}

#[test]
fn a_postcondition_can_name_the_result() {
    assert_eq!(
        signatures("(define (f x) ensures (> result 0) (+ x 1))"),
        vec![sig(vec![INT], INT)]
    );
    let errors = run("(define (f x) ensures (> result 0) (< x 1))").unwrap_err();
    assert_eq!(errors[0].kind, DiagnosticKind::TypeMismatch { expected: INT, actual: BOOL });
    assert!(errors[0].in_contract);
}

#[test]
fn a_precondition_cannot_name_the_result() {
    let errors = run("(define (f x) requires (> result 0) (+ x 1))").unwrap_err();
    assert_eq!(errors[0].kind, DiagnosticKind::UnboundVariable(s("result")));
    assert_eq!(errors[0].category(), Category::ContractScope);
}

#[test]
fn a_postcondition_solves_the_result() {
    assert_eq!(signatures("(define (f x) ensures result x)"), vec![sig(vec![BOOL], BOOL)]);
}

#[test]
fn an_empty_body_is_ill_formed() {
    let errors = run("(define (f x))").unwrap_err();
    assert_eq!(
        errors,
        vec![Diagnostic { kind: DiagnosticKind::EmptyBody, span: sp(0, 14), in_contract: false }]
    );
    assert_eq!(errors[0].category(), Category::Type);
}

#[test]
fn a_nested_definition_is_no_expression() {
    let errors = run("(define (f) (define (g) 1))").unwrap_err();
    assert_eq!(errors[0].kind, DiagnosticKind::NestedDefinition);
    assert_eq!(errors[0].span, sp(12, 26));
}

#[test]
fn operators_take_two_arguments() {
    let errors = run("(define (f x) (+ x))").unwrap_err();
    assert_eq!(errors[0].kind, DiagnosticKind::ArityMismatch { params: 2, args: 1 });
    assert_eq!(errors[0].span, sp(14, 19));
    let errors = run("(define (f x) (< x 1 2))").unwrap_err();
    assert_eq!(errors[0].kind, DiagnosticKind::ArityMismatch { params: 2, args: 3 });
}

#[test]
fn a_call_takes_as_many_arguments_as_parameters() {
    let errors = run("(define (g x) x) (define (f) (g 1 2))").unwrap_err();
    assert_eq!(errors.len(), 1);
    assert_eq!(errors[0].kind, DiagnosticKind::ArityMismatch { params: 1, args: 2 });
}

#[test]
fn an_open_signature_fits_every_call() {
    let sigs = signatures("(define (id x) x) (define (f) (+ (id 1) 2)) (define (g) (id #t))");
    assert!(matches!(sigs[0].ret, Type::Existential(_)));
    assert_eq!(sigs[0].params, vec![sigs[0].ret]);
    assert_eq!(sigs[1], sig(vec![], INT));
    assert_eq!(sigs[2], sig(vec![], BOOL));
}

#[test]
fn callers_are_checked_after_callees_whatever_the_source_order() {
    assert_eq!(
        signatures("(define (f x) (g x)) (define (g y) (< y 1))"),
        vec![sig(vec![INT], BOOL), sig(vec![INT], BOOL)]
    );
}

#[test]
fn a_call_checks_its_arguments() {
    let errors = run("(define (g y) (< y 1)) (define (f) (g \"s\"))").unwrap_err();
    assert_eq!(
        errors,
        vec![Diagnostic {
            kind: DiagnosticKind::TypeMismatch { expected: INT, actual: STRING },
            span: sp(38, 41),
            in_contract: false,
        }]
    );
}

#[test]
fn every_function_with_an_error_reports_one_diagnostic() {
    let errors = run("(define (a) y) (define (b) 1) (define (c) (+ 1 #t) z)").unwrap_err();
    assert_eq!(errors.len(), 2);
    assert_eq!(errors[0].kind, DiagnosticKind::UnboundVariable(s("y")));
    assert_eq!(errors[1].kind, DiagnosticKind::TypeMismatch { expected: INT, actual: BOOL });
}

#[test]
fn an_unresolved_call_stops_before_checking() {
    let errors = run("(define (f) (nope 1)) (define (g) (+ 1 #t))").unwrap_err();
    assert_eq!(errors.len(), 1);
    assert_eq!(errors[0].kind, DiagnosticKind::UnresolvedCall(s("nope")));
    assert_eq!(errors[0].span, sp(12, 20));
}

#[test]
fn items_of_a_data_list_are_checked() {
    let errors = run("(define (f) (1 y))").unwrap_err();
    assert_eq!(errors[0].kind, DiagnosticKind::UnboundVariable(s("y")));
    assert_eq!(signatures("(define (f x) (1 (+ x 2)))"), vec![sig(vec![INT], UNIT)]);
}

#[test]
fn the_checked_module_is_the_lowered_module() {
    let m = run("(define (f x) (+ x 1))").unwrap();
    assert_eq!(m.module.functions.len(), 1);
    match &*m.module.functions[0].x {
        LispValX::Function { body, .. } => {
            assert!(matches!(&*body[0].x, LispValX::FunctionCall { .. }))
        }
        _ => panic!("not a definition"),
    }
}

#[test]
fn a_non_function_at_the_top_is_fatal() {
    let stray = Spanned { source: s("t"), x: Arc::new(LispValX::Bool(true)), span: sp(1, 3) };
    let errors =
        check_module(&LispModuleX { functions: Arc::new(vec![stray]) }).unwrap_err();
    assert_eq!(
        errors,
        vec![Diagnostic { kind: DiagnosticKind::NotAFunction, span: sp(1, 3), in_contract: false }]
    );
    assert!(errors[0].is_fatal());
    let stray =
        Spanned { source: s("t"), x: Arc::new(syntax::LispValX::Bool(true)), span: sp(1, 3) };
    let errors =
        synth(Arc::new(syntax::LispModuleX { functions: Arc::new(vec![stray]) })).unwrap_err();
    assert_eq!(errors[0].kind, DiagnosticKind::NotAFunction);
}

#[test]
fn the_empty_module_checks() {
    assert_eq!(signatures(""), vec![]);
}

#[test]
fn fresh_identifiers_rise_by_one() {
    let mut state = State::initial();
    assert_eq!(state.existentials, 0);
    assert!(!state.exhausted());
    assert_eq!(state.fresh_existentials(), 0);
    assert_eq!(state.fresh_existentials(), 1);
    assert_eq!(state.fresh_existentials(), 2);
    assert_eq!(state.existentials, 3);
    let last = State { existentials: usize::MAX };
    assert!(last.exhausted());
}

#[test]
fn a_context_looks_up_the_innermost_binding() {
    let mut c = Context::new();
    assert_eq!(c.len(), 0);
    c.push(ContextElement::TypedVariable(s("x"), INT));
    c.push(ContextElement::Variable(s("x")));
    c.push(ContextElement::TypedVariable(s("y"), BOOL));
    c.push(ContextElement::TypedVariable(s("x"), STRING));
    assert_eq!(c.lookup(&s("x")), Some(STRING));
    assert_eq!(c.lookup(&s("y")), Some(BOOL));
    assert_eq!(c.lookup(&s("z")), None);
    c.truncate(3);
    assert_eq!(c.lookup(&s("x")), Some(INT));
    c.truncate(9);
    assert_eq!(c.len(), 3);
}

#[test]
fn an_existential_is_solved_where_it_stands() {
    let mut c = Context::new();
    c.push(ContextElement::Marker(0));
    c.push(ContextElement::Existential(1));
    c.push(ContextElement::Existential(2));
    c.push(ContextElement::TypedVariable(s("x"), Type::Existential(2)));
    assert_eq!(c.position(1), 1);
    assert_eq!(c.position(2), 2);
    assert_eq!(c.position(7), 4);
    assert_eq!(c.apply(Type::Existential(2)), Type::Existential(2));
    assert_eq!(c.unify(Type::Existential(1), Type::Existential(2)), Ok(()));
    assert_eq!(c.elements[2], ContextElement::Solved(2, Type::Existential(1)));
    assert_eq!(c.elements[1], ContextElement::Existential(1));
    assert_eq!(c.unify(INT, Type::Existential(2)), Ok(()));
    assert_eq!(c.elements[1], ContextElement::Solved(1, INT));
    assert_eq!(c.apply(Type::Existential(2)), INT);
    assert_eq!(c.len(), 4);
    assert_eq!(c.unify(Type::Existential(2), BOOL), Err((INT, BOOL)));
    assert_eq!(c.unify(Type::Existential(1), INT), Ok(()));
    assert!(!c.solve(1, BOOL));
    assert!(!c.solve(9, BOOL));
    assert_eq!(c.unify(Type::Existential(9), INT), Err((Type::Existential(9), INT)));
    assert_eq!(c.unify(Type::Existential(9), Type::Existential(9)), Ok(()));
}

#[test]
fn synthesis_and_checking_of_one_expression() {
    let out = parse_source("t", "(define (f x) (+ x 1))");
    let m = lisp_front::semantic::lower::lower_module(&out.module).unwrap();
    let body = match &*m.functions[0].x {
        LispValX::Function { body, .. } => body.clone(),
        _ => panic!("not a definition"),
    };
    let table: Vec<Entry> = vec![];
    let mut c = Context::new();
    let mut state = State { existentials: 5 };
    c.push(ContextElement::Existential(4));
    c.push(ContextElement::TypedVariable(s("x"), Type::Existential(4)));
    assert_eq!(synt_to(&mut c, &mut state, &table, &body[0], false), Ok(INT));
    assert_eq!(c.elements[0], ContextElement::Solved(4, INT));
    assert_eq!(state.existentials, 5);
    assert_eq!(check_against(&mut c, &mut state, &table, &body[0], INT, false), Ok(()));
    let r = check_against(&mut c, &mut state, &table, &body[0], BOOL, false);
    assert_eq!(
        r,
        Err(Diagnostic {
            kind: DiagnosticKind::TypeMismatch { expected: BOOL, actual: INT },
            span: sp(14, 21),
            in_contract: false,
        })
    );
}

#[test]
fn a_definition_leaves_the_context_as_long_as_it_was() {
    let out = parse_source("t", "(define (f x) (+ x 1))");
    let m = lisp_front::semantic::lower::lower_module(&out.module).unwrap();
    let table = vec![Entry {
        name: s("f"),
        signature: Signature { params: vec![Type::Existential(0)], ret: Type::Existential(1) },
        status: Status::Assumed,
    }];
    let mut c = Context::new();
    c.push(ContextElement::Existential(0));
    c.push(ContextElement::Existential(1));
    let mut state = State { existentials: 2 };
    assert_eq!(check_function(&mut c, &mut state, &table, &m.functions[0], 0), Ok(()));
    assert_eq!(
        c.elements,
        vec![ContextElement::Solved(0, INT), ContextElement::Solved(1, INT)]
    );
    assert_eq!(state.existentials, 3);
}

#[test]
fn a_call_of_a_pending_function_is_fatal() {
    let out = parse_source("t", "(define (f) (g))  (define (g) 1)");
    let m = lisp_front::semantic::lower::lower_module(&out.module).unwrap();
    let table = vec![
        Entry { name: s("f"), signature: Signature { params: vec![], ret: INT }, status: Status::Assumed },
        Entry { name: s("g"), signature: Signature { params: vec![], ret: INT }, status: Status::Pending },
    ];
    let mut c = Context::new();
    let mut state = State::initial();
    let d = check_function(&mut c, &mut state, &table, &m.functions[0], 0).unwrap_err();
    assert_eq!(d.kind, DiagnosticKind::SignatureNotReady(s("g")));
    assert!(d.is_fatal());
    assert_eq!(c.len(), 0);
}

#[test]
fn running_out_of_identifiers_is_fatal() {
    let out = parse_source("t", "(define (f) 1)");
    let m = lisp_front::semantic::lower::lower_module(&out.module).unwrap();
    let table = vec![Entry {
        name: s("f"),
        signature: Signature { params: vec![], ret: INT },
        status: Status::Assumed,
    }];
    let mut c = Context::new();
    let mut state = State { existentials: usize::MAX };
    let d = check_function(&mut c, &mut state, &table, &m.functions[0], 0).unwrap_err();
    assert_eq!(d.kind, DiagnosticKind::OutOfIdentifiers);
    assert_eq!(d.category(), Category::Resource);
    assert!(d.is_fatal());
}

#[test]
fn diagnostics_have_messages() {
    let errors = run("(define (f x) (+ x #t))").unwrap_err();
    assert_eq!(errors[0].message(), "type mismatch: expected Int, found Bool");
    let errors = run("(define (f) y)").unwrap_err();
    assert_eq!(errors[0].message(), "unbound variable y");
    let errors = run("(define (f x) requires \"s\" x)").unwrap_err();
    assert_eq!(errors[0].message(), "a contract clause must be Bool, found String");
    let errors = run("(define (f))").unwrap_err();
    assert_eq!(errors[0].message(), "a definition needs a body");
    let errors = run("(define (f) (g))").unwrap_err();
    assert_eq!(errors[0].message(), "unresolved call of g");
    let errors = run("(define (f) (+ 1))").unwrap_err();
    assert_eq!(errors[0].message(), "wrong number of arguments");
    let errors = run("(define (f) (define (g) 1))").unwrap_err();
    assert_eq!(errors[0].message(), "a definition is not an expression");
    let d = Diagnostic {
        kind: DiagnosticKind::TypeMismatch { expected: Type::Existential(3), actual: UNIT },
        span: sp(0, 1),
        in_contract: false,
    };
    assert_eq!(d.message(), "type mismatch: expected an open type, found Unit");
    let d = Diagnostic { kind: DiagnosticKind::NotAFunction, span: sp(0, 1), in_contract: false };
    assert_eq!(d.message(), "a top-level form is not a definition");
    let d = Diagnostic {
        kind: DiagnosticKind::SignatureNotReady(s("g")),
        span: sp(0, 1),
        in_contract: false,
    };
    assert_eq!(d.message(), "no signature yet for g");
    let d = Diagnostic { kind: DiagnosticKind::OutOfIdentifiers, span: sp(0, 1), in_contract: false };
    assert_eq!(d.message(), "out of fresh identifiers");
}
