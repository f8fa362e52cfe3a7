use lisp_front::parser::parser::parse_source;
use lisp_front::semantic::calls::{call_matrix, call_row, find_name, gather};
use lisp_front::semantic::lower::lower_module;
use lisp_front::semantic::order::{count_row, order_groups, reach_row, Reach};
use lisp_front::semantic::typeck::topo_sort;
use std::sync::Arc;

fn s(text: &str) -> Arc<String> {
    Arc::new(text.to_string())
}

fn order_of(text: &str) -> Vec<Vec<usize>> {
    let out = parse_source("t", text);
    assert_eq!(out.errors, vec![]);
    let m = lower_module(&out.module).unwrap();
    topo_sort(m.functions.clone())
}

fn matrix(n: usize, edges: &[(usize, usize)]) -> Vec<Vec<bool>> {
    let mut m = vec![vec![false; n]; n];
    for (a, b) in edges {
        m[*a][*b] = true;
    }
    m
}

#[test]
fn a_callee_comes_before_its_caller() {
    assert_eq!(order_of("(define (a) (b)) (define (b) 1)"), vec![vec![1], vec![0]]);
}

#[test]
fn a_chain_is_reversed() {
    assert_eq!(
        order_of("(define (c) (b)) (define (b) (a)) (define (a) 1)"),
        vec![vec![2], vec![1], vec![0]]
    );
}

#[test]
fn functions_that_call_nothing_keep_their_order() {
    assert_eq!(
        order_of("(define (a) 1) (define (b) 2) (define (c) 3)"),
        vec![vec![0], vec![1], vec![2]]
    );
}

#[test]
fn mutual_recursion_is_one_group() {
    assert_eq!(
        order_of("(define (even n) (odd (- n 1))) (define (odd n) (even (- n 1)))"),
        vec![vec![0, 1]]
    );
}

#[test]
fn a_group_comes_after_what_it_calls_and_before_what_calls_it() {
    let text = "(define (top) (p 1)) (define (p x) (q x)) (define (q x) (+ (p x) (leaf))) (define (leaf) 1)";
    assert_eq!(order_of(text), vec![vec![3], vec![1, 2], vec![0]]);
}

#[test]
fn self_recursion_is_a_group_of_one() {
    assert_eq!(order_of("(define (f x) (f x))"), vec![vec![0]]);
}

#[test]
fn calls_in_contract_clauses_count() {
    assert_eq!(
        order_of("(define (f x) requires (p x) x) (define (p x) #t)"),
        vec![vec![1], vec![0]]
    );
    assert_eq!(
        order_of("(define (f x) ensures (p result) x) (define (p x) #t)"),
        vec![vec![1], vec![0]]
    );
}

#[test]
fn the_empty_module_has_no_groups() {
    assert_eq!(order_of(""), Vec::<Vec<usize>>::new());
}

#[test]
fn a_name_stands_for_the_first_function_that_bears_it() {
    assert_eq!(
        order_of("(define (a) 1) (define (b) (a)) (define (a) (b))"),
        vec![vec![0], vec![1], vec![2]]
    );
}

#[test]
fn the_call_matrix_has_an_edge_for_each_call() {
    let out = parse_source("t", "(define (a) (b) (+ 1 (c))) (define (b) 1) (define (c) (a))");
    let m = lower_module(&out.module).unwrap();
    assert_eq!(
        call_matrix(&m.functions),
        vec![
            vec![false, true, true],
            vec![false, false, false],
            vec![true, false, false],
        ]
    );
    let names = vec![s("a"), s("b"), s("c")];
    assert_eq!(call_row(&names, &m.functions[0]), vec![false, true, true]);
    assert_eq!(gather(&m.functions[0], vec![]), vec![s("b"), s("+"), s("c")]);
    assert_eq!(find_name(&names, &s("c")), 2);
    assert_eq!(find_name(&names, &s("+")), 3);
}

#[test]
fn groups_of_a_graph() {
    let g = matrix(3, &[(0, 1), (1, 2), (2, 1)]);
    assert_eq!(order_groups(&g), vec![vec![1, 2], vec![0]]);
    let g = matrix(4, &[(0, 1), (1, 0), (2, 3), (3, 2)]);
    assert_eq!(order_groups(&g), vec![vec![0, 1], vec![2, 3]]);
    let g = matrix(4, &[(3, 2), (2, 1), (1, 0)]);
    assert_eq!(order_groups(&g), vec![vec![0], vec![1], vec![2], vec![3]]);
    let g = matrix(5, &[(0, 4), (1, 4), (4, 2), (2, 3), (3, 4)]);
    assert_eq!(order_groups(&g), vec![vec![2, 3, 4], vec![0], vec![1]]);
}

#[test]
fn what_a_node_reaches() {
    let g = matrix(4, &[(0, 1), (1, 2), (2, 1)]);
    assert_eq!(reach_row(&g, 0), vec![true, true, true, false]);
    assert_eq!(reach_row(&g, 1), vec![false, true, true, false]);
    assert_eq!(reach_row(&g, 3), vec![false, false, false, true]);
    assert_eq!(count_row(&vec![true, false, true, true]), 3);
    assert_eq!(count_row(&vec![]), 0);
    let r = Reach::new(&g);
    assert_eq!(r.counts, vec![3, 2, 2, 1]);
    assert_eq!(r.rows[2], vec![false, true, true, false]);
}

#[test]
fn in_an_acyclic_graph_callees_come_first() {
    let edges = [(0, 3), (3, 1), (0, 1), (2, 0), (4, 2), (4, 1)];
    let g = matrix(5, &edges);
    let order = order_groups(&g);
    assert_eq!(order.len(), 5);
    let place = |x: usize| order.iter().position(|grp| *grp == vec![x]).unwrap();
    for (a, b) in edges {
        assert!(place(b) < place(a));
    }
}
