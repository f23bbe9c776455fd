use nasp_homework::np::{Graph, Statement, CNF};

#[test]
fn cnf_verify() {
    let mut statement = Statement::new(3);
    statement.set(vec![false, false, false]);

    let cnf1 = CNF::new(vec![vec![1, 2, -3]]);
    let cnf2 = CNF::new(vec![vec![1, 2, 3]]);

    assert!(cnf1.verify(&statement));
    assert!(!cnf2.verify(&statement));
}

#[test]
fn cnf_result() {
    let cnf1 = CNF::new(vec![vec![1, 2, 3]]);
    let cnf2 = CNF::new(vec![vec![1, 1, 1], vec![-1, -1, -1]]);

    assert!(cnf1.result());
    assert!(!cnf2.result());
}

#[test]
fn verify_indset() {
    let graph = Graph::new(vec![
        vec![0, 1, 0, 0],
        vec![1, 0, 1, 0],
        vec![0, 1, 0, 1],
        vec![0, 0, 1, 0],
    ]);

    assert!(graph.verify_indset(&vec![0, 2]));
    assert!(graph.verify_indset(&vec![1, 3]));

    assert!(!graph.verify_indset(&vec![0, 1]));
    assert!(!graph.verify_indset(&vec![2, 3]));
}

#[test]
fn verify_clique() {
    let graph = Graph::new(vec![
        vec![0, 1, 1, 0],
        vec![1, 0, 1, 1],
        vec![1, 1, 0, 1],
        vec![0, 1, 1, 0],
    ]);

    assert!(graph.verify_clique(&vec![1, 2]));
    assert!(graph.verify_clique(&vec![1, 2, 3]));

    assert!(!graph.verify_clique(&vec![0, 3]));
    assert!(!graph.verify_clique(&vec![0, 1, 3]));
}

#[test]
fn empty_singleton_set() {
    let graph = Graph::new(vec![vec![0, 1], vec![1, 0]]);

    assert!(graph.verify_indset(&vec![]));
    assert!(graph.verify_clique(&vec![]));

    assert!(graph.verify_indset(&vec![0]));
    assert!(graph.verify_clique(&vec![0]));
    assert!(graph.verify_indset(&vec![1]));
    assert!(graph.verify_clique(&vec![1]));
}

#[test]
fn result_k_indset() {
    let graph = Graph::new(vec![
        vec![0, 1, 0, 0],
        vec![1, 0, 1, 0],
        vec![0, 1, 0, 1],
        vec![0, 0, 1, 0],
    ]);

    assert!(graph.result_k_indset(1));
    assert!(graph.result_k_indset(2));
    assert!(!graph.result_k_indset(3));
    assert!(!graph.result_k_indset(5));
}

#[test]
fn result_k_clique() {
    let graph = Graph::new(vec![
        vec![0, 1, 1, 0],
        vec![1, 0, 1, 1],
        vec![1, 1, 0, 1],
        vec![0, 1, 1, 0],
    ]);

    assert!(graph.result_k_clique(2));
    assert!(graph.result_k_clique(3));
    assert!(!graph.result_k_clique(4));
    assert!(!graph.result_k_clique(5));
}

#[test]
fn graph_edge_cases() {
    let empty_graph = Graph::new(vec![]);

    assert!(!empty_graph.result_k_clique(1));
    assert!(!empty_graph.result_k_indset(1));

    let single_node_graph = Graph::new(vec![vec![0]]);

    assert!(single_node_graph.result_k_clique(1));
    assert!(single_node_graph.result_k_indset(1));
    assert!(!single_node_graph.result_k_clique(2));
    assert!(!single_node_graph.result_k_indset(2));
}

#[test]
fn to_indset() {
    let cnf = CNF::new(vec![vec![1, 2, -3], vec![-1, 3, 4]]);

    let graph = Graph::to_indset(&cnf);

    assert_eq!(graph.result_k_indset(2), cnf.result());
}

#[test]
fn to_clique() {
    let cnf = CNF::new(vec![vec![1, 2, -3], vec![-1, 3, 4]]);

    let graph = Graph::to_clique(&cnf);

    assert_eq!(graph.result_k_clique(2), cnf.result());
}

#[test]
fn empty_cnf() {
    let cnf = CNF::new(vec![]);

    let indset_graph = Graph::to_indset(&cnf);
    let clique_graph = Graph::to_clique(&cnf);

    assert_eq!(indset_graph.num_nodes(), 0);
    assert_eq!(clique_graph.num_nodes(), 0);
}

#[test]
fn single_clause_cnf() {
    let cnf = CNF::new(vec![vec![1, 2, -3]]);

    let indset_graph = Graph::to_indset(&cnf);
    let clique_graph = Graph::to_clique(&cnf);

    assert_eq!(indset_graph.result_k_indset(1), cnf.result());
    assert_eq!(clique_graph.result_k_clique(1), cnf.result());
}

#[test]
fn a_new_statement_makes_every_variable_false() {
    let statement = Statement::new(5);
    assert_eq!(statement.len(), 5);
    assert_eq!(statement.values(), vec![false; 5]);
    assert_eq!(Statement::new(0).len(), 0);
    assert_eq!(Statement::new(24).len(), 24);
}

#[test]
fn set_replaces_the_values_and_returns_the_statement() {
    let mut statement = Statement::new(3);
    let same = statement.set(vec![true, false, true]);
    assert_eq!(same.len(), 3);
    assert_eq!(statement.values(), vec![true, false, true]);
}

#[test]
fn increment_counts_in_binary_with_the_least_bit_first() {
    let mut statement = Statement::new(3);
    let expected = [
        [true, false, false],
        [false, true, false],
        [true, true, false],
        [false, false, true],
        [true, false, true],
        [false, true, true],
        [true, true, true],
        [false, false, false],
        [true, false, false],
    ];
    for row in expected {
        statement.increment();
        assert_eq!(statement.values(), row.to_vec());
    }
    let mut none = Statement::new(0);
    none.increment();
    assert_eq!(none.len(), 0);
}

#[test]
fn normalize_matrix_numbers_the_variables_in_ascending_order() {
    let (matrix, variables) =
        CNF::normalize_matrix(vec![vec![7, -3, 20], vec![-20, 3, 9], vec![9, 9, -7]]);
    assert_eq!(variables, 4);
    assert_eq!(matrix, vec![vec![2, -1, 4], vec![-4, 1, 3], vec![3, 3, -2]]);
}

#[test]
fn normalize_matrix_keeps_a_matrix_that_is_normal() {
    let (matrix, variables) = CNF::normalize_matrix(vec![vec![1, 2, -3], vec![-1, 3, 4]]);
    assert_eq!(variables, 4);
    assert_eq!(matrix, vec![vec![1, 2, -3], vec![-1, 3, 4]]);
}

#[test]
fn normalize_matrix_takes_zero_for_a_variable_and_rows_of_any_length() {
    let (matrix, variables) = CNF::normalize_matrix(vec![vec![0, -24], vec![], vec![24, 5, 0, -5]]);
    assert_eq!(variables, 3);
    assert_eq!(matrix, vec![vec![1, -3], vec![], vec![3, 2, 1, -2]]);
    let (matrix, variables) = CNF::normalize_matrix(vec![]);
    assert_eq!(variables, 0);
    assert_eq!(matrix, Vec::<Vec<i32>>::new());
}

#[test]
fn a_formula_counts_its_variables() {
    assert_eq!(CNF::new(vec![]).num_variables(), 0);
    assert_eq!(CNF::new(vec![vec![5, 5, -5]]).num_variables(), 1);
    assert_eq!(CNF::new(vec![vec![3, 8, -12], vec![12, 24, 3]]).num_variables(), 4);
    let widest = CNF::new(vec![
        vec![1, 2, 3],
        vec![4, 5, 6],
        vec![7, 8, 9],
        vec![10, 11, 12],
        vec![13, 14, 15],
        vec![16, 17, 18],
        vec![19, 20, 21],
    ]);
    assert_eq!(widest.num_variables(), 21);
}

#[test]
fn verify_reads_positive_and_negative_literals() {
    let cnf = CNF::new(vec![vec![1, 1, 1], vec![-2, -2, -2], vec![3, -1, 2]]);
    let mut statement = Statement::new(3);
    statement.set(vec![true, false, false]);
    assert!(!cnf.verify(&statement));
    statement.set(vec![true, false, true]);
    assert!(cnf.verify(&statement));
    statement.set(vec![true, true, true]);
    assert!(!cnf.verify(&statement));
    statement.set(vec![false, false, true]);
    assert!(!cnf.verify(&statement));

    let mut longer = Statement::new(5);
    longer.set(vec![true, false, true, false, false]);
    assert!(cnf.verify(&longer));
    assert!(CNF::new(vec![]).verify(&Statement::new(0)));
}

#[test]
fn solve_finds_the_first_satisfying_statement() {
    let cnf = CNF::new(vec![vec![1, 1, 1], vec![-2, -2, -2], vec![3, -1, 2]]);
    let found = cnf.solve().unwrap();
    assert_eq!(found.values(), vec![true, false, true]);

    let free = CNF::new(vec![vec![1, -2, 3]]);
    assert_eq!(free.solve().unwrap().values(), vec![false, false, false]);

    let late = CNF::new(vec![vec![1, 1, 1], vec![2, 2, 2], vec![3, 3, 3]]);
    assert_eq!(late.solve().unwrap().values(), vec![true, true, true]);

    let none = CNF::new(vec![vec![1, 1, 1], vec![-1, -1, -1]]);
    assert!(none.solve().is_none());
    assert!(!none.result());

    let empty = CNF::new(vec![]);
    assert_eq!(empty.solve().unwrap().len(), 0);
    assert!(empty.result());
}

#[test]
fn result_decides_a_formula_with_many_variables() {
    let cnf = CNF::new(vec![
        vec![1, 2, 3],
        vec![-1, -2, -3],
        vec![4, 5, 6],
        vec![-4, -5, 6],
        vec![7, 8, 9],
        vec![-9, 10, 11],
        vec![12, 13, 14],
    ]);
    assert_eq!(cnf.num_variables(), 14);
    assert!(cnf.result());
    let all_ways = CNF::new(vec![
        vec![1, 2, 2],
        vec![1, -2, -2],
        vec![-1, 2, 2],
        vec![-1, -2, -2],
    ]);
    assert!(!all_ways.result());
}

#[test]
fn verification_follows_the_order_of_the_nodes() {
    let graph = Graph::new(vec![vec![0, 1, 0], vec![0, 0, 0], vec![2, 0, 0]]);
    assert_eq!(graph.num_nodes(), 3);
    assert!(graph.verify_clique(&vec![0, 1]));
    assert!(!graph.verify_clique(&vec![1, 0]));
    assert!(graph.verify_indset(&vec![1, 0]));
    assert!(!graph.verify_indset(&vec![0, 1]));
    assert!(graph.verify_clique(&vec![2, 0]));
    assert!(graph.verify_indset(&vec![0, 2]));
    assert!(graph.verify_indset(&vec![1, 1]));
    assert!(!graph.verify_clique(&vec![2, 0, 1]));
    assert!(graph.verify_clique(&vec![2, 0]));
    assert!(graph.result_k_clique(2));
    assert!(!graph.result_k_clique(3));
    assert!(graph.result_k_indset(2));
    assert!(!graph.result_k_indset(3));
}

#[test]
fn no_nodes_form_a_clique_and_an_independent_set() {
    let graph = Graph::new(vec![vec![0, 1], vec![1, 0]]);
    assert!(graph.result_k_clique(0));
    assert!(graph.result_k_indset(0));
    assert!(Graph::new(vec![]).result_k_clique(0));
    assert!(Graph::new(vec![]).result_k_indset(0));
    assert!(graph.result_k_clique(2));
    assert!(!graph.result_k_indset(2));
    assert!(!graph.result_k_clique(3));
}

#[test]
fn to_indset_relates_literals_that_exclude_each_other() {
    let cnf = CNF::new(vec![vec![1, 2, -3], vec![-1, 3, 4]]);
    let graph = Graph::to_indset(&cnf);
    assert_eq!(graph.num_nodes(), 6);
    let expected = [
        [0, 1, 1, 1, 0, 0],
        [1, 0, 1, 0, 0, 0],
        [1, 1, 0, 0, 1, 0],
        [1, 0, 0, 0, 1, 1],
        [0, 0, 1, 1, 0, 1],
        [0, 0, 0, 1, 1, 0],
    ];
    for u in 0..6 {
        for v in 0..6 {
            if u != v {
                assert_eq!(graph.verify_indset(&vec![u, v]), expected[u][v] == 0);
                assert_eq!(graph.verify_clique(&vec![u, v]), expected[u][v] != 0);
            }
        }
    }
    assert!(graph.result_k_indset(2));
    assert!(!graph.result_k_indset(3));
}

#[test]
fn to_clique_relates_literals_that_agree() {
    let cnf = CNF::new(vec![vec![1, 2, -3], vec![-1, 3, 4]]);
    let graph = Graph::to_clique(&cnf);
    assert_eq!(graph.num_nodes(), 6);
    let expected = [
        [0, 0, 0, 0, 1, 1],
        [0, 0, 0, 1, 1, 1],
        [0, 0, 0, 1, 0, 1],
        [0, 1, 1, 0, 0, 0],
        [1, 1, 0, 0, 0, 0],
        [1, 1, 1, 0, 0, 0],
    ];
    for u in 0..6 {
        for v in 0..6 {
            if u != v {
                assert_eq!(graph.verify_clique(&vec![u, v]), expected[u][v] != 0);
            }
        }
    }
    assert!(graph.result_k_clique(2));
    assert!(!graph.result_k_clique(3));
}

#[test]
fn a_repeated_literal_is_one_node() {
    let cnf = CNF::new(vec![vec![1, 1, 1], vec![-1, -1, -1]]);
    let indset = Graph::to_indset(&cnf);
    assert_eq!(indset.num_nodes(), 2);
    assert!(!indset.verify_indset(&vec![0, 1]));
    assert!(!indset.result_k_indset(2));
    let clique = Graph::to_clique(&cnf);
    assert_eq!(clique.num_nodes(), 2);
    assert!(!clique.verify_clique(&vec![0, 1]));
    assert!(clique.result_k_clique(1));
    assert!(!clique.result_k_clique(2));
}
