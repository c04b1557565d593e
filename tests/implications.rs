use prereq_logic::logic::{Product, Products};
use prereq_logic::sum::Sum;

fn sum(symbols: &[usize]) -> Sum {
    Sum::from_vec(symbols.to_vec())
}

fn product(sums: &[&[usize]]) -> Product {
    Product::from_sums(sums.iter().map(|s| sum(s)).collect())
}

fn products(entries: &[(usize, &[&[usize]])]) -> Products {
    Products::from_entries(entries.iter().map(|(k, p)| (*k, product(p))).collect())
}

#[test]
fn foo() {
    let implications = products(&[(0, &[&[1]])]);
    assert!(implications.implies_test(&sum(&[0]), &sum(&[1])));
    assert!(implications.implies_test(&sum(&[0]), &sum(&[0])));
    assert!(implications.implies_test(&sum(&[1]), &sum(&[1])));
}

#[test]
fn bar() {
    let implications = products(&[
        (0, &[&[1]]),
        (1, &[&[2]]),
        (2, &[&[3]]),
        (3, &[&[4]]),
        (4, &[&[5]]),
    ]);
    assert!(implications.implies_test(&sum(&[0]), &sum(&[0])));
    assert!(implications.implies_test(&sum(&[0]), &sum(&[1])));
    assert!(implications.implies_test(&sum(&[1]), &sum(&[2])));
    assert!(implications.implies_test(&sum(&[0]), &sum(&[5])));

    assert!(!implications.implies_test(&sum(&[1]), &sum(&[0])));
    assert!(!implications.implies_test(&sum(&[5]), &sum(&[0])));
}

#[test]
fn baz() {
    let implications = products(&[(0, &[&[1, 2]]), (1, &[&[3]]), (2, &[&[3]])]);
    assert!(implications.implies_test(&sum(&[0]), &sum(&[3])));
    assert!(implications.implies_test(&sum(&[1]), &sum(&[3])));
    assert!(implications.implies_test(&sum(&[2]), &sum(&[3])));

    assert!(!implications.implies_test(&sum(&[0]), &sum(&[1])));
    assert!(!implications.implies_test(&sum(&[3]), &sum(&[0])));
}

#[test]
fn qux() {
    let implications = products(&[
        (0, &[&[1, 2]]),
        (1, &[&[2, 3, 4]]),
        (2, &[&[5]]),
        (3, &[&[5]]),
        (4, &[&[5]]),
    ]);
    assert!(implications.implies_test(&sum(&[0]), &sum(&[5])));

    assert!(!implications.implies_test(&sum(&[2]), &sum(&[3])));
}

#[test]
fn quoo() {
    let implications = products(&[(0, &[&[1]]), (1, &[&[2]]), (2, &[&[0]])]);
    assert!(implications.implies_test(&sum(&[0]), &sum(&[1])));

    assert!(!implications.implies_test(&sum(&[0]), &sum(&[3])));
}

#[test]
fn quoo1() {
    let implications = products(&[(0, &[&[1]]), (1, &[&[2]]), (2, &[&[3], &[0]])]);
    assert!(implications.implies_test(&sum(&[0]), &sum(&[3])));
    assert!(implications.implies_test(&sum(&[0]), &sum(&[1])));

    assert!(!implications.implies_test(&sum(&[3]), &sum(&[0])));
}

#[test]
fn quoo2() {
    let implications = products(&[(0, &[&[1]]), (1, &[&[2]]), (2, &[&[0], &[3]])]);
    assert!(implications.implies_test(&sum(&[0]), &sum(&[3])));
    assert!(implications.implies_test(&sum(&[0]), &sum(&[1])));

    assert!(!implications.implies_test(&sum(&[3]), &sum(&[0])));
}
