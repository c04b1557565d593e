use prereq_logic::convert::{minimize, product_into_tree, sum_into_tree, MinimizeError, SymbolTable};
use prereq_logic::logic::{Product, Products};
use prereq_logic::restrictions::{u32_text, CourseCode, ExamScore, Operator, PrerequisiteTree, Qualification};
use prereq_logic::sum::Sum;

fn sum(symbols: &[usize]) -> Sum {
    Sum::from_vec(symbols.to_vec())
}

fn product(sums: &[&[usize]]) -> Product {
    Product::from_sums(sums.iter().map(|s| sum(s)).collect())
}

fn products(entries: &[(usize, &[&[usize]])]) -> Products {
    Products::from_entries(entries.iter().map(|(k, p)| (*k, product(p))).collect())
}

fn clauses(db: &Products, key: usize) -> Vec<Vec<usize>> {
    let p = db.get(key).unwrap();
    p.clauses.iter().map(|c| c.inner.clone()).collect()
}

fn satisfies(p: &Product, assignment: u32) -> bool {
    p.clauses
        .iter()
        .all(|c| c.inner.iter().any(|s| assignment & (1 << s) != 0))
}

fn models(db: &Products, n: usize) -> Vec<u32> {
    (0..(1u32 << n))
        .filter(|a| {
            db.entries
                .iter()
                .all(|(k, p)| a & (1 << k) == 0 || satisfies(p, *a))
        })
        .collect()
}

fn course(subject: &str, number: &str) -> Qualification {
    Qualification::Course(CourseCode::new(subject.to_string(), number.to_string()).unwrap())
}

fn leaf(number: &str) -> PrerequisiteTree {
    PrerequisiteTree::symbol(course("CSCI", number))
}

fn leaf_number(tree: &PrerequisiteTree) -> String {
    match tree {
        PrerequisiteTree::Qualification(Qualification::Course(c)) => c.number.clone(),
        other => panic!("not a course leaf: {:?}", other),
    }
}

#[test]
fn or_distribution() {
    let joined = product(&[&[1, 2]]).bitor(&product(&[&[2, 3, 4]]));
    let got: Vec<Vec<usize>> = joined.clauses.iter().map(|c| c.inner.clone()).collect();
    assert_eq!(got, vec![vec![1, 2, 3, 4]]);
    let with_identity = Product::or_identity().bitor(&product(&[&[5], &[6, 7]]));
    let got: Vec<Vec<usize>> = with_identity.clauses.iter().map(|c| c.inner.clone()).collect();
    assert_eq!(got, vec![vec![5], vec![6, 7]]);
    let cross = product(&[&[1], &[2]]).bitor(&product(&[&[3], &[4]]));
    let got: Vec<Vec<usize>> = cross.clauses.iter().map(|c| c.inner.clone()).collect();
    assert_eq!(got, vec![vec![1, 3], vec![1, 4], vec![2, 3], vec![2, 4]]);
}

#[test]
fn and_concatenates() {
    let joined = product(&[&[1]]).bitand(product(&[&[2, 3]]));
    let got: Vec<Vec<usize>> = joined.clauses.iter().map(|c| c.inner.clone()).collect();
    assert_eq!(got, vec![vec![1], vec![2, 3]]);
    assert!(Product::and_identity().bitand(Product::and_identity()).is_empty());
}

#[test]
fn clause_operations() {
    let c = sum(&[5, 1, 3, 1]);
    assert_eq!(c.inner, vec![1, 3, 5]);
    assert_eq!(c.len(), 3);
    assert!(c.contains(3));
    assert!(!c.contains(2));
    assert_eq!(c.without(3).inner, vec![1, 5]);
    assert!(sum(&[1, 5]).is_subset(&c));
    assert!(!c.is_subset(&sum(&[1, 5])));
    assert!(c.same(&sum(&[3, 5, 1])));
    assert_eq!(c.union(&sum(&[2, 6])).inner, vec![1, 2, 3, 5, 6]);
    let mut d = c.clone();
    d.remove(1);
    assert_eq!(d.inner, vec![3, 5]);
    assert!(Sum::new().is_empty());
}

#[test]
fn transitive_chain_collapse() {
    let db = products(&[(0, &[&[1]]), (1, &[&[2]]), (2, &[&[3]]), (3, &[&[4]]), (4, &[&[5]])]);
    assert!(db.implies_test(&sum(&[0]), &sum(&[5])));
    assert!(!db.implies_test(&sum(&[5]), &sum(&[0])));
}

#[test]
fn redundant_clause_elimination() {
    let mut db = products(&[(0, &[&[1, 2]]), (1, &[&[3]]), (2, &[&[3]])]);
    db.minimize();
    assert_eq!(clauses(&db, 0), vec![vec![1, 2]]);
    let mut db = products(&[(0, &[&[1, 2], &[1, 2]]), (1, &[&[3]]), (2, &[&[3]])]);
    db.minimize();
    assert_eq!(clauses(&db, 0), vec![vec![1, 2]]);
}

#[test]
fn redundant_symbol_elimination() {
    let mut db = products(&[(0, &[&[1, 2]]), (1, &[&[2]])]);
    assert_eq!(db.find_redundant(), Some((0, 0, 1)));
    db.minimize();
    assert_eq!(clauses(&db, 0), vec![vec![2]]);
    assert_eq!(db.find_redundant(), None);
    assert_eq!(db.find_thingy(), None);
}

#[test]
fn cycle_safety() {
    let db = products(&[(0, &[&[1]]), (1, &[&[2]]), (2, &[&[0]])]);
    assert!(db.implies_test(&sum(&[0]), &sum(&[1])));
    assert!(!db.implies_test(&sum(&[0]), &sum(&[3])));
    let mut db = db;
    db.minimize();
    assert_eq!(clauses(&db, 0), vec![vec![1]]);
}

#[test]
fn forbidden_clause_is_skipped() {
    let db = products(&[(0, &[&[1], &[1, 2]])]);
    assert!(db.implies(&sum(&[0]), &sum(&[1, 2]), Some((0, 1))));
    assert!(!db.implies(&sum(&[0]), &sum(&[1]), Some((0, 0))));
    assert_eq!(db.find_thingy(), Some((0, 1)));
}

#[test]
fn minimize_is_idempotent() {
    let mut once = products(&[(0, &[&[1], &[1, 2], &[2, 3]]), (1, &[&[4]]), (5, &[&[1, 4], &[4]])]);
    once.minimize();
    let first: Vec<Vec<Vec<usize>>> = [0, 1, 5].iter().map(|k| clauses(&once, *k)).collect();
    once.minimize();
    let second: Vec<Vec<Vec<usize>>> = [0, 1, 5].iter().map(|k| clauses(&once, *k)).collect();
    assert_eq!(first, second);
    assert_eq!(first, vec![vec![vec![1], vec![2, 3]], vec![vec![4]], vec![vec![4]]]);
}

#[test]
fn minimize_shrinks() {
    let cases: Vec<Products> = vec![
        products(&[(0, &[&[1], &[1, 2], &[2, 3]]), (1, &[&[4]])]),
        products(&[(0, &[&[1, 2]]), (1, &[&[2]])]),
        products(&[(0, &[&[1, 2], &[1, 2], &[3]]), (3, &[&[1]])]),
    ];
    for mut db in cases {
        let keys: Vec<usize> = db.entries.iter().map(|(k, _)| *k).collect();
        let before: Vec<(usize, usize)> = keys
            .iter()
            .map(|k| {
                let c = clauses(&db, *k);
                (c.len(), c.iter().map(|x| x.len()).sum())
            })
            .collect();
        let total_before = db.len();
        db.minimize();
        for (i, k) in keys.iter().enumerate() {
            let c = clauses(&db, *k);
            assert!(c.len() <= before[i].0);
            assert!(c.iter().map(|x| x.len()).sum::<usize>() <= before[i].1);
        }
        assert!(db.len() <= total_before);
    }
}

#[test]
fn minimize_keeps_models() {
    let cases: Vec<(Products, usize)> = vec![
        (products(&[(0, &[&[1], &[1, 2], &[2, 3]])]), 4),
        (products(&[(0, &[&[1, 2]]), (1, &[&[2]])]), 3),
        (products(&[(0, &[&[1, 2], &[1, 2]]), (1, &[&[3]]), (2, &[&[3]])]), 4),
        (products(&[(0, &[&[1]]), (1, &[&[2]]), (2, &[&[3], &[0]])]), 4),
        (products(&[(0, &[&[1, 2, 3]]), (1, &[&[2]]), (3, &[&[1], &[4]])]), 5),
    ];
    for (mut db, n) in cases {
        let before = models(&db, n);
        db.minimize();
        assert_eq!(models(&db, n), before);
    }
}

#[test]
fn count_of_symbols() {
    let db = products(&[(0, &[&[1, 2], &[3]]), (1, &[&[4]])]);
    assert_eq!(db.len(), 4);
}

#[test]
fn end_to_end() {
    let tree = PrerequisiteTree::all(vec![
        leaf("B"),
        PrerequisiteTree::any(vec![leaf("C"), PrerequisiteTree::all(vec![leaf("B"), leaf("D")])]),
    ]);
    let mut table = SymbolTable::new();
    let out = minimize(&vec![(course("CSCI", "A"), tree)], &mut table);
    assert_eq!(out.len(), 1);
    match &out[0].0 {
        Qualification::Course(c) => assert_eq!(c.number, "A"),
        _ => panic!("wrong key"),
    }
    match out[0].1.as_ref().unwrap().as_ref().unwrap() {
        PrerequisiteTree::Operator(Operator::All, children) => {
            assert_eq!(children.len(), 2);
            assert_eq!(leaf_number(&children[0]), "B");
            match &children[1] {
                PrerequisiteTree::Operator(Operator::Any, alternatives) => {
                    let names: Vec<String> = alternatives.iter().map(leaf_number).collect();
                    assert_eq!(names, vec!["C".to_string(), "D".to_string()]);
                }
                other => panic!("unexpected {:?}", other),
            }
        }
        other => panic!("unexpected {:?}", other),
    }
}

#[test]
fn end_to_end_uses_other_requirements() {
    let a = PrerequisiteTree::all(vec![leaf("B"), leaf("C")]);
    let b = leaf("C");
    let mut table = SymbolTable::new();
    let out = minimize(&vec![(course("CSCI", "A"), a), (course("CSCI", "B"), b)], &mut table);
    assert_eq!(out.len(), 2);
    for (key, tree) in &out {
        let tree = tree.as_ref().unwrap().as_ref().unwrap();
        match key {
            Qualification::Course(c) if c.number == "A" => assert_eq!(leaf_number(tree), "B"),
            Qualification::Course(c) if c.number == "B" => assert_eq!(leaf_number(tree), "C"),
            _ => panic!("wrong key"),
        }
    }
}

#[test]
fn unsatisfiable_and_vacuous_formulas() {
    let mut table = SymbolTable::new();
    let s = table.intern(&course("MATH", "0100"));
    assert_eq!(table.intern(&course("MATH", "0100")), s);
    assert_eq!(table.len(), 1);
    assert!(sum_into_tree(Sum::new(), &table).is_none());
    assert_eq!(product_into_tree(&Product::or_identity(), &table).unwrap_err(), MinimizeError::Unsatisfiable);
    assert!(product_into_tree(&Product::and_identity(), &table).unwrap().is_none());
    let single = sum_into_tree(Sum::singleton(s), &table).unwrap();
    assert_eq!(leaf_number(&single), "0100");
    let empty_any = PrerequisiteTree::any(vec![]);
    let out = minimize(&vec![(course("MATH", "0200"), empty_any)], &mut table);
    assert_eq!(out.len(), 1);
    assert_eq!(out[0].1.as_ref().unwrap_err(), &MinimizeError::Unsatisfiable);
    let empty_all = PrerequisiteTree::all(vec![]);
    let out = minimize(&vec![(course("MATH", "0300"), empty_all)], &mut table);
    assert_eq!(out.len(), 1);
    assert!(out[0].1.as_ref().unwrap().is_none());
    let covered = PrerequisiteTree::all(vec![leaf("B")]);
    let out = minimize(&vec![(course("CSCI", "A"), covered), (course("CSCI", "B"), PrerequisiteTree::all(vec![]))], &mut table);
    assert_eq!(out.len(), 2);
    for (key, result) in &out {
        match key {
            Qualification::Course(c) if c.number == "A" => assert_eq!(leaf_number(result.as_ref().unwrap().as_ref().unwrap()), "B"),
            Qualification::Course(c) if c.number == "B" => assert!(result.as_ref().unwrap().is_none()),
            _ => panic!("wrong key"),
        }
    }
}

#[test]
fn symbol_table_lookup() {
    let mut table = SymbolTable::new();
    let a = table.intern(&course("MATH", "0100"));
    let b = table.intern(&Qualification::ExamScore(ExamScore {
        exam: "AP Calculus".to_string(),
        score: 4,
    }));
    assert_ne!(a, b);
    assert_eq!(table.lookup(&course("MATH", "0100")), Some(a));
    assert_eq!(table.lookup(&course("MATH", "0200")), None);
    match table.resolve(b) {
        Qualification::ExamScore(e) => assert_eq!(e.score, 4),
        _ => panic!("wrong qualification"),
    }
}

#[test]
fn course_code_text() {
    let code = CourseCode::new("MATH".to_string(), "0100".to_string()).unwrap();
    assert_eq!(code.subject(), "MATH");
    assert_eq!(code.to_string(), "MATH 0100");
}

#[test]
fn course_code_from_text() {
    let code = CourseCode::try_from("MATH 0100").unwrap();
    assert_eq!(code.subject, "MATH");
    assert_eq!(code.number, "0100");
    assert!(CourseCode::try_from("MATH").is_err());
    assert!(CourseCode::try_from("MATH 0100 X").is_err());
    assert!(CourseCode::try_from("").is_err());
}

#[test]
fn output_clauses_in_canonical_order() {
    let sorted = product(&[&[3, 4], &[1, 5], &[1, 2], &[2]]).canonical();
    let got: Vec<Vec<usize>> = sorted.clauses.iter().map(|c| c.inner.clone()).collect();
    assert_eq!(got, vec![vec![1, 2], vec![1, 5], vec![2], vec![3, 4]]);

    let first = PrerequisiteTree::all(vec![PrerequisiteTree::any(vec![leaf("D"), leaf("C")]), leaf("B")]);
    let second = PrerequisiteTree::all(vec![leaf("B"), PrerequisiteTree::any(vec![leaf("C"), leaf("D")])]);
    let mut results = Vec::new();
    for tree in [first, second] {
        let mut table = SymbolTable::new();
        table.intern(&course("CSCI", "A"));
        table.intern(&course("CSCI", "B"));
        table.intern(&course("CSCI", "C"));
        table.intern(&course("CSCI", "D"));
        let out = minimize(&vec![(course("CSCI", "A"), tree)], &mut table);
        match out[0].1.as_ref().unwrap().as_ref().unwrap() {
            PrerequisiteTree::Operator(Operator::All, children) => {
                let first_child = leaf_number(&children[0]);
                let second_child: Vec<String> = match &children[1] {
                    PrerequisiteTree::Operator(Operator::Any, cs) => cs.iter().map(leaf_number).collect(),
                    other => panic!("unexpected {:?}", other),
                };
                results.push((first_child, second_child));
            }
            other => panic!("unexpected {:?}", other),
        }
    }
    assert_eq!(results[0], results[1]);
    assert_eq!(results[0], ("B".to_string(), vec!["C".to_string(), "D".to_string()]));
}

#[test]
fn qualification_text() {
    assert_eq!(Operator::Any.to_string(), "any");
    assert_eq!(Operator::All.to_string(), "all");
    let exam = Qualification::ExamScore(ExamScore { exam: "AP Calculus".to_string(), score: 4 });
    assert_eq!(exam.to_string(), "AP Calculus on '4'");
    assert_eq!(exam.rank(), Some(4));
    let math = course("MATH", "0100");
    assert_eq!(math.to_string(), "MATH 0100");
    assert_eq!(math.rank(), None);
    assert_eq!(u32_text(0), "0");
    assert_eq!(u32_text(1200), "1200");
    assert_eq!(u32_text(4294967295), "4294967295");
}

#[test]
fn minimize_orders_clauses() {
    let mut db = products(&[(0, &[&[3, 4], &[1, 2], &[2, 5]])]);
    db.minimize();
    assert_eq!(clauses(&db, 0), vec![vec![1, 2], vec![2, 5], vec![3, 4]]);
    let mut again = products(&[(0, &[&[2, 5], &[3, 4], &[1, 2]])]);
    again.minimize();
    assert_eq!(clauses(&again, 0), clauses(&db, 0));
}
