use prereq_logic::parse_prerequisite_string::{parse_prerequisite_string, parse_tokens, parse_u32, tokenize, PrerequisiteStringError, TokenKind};
use prereq_logic::restrictions::{Operator, PrerequisiteTree, Qualification};

fn course_of(tree: &PrerequisiteTree) -> String {
    match tree {
        PrerequisiteTree::Qualification(Qualification::Course(c)) => format!("{} {}", c.subject, c.number),
        PrerequisiteTree::Qualification(Qualification::ExamScore(e)) => format!("{}={}", e.exam, e.score),
        other => panic!("not a leaf: {:?}", other),
    }
}

fn children(tree: &PrerequisiteTree, op: Operator) -> Vec<String> {
    match tree {
        PrerequisiteTree::Operator(o, cs) if *o == op => cs.iter().map(course_of).collect(),
        other => panic!("unexpected {:?}", other),
    }
}

#[test]
fn parse_and() {
    let tree = parse_prerequisite_string("CSCI 0150 and CSCI 0160").unwrap().unwrap();
    assert_eq!(children(&tree, Operator::All), vec!["CSCI 0150", "CSCI 0160"]);
}

#[test]
fn parse_commas_take_following_operator() {
    let tree = parse_prerequisite_string("CSCI 0150, 0160 or MATH 0100").unwrap().unwrap();
    assert_eq!(children(&tree, Operator::Any), vec!["CSCI 0150", "CSCI 0160", "MATH 0100"]);
    let tree = parse_prerequisite_string("CSCI 0150, 0160 and 0170").unwrap().unwrap();
    assert_eq!(children(&tree, Operator::All), vec!["CSCI 0150", "CSCI 0160", "CSCI 0170"]);
    assert!(parse_prerequisite_string("CSCI 0150, 0160, and 0170").is_err());
}

#[test]
fn parse_parentheses_and_exam() {
    let tree = parse_prerequisite_string("(CSCI 0150 and CSCI 0160) or minimum score of 4 in 'AP Calculus'")
        .unwrap()
        .unwrap();
    match &tree {
        PrerequisiteTree::Operator(Operator::Any, cs) => {
            assert_eq!(cs.len(), 2);
            assert_eq!(children(&cs[0], Operator::All), vec!["CSCI 0150", "CSCI 0160"]);
            assert_eq!(course_of(&cs[1]), "AP Calculus=4");
        }
        other => panic!("unexpected {:?}", other),
    }
}

#[test]
fn parse_waiver_only() {
    let tree = parse_prerequisite_string("minimum score of WAIVE in 'Graduate Student PreReq'").unwrap();
    assert!(tree.is_none());
    let tree = parse_prerequisite_string("CSCI 0150 or minimum score of WAIVE in 'Graduate Student PreReq'")
        .unwrap()
        .unwrap();
    assert_eq!(course_of(&tree), "CSCI 0150");
}

#[test]
fn parse_errors() {
    assert!(matches!(
        parse_prerequisite_string("0150"),
        Err(PrerequisiteStringError::NoSubjectContext { .. })
    ));
    assert!(matches!(
        parse_prerequisite_string("%"),
        Err(PrerequisiteStringError::InvalidToken { start: 0 })
    ));
    assert!(parse_prerequisite_string("CSCI 0150 and").is_err());
    assert!(parse_prerequisite_string("(CSCI 0150").is_err());
    assert!(matches!(
        parse_prerequisite_string(""),
        Err(PrerequisiteStringError::ExpectedLeftParenOrQualification { .. })
    ));
    assert!(matches!(
        parse_prerequisite_string("CSCI 0150 CSCI 0160"),
        Err(PrerequisiteStringError::ExpectedToken { .. })
    ));
}

#[test]
fn tokens_end_with_eoi() {
    let tokens = tokenize("MATH 0100 or MATH 0170").unwrap();
    assert_eq!(tokens.len(), 4);
    assert!(matches!(tokens[3].kind, TokenKind::Eoi));
    assert!(matches!(tokens[1].kind, TokenKind::Operator(Operator::Any)));
    assert_eq!(tokens[0].span.start, 0);
    assert_eq!(tokens[0].span.end, 9);
}

#[test]
fn decimal_text() {
    assert_eq!(parse_u32("4"), Some(4));
    assert_eq!(parse_u32("4294967295"), Some(4294967295));
    assert_eq!(parse_u32("4294967296"), None);
    assert_eq!(parse_u32(""), None);
    assert_eq!(parse_u32("4a"), None);
}

#[test]
fn tokens_without_end_of_input() {
    assert!(matches!(parse_tokens(vec![]), Err(PrerequisiteStringError::EarlyEoi)));
    let mut tokens = tokenize("MATH 0100").unwrap();
    tokens.pop();
    assert!(matches!(parse_tokens(tokens), Err(PrerequisiteStringError::EarlyEoi)));
}

#[test]
fn bare_number_takes_last_subject() {
    let tokens = tokenize("CSCI 0150 and 0160").unwrap();
    assert_eq!(tokens.len(), 4);
    match (&tokens[0].kind, &tokens[1].kind, &tokens[2].kind, &tokens[3].kind) {
        (
            TokenKind::Qualification(Qualification::Course(a)),
            TokenKind::Operator(Operator::All),
            TokenKind::Qualification(Qualification::Course(b)),
            TokenKind::Eoi,
        ) => {
            assert_eq!((a.subject.as_str(), a.number.as_str()), ("CSCI", "0150"));
            assert_eq!((b.subject.as_str(), b.number.as_str()), ("CSCI", "0160"));
        }
        other => panic!("unexpected {:?}", other),
    }
}
