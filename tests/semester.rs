use prereq_logic::process::{percent_encode, yes_or_no, Semester, SemesterRange};

#[test]
fn semseter_range() {
    let text = "05, 06, 07, 08, 09, 10, 11, 12 or 13";
    let range = SemesterRange::try_from(text).unwrap();
    assert_eq!(range.to_string(), "05, 06, 07, 08, 09, 10, 11, 12, 13");
    let compl = range.complement();
    assert_eq!(compl.to_string(), "01, 02, 03, 04, GM, GP");
}

#[test]
fn semseter_range2() {
    let text = "05, 06, 07, 08, 09, 10, 11, 12 or 13";
    let range = SemesterRange::try_from(text).unwrap();
    assert_eq!(
        range.to_string(),
        "05, 06, 07, 08, 09, 10, 11, 12, 13",
        "{}",
        range.inner
    );
}

#[test]
fn semseter_range3() {
    let range = SemesterRange::empty();
    let range = range.add(Semester::from_str("05").unwrap());
    assert_eq!(range.to_string(), "05", "{}", range.inner);
}

#[test]
fn semseter_range4() {
    let range = SemesterRange::to(4);
    assert_eq!(range.to_string(), "01, 02, 03, 04", "{}", range.inner);
}

#[test]
fn semester_names() {
    assert_eq!(Semester::from_str("GM").unwrap().inner, 13);
    assert_eq!(Semester::from_str("GP").unwrap().inner, 14);
    assert_eq!(Semester::from_str("F2").unwrap().inner, 1);
    assert_eq!(Semester::from_str("16").unwrap().inner, 15);
    assert_eq!(Semester::from_str("01").unwrap().inner, 0);
    assert!(Semester::from_str("00").is_err());
    assert!(Semester::from_str("17").is_err());
    assert!(Semester::from_str("").is_err());
    assert!(Semester::from_str("5a").is_err());
    assert!(Semester::from_str("123456").is_err());
}

#[test]
fn semester_range_parse_errors() {
    assert!(SemesterRange::try_from("01, 02 or 99").is_err());
    assert!(SemesterRange::try_from("01, XX").is_err());
    let range = SemesterRange::try_from("03 or GM").unwrap();
    assert_eq!(range.to_string(), "03, GM");
}

#[test]
fn semester_range_sets() {
    assert!(SemesterRange::full().is_full());
    assert!(!SemesterRange::empty().is_full());
    assert_eq!(SemesterRange::empty().to_string(), "");
    assert_eq!(SemesterRange::to(15).inner, SemesterRange::full().inner);
    assert_eq!(SemesterRange::undergraduate().to_string(), "01, 02, 03, 04, 05, 06, 07, 08");
    assert_eq!(SemesterRange::graduate().to_string(), "09, 10, 11, 12, 13, GM, GP");
    assert_eq!(SemesterRange::undergraduate().complement().inner, SemesterRange::graduate().inner);
    let both = SemesterRange::to(6).intersection(SemesterRange::undergraduate().complement().complement());
    assert_eq!(both.to_string(), "01, 02, 03, 04, 05, 06");
    let none = SemesterRange::to(4).intersection(SemesterRange::graduate());
    assert_eq!(none.to_string(), "");
    let listed: Vec<u16> = SemesterRange::to(3).semesters().iter().map(|s| s.inner).collect();
    assert_eq!(listed, vec![0, 1, 2]);
}

#[test]
fn flags_and_url_text() {
    assert_eq!(yes_or_no("Y"), Some(true));
    assert_eq!(yes_or_no("N"), Some(false));
    assert_eq!(yes_or_no("y"), None);
    assert_eq!(yes_or_no(""), None);
    assert_eq!(percent_encode("CSCI 0150"), "CSCI%200150");
    assert_eq!(percent_encode("a-b_c.d~e"), "a-b_c.d~e");
    assert_eq!(percent_encode("x/y&z"), "x%2Fy%26z");
    assert_eq!(percent_encode("é"), "%C3%A9");
}

#[test]
fn complement_keeps_the_sixteenth_semester() {
    let range = SemesterRange::empty().add(Semester::from_str("16").unwrap());
    assert_eq!(range.complement().inner, 0xffff);
    assert_eq!(SemesterRange::empty().complement().to_string(), "01, 02, 03, 04, 05, 06, 07, 08, 09, 10, 11, 12, 13, GM, GP");
    assert_eq!(Semester { inner: 99 }.to_string(), "100");
    assert_eq!(Semester { inner: 15 }.to_string(), "16");
    assert_eq!(Semester { inner: 0 }.to_string(), "01");
}
