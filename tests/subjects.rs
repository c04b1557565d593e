use prereq_logic::subject::{Subject, SubjectCategory, SubjectInfo, Subjects};

fn info(name: &str, category: SubjectCategory, color: &str) -> SubjectInfo {
    SubjectInfo { name: name.to_string(), category, color: color.to_string() }
}

#[test]
fn subject_lookup() {
    let subjects = Subjects::from_entries(vec![
        (Subject::from_str("MATH"), info("Mathematics", SubjectCategory::AbstractScience, "ff0000")),
        (Subject::from_str("FREN"), info("French", SubjectCategory::Language, "00ff00")),
        (Subject::from_str("MATH"), info("Applied Mathematics", SubjectCategory::Other, "0000ff")),
    ]);
    assert_eq!(subjects.iter().len(), 2);
    let math = Subject::from_str("MATH");
    assert_eq!(subjects.name(&math), "Applied Mathematics");
    assert_eq!(subjects.category(&math), SubjectCategory::Other);
    assert_eq!(subjects.color(&math), "0000ff");
    assert_eq!(subjects.name(&Subject::from_str("FREN")), "French");
    assert_eq!(math.to_string(), "MATH");
}

#[test]
fn subject_categories() {
    assert_eq!(SubjectCategory::from_str("language"), Ok(SubjectCategory::Language));
    assert_eq!(SubjectCategory::from_str("culture"), Ok(SubjectCategory::Culture));
    assert_eq!(SubjectCategory::from_str("abstract science"), Ok(SubjectCategory::AbstractScience));
    assert_eq!(SubjectCategory::from_str("physical science"), Ok(SubjectCategory::PhysicalScience));
    assert_eq!(SubjectCategory::from_str("other"), Ok(SubjectCategory::Other));
    assert_eq!(SubjectCategory::from_str("Language"), Err(()));
    assert_eq!(SubjectCategory::AbstractScience.to_string(), "abstract science");
    assert_eq!(SubjectCategory::PhysicalScience.to_string(), "Physical Science");
}
