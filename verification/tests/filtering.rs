// Name filtering: case-insensitive substring queries, intersection with
// other entry sets, and re-derivation of rank/percentile after removal.

use exms::exam::Exam;
use exms::fraction::Fraction;
use exms::student::Student;

fn exam_of(pairs: &[(&str, u32)]) -> Exam {
    let mut students = Vec::new();
    for (name, grade) in pairs {
        students.push(Student::new(name.to_string(), *grade));
    }
    Exam::new(students)
}

fn names(exam: &Exam) -> Vec<String> {
    exam.students().iter().map(|s| s.name.clone()).collect()
}

#[test]
fn substring_query_keeps_matching_names() {
    let mut exam = exam_of(&[("Joan", 460), ("Jose", 360), ("David", 794)]);
    exam.filter_by_name(&vec!["jo".to_string()]);
    assert_eq!(names(&exam), vec!["Joan", "Jose"]);
}

#[test]
fn queries_are_case_insensitive_both_ways() {
    let mut exam = exam_of(&[("joan", 1), ("MARTA", 2), ("David", 3)]);
    exam.filter_by_name(&vec!["JO".to_string(), "marta".to_string()]);
    assert_eq!(names(&exam), vec!["joan", "MARTA"]);
}

#[test]
fn multiple_queries_are_a_logical_or() {
    let mut exam = exam_of(&[("Joan", 460), ("Jose", 360), ("David", 794)]);
    exam.filter_by_name(&vec!["joan".to_string(), "jorge".to_string(), "jim".to_string()]);
    assert_eq!(names(&exam), vec!["Joan"]);
}

#[test]
fn queries_match_accented_names_byte_for_byte() {
    // Matching does not fold accents: "josé" is a substring of "José"
    // (after lowercasing) but not of "Jose".
    let mut exam = exam_of(&[("José", 1), ("Jose", 2)]);
    exam.filter_by_name(&vec!["josé".to_string()]);
    assert_eq!(names(&exam), vec!["José"]);
}

#[test]
fn no_match_empties_the_exam() {
    let mut exam = exam_of(&[("Joan", 460), ("Jose", 360)]);
    exam.filter_by_name(&vec!["zz".to_string()]);
    assert_eq!(exam.students().len(), 0);
    assert_eq!(exam.summary().total_students, 0);
}

#[test]
fn empty_query_matches_every_name() {
    let mut exam = exam_of(&[("Joan", 460), ("Jose", 360)]);
    exam.filter_by_name(&vec![String::new()]);
    assert_eq!(exam.students().len(), 2);
}

#[test]
fn filtering_recomputes_percentiles() {
    let mut exam = exam_of(&[("ana", 100), ("bob", 200), ("carol", 300)]);
    exam.filter_by_name(&vec!["ana".to_string(), "bob".to_string()]);
    // Percentiles are functions of the current entry set: with carol gone,
    // bob holds the maximum.
    let bob = &exam.students()[1];
    assert_eq!(bob.name, "bob");
    assert!(bob.percentile.unwrap() == Fraction { num: 100, den: 1 });
    assert_eq!(bob.rank.unwrap(), 1);
    let ana = &exam.students()[0];
    assert!(ana.percentile.unwrap() == Fraction { num: 0, den: 1 });
    assert_eq!(ana.rank.unwrap(), 2);
}

#[test]
fn intersection_requires_membership_in_every_set() {
    let mut exam = exam_of(&[("Ana", 100), ("Bob", 200), ("Carol", 300)]);
    let first = exam_of(&[("bob", 1), ("ANA", 2), ("dave", 3)]);
    let second = exam_of(&[("ana", 5), ("bob", 6), ("carol", 7)]);
    exam.filter_by_exams(&vec![first, second]);
    // Carol is missing from the first set, so only Ana and Bob survive.
    assert_eq!(names(&exam), vec!["Ana", "Bob"]);
}

#[test]
fn intersection_matches_whole_names_only() {
    let mut exam = exam_of(&[("Jo", 100), ("Joan", 200)]);
    let other = exam_of(&[("jo", 1)]);
    exam.filter_by_exams(&vec![other]);
    // "jo" equals "Jo" case-insensitively but is only a substring of
    // "Joan": exact matching keeps "Jo" alone.
    assert_eq!(names(&exam), vec!["Jo"]);
}

#[test]
fn intersection_with_no_sets_keeps_everything() {
    let mut exam = exam_of(&[("Ana", 100), ("Bob", 200)]);
    exam.filter_by_exams(&vec![]);
    assert_eq!(exam.students().len(), 2);
}
