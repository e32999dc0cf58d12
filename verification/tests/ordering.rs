// Sorting: grade order with name tie-break, accent- and case-insensitive
// alphabetical order, and the sort round-trip.

use exms::exam::Exam;
use exms::student::Student;

fn exam_of(pairs: &[(&str, u32)]) -> Exam {
    let mut students = Vec::new();
    for (name, grade) in pairs {
        students.push(Student::new(name.to_string(), *grade));
    }
    Exam::new(students)
}

fn names(exam: &Exam) -> Vec<String> {
    exam.students().iter().map(|s| s.name.clone()).collect()
}

#[test]
fn sort_by_grade_descending() {
    let mut exam = exam_of(&[("joan", 460), ("jose", 360), ("david", 794)]);
    exam.sort_by_grade();
    let grades: Vec<u32> = exam.students().iter().map(|s| s.grade).collect();
    assert_eq!(grades, vec![794, 460, 360]);
}

#[test]
fn sort_by_grade_breaks_ties_alphabetically() {
    let mut exam = exam_of(&[("mona", 500), ("zoe", 800), ("ana", 500), ("liz", 500)]);
    exam.sort_by_grade();
    assert_eq!(names(&exam), vec!["zoe", "ana", "liz", "mona"]);
}

#[test]
fn alphabetic_sort_folds_accents() {
    // "Ábel" folds to "abel", which precedes "Adam"; raw byte order would
    // put "Adam" first because "Á" encodes above ASCII letters.
    let mut exam = exam_of(&[("Adam", 200), ("Ábel", 300)]);
    exam.sort_by_alphabetic_order();
    assert_eq!(names(&exam), vec!["Ábel", "Adam"]);
}

#[test]
fn alphabetic_sort_ignores_case() {
    // Lowercasing happens before comparison; raw byte order would put
    // "ZOE" (uppercase letters sort below lowercase in ASCII) first.
    let mut exam = exam_of(&[("ZOE", 100), ("ana", 200)]);
    exam.sort_by_alphabetic_order();
    assert_eq!(names(&exam), vec!["ana", "ZOE"]);
}

#[test]
fn alphabetic_sort_is_stable() {
    // Equal keys keep their relative order.
    let mut exam = exam_of(&[("ana", 1), ("Ana", 2), ("ANA", 3)]);
    exam.sort_by_alphabetic_order();
    let grades: Vec<u32> = exam.students().iter().map(|s| s.grade).collect();
    assert_eq!(grades, vec![1, 2, 3]);
}

#[test]
fn grade_then_name_then_grade_round_trip() {
    // Sorting by grade, then by name, then by grade again reproduces the
    // grade order exactly, ties included.
    let mut once = exam_of(&[("b", 500), ("a", 500), ("c", 300), ("d", 800)]);
    once.sort_by_grade();
    let expected = names(&once);
    assert_eq!(expected, vec!["d", "a", "b", "c"]);

    let mut thrice = exam_of(&[("b", 500), ("a", 500), ("c", 300), ("d", 800)]);
    thrice.sort_by_grade();
    thrice.sort_by_alphabetic_order();
    thrice.sort_by_grade();
    assert_eq!(names(&thrice), expected);
}

#[test]
fn sorting_keeps_annotations_valid() {
    let mut exam = exam_of(&[("a", 100), ("b", 300), ("c", 200)]);
    exam.sort_by_grade();
    let ranks: Vec<u32> = exam.students().iter().map(|s| s.rank.unwrap()).collect();
    assert_eq!(ranks, vec![1, 2, 3]);
    exam.sort_by_alphabetic_order();
    let by_name: Vec<u32> = exam.students().iter().map(|s| s.rank.unwrap()).collect();
    assert_eq!(by_name, vec![3, 1, 2]);
}
