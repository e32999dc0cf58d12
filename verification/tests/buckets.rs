// Histogram bucketing: half-open buckets over [0, max_grade], ceiling and
// overflow clamping into the last bucket, and the degenerate zero ceiling.

use exms::exam::Exam;
use exms::student::Student;

fn exam_of(pairs: &[(&str, u32)]) -> Exam {
    let mut students = Vec::new();
    for (name, grade) in pairs {
        students.push(Student::new(name.to_string(), *grade));
    }
    Exam::new(students)
}

#[test]
fn ceiling_grade_lands_in_last_bucket() {
    // max_grade 10, step 1: a grade of exactly 10 belongs to [9, 10),
    // not to an eleventh bucket.
    let mut exam = exam_of(&[("top", 10)]);
    exam.set_max_grade(10);
    let h = exam.histogram(Some(1));
    assert_eq!(h.buckets.len(), 10);
    assert_eq!(h.buckets[9], 1);
    assert!(!h.overflow);
}

#[test]
fn overflowing_grade_clamps_and_flags() {
    // A grade of 11 against a ceiling of 10 is clamped into [9, 10) and
    // raises the overflow flag; counts are otherwise unaffected.
    let mut exam = exam_of(&[("top", 10), ("over", 11)]);
    exam.set_max_grade(10);
    let h = exam.histogram(Some(1));
    assert_eq!(h.buckets.len(), 10);
    assert_eq!(h.buckets[9], 2);
    assert!(h.overflow);
}

#[test]
fn interior_grades_fill_their_buckets() {
    let mut exam = exam_of(&[("a", 0), ("b", 1), ("c", 15), ("d", 19), ("e", 25)]);
    exam.set_max_grade(30);
    let h = exam.histogram(Some(10));
    // buckets [0,10), [10,20), [20,30): grades 0 and 1; 15 and 19; 25.
    assert_eq!(h.buckets.len(), 3);
    assert_eq!(h.buckets[0], 2);
    assert_eq!(h.buckets[1], 2);
    assert_eq!(h.buckets[2], 1);
    assert!(!h.overflow);
}

#[test]
fn bucket_count_rounds_up() {
    let mut exam = exam_of(&[]);
    exam.set_max_grade(25);
    let h = exam.histogram(Some(10));
    // ceil(25 / 10) = 3 buckets.
    assert_eq!(h.buckets.len(), 3);
}

#[test]
fn step_defaults_to_one_unit() {
    let mut exam = exam_of(&[("a", 3)]);
    exam.set_max_grade(5);
    let h = exam.histogram(None);
    assert_eq!(h.buckets.len(), 5);
    assert_eq!(h.buckets[3], 1);
}

#[test]
fn zero_ceiling_still_yields_one_bucket() {
    // max_grade 0 would make every bucket degenerate; one bucket catches
    // everything instead, and positive grades count as overflow.
    let mut exam = exam_of(&[("a", 0), ("b", 2)]);
    exam.set_max_grade(0);
    let h = exam.histogram(None);
    assert_eq!(h.buckets.len(), 1);
    assert_eq!(h.buckets[0], 2);
    assert!(h.overflow);
}
