// Rank, percentile and aggregate statistics, on concrete entry sets.
// Grades are fixed-point integers; these tests use hundredths of a point
// (so 4.65 is written 465 and a ceiling of 10 is 1000).

use exms::exam::Exam;
use exms::fraction::Fraction;
use exms::stats::ExamStatistics;
use exms::student::Student;

fn exam_of(pairs: &[(&str, u32)]) -> Exam {
    let mut students = Vec::new();
    for (name, grade) in pairs {
        students.push(Student::new(name.to_string(), *grade));
    }
    Exam::new(students)
}

fn percentile_of(exam: &Exam, name: &str) -> Fraction {
    for s in exam.students() {
        if s.name == name {
            return s.percentile.unwrap();
        }
    }
    panic!("no entry named {}", name);
}

fn rank_of(exam: &Exam, name: &str) -> u32 {
    for s in exam.students() {
        if s.name == name {
            return s.rank.unwrap();
        }
    }
    panic!("no entry named {}", name);
}

#[test]
fn five_distinct_grades_percentiles() {
    // A 4.65, B 3.60, C 7.94, D 5.03, E 1.96 with ceiling 10.
    let mut exam = exam_of(&[("A", 465), ("B", 360), ("C", 794), ("D", 503), ("E", 196)]);
    exam.set_max_grade(1000);
    assert!(percentile_of(&exam, "A") == Fraction { num: 200, den: 4 }); // 50.0
    assert!(percentile_of(&exam, "B") == Fraction { num: 100, den: 4 }); // 25.0
    assert!(percentile_of(&exam, "C") == Fraction { num: 100, den: 1 }); // 100.0
    assert!(percentile_of(&exam, "D") == Fraction { num: 300, den: 4 }); // 75.0
    assert!(percentile_of(&exam, "E") == Fraction { num: 0, den: 4 }); // 0.0
}

#[test]
fn five_distinct_grades_summary() {
    let mut exam = exam_of(&[("A", 465), ("B", 360), ("C", 794), ("D", 503), ("E", 196)]);
    exam.set_max_grade(1000);
    let s = exam.summary();
    assert_eq!(s.total_students, 5);
    // mean 4.636 = 2318/5 hundredths
    assert!(s.mean == Fraction { num: 2318, den: 5 });
    // passed: grades at least 5.00 are C (7.94) and D (5.03)
    assert_eq!(s.passed_students, 2);
    assert_eq!(s.failed_students, 3);
    assert!(s.pass_rate == Fraction { num: 200, den: 5 }); // 40%
    assert_eq!(s.highest_grade, 794);
    assert_eq!(s.lowest_grade, 196);
    assert_eq!(s.max_grade, 1000);
    // all grades distinct: the worst rank is 5
    assert_eq!(s.highest_rank, 5);
    // median of [196, 360, 465, 503, 794] is 465
    assert!(s.median == Fraction { num: 465, den: 1 });
}

#[test]
fn tied_grades_share_rank_and_percentile() {
    // A 5.0, B 5.0, C 10.0 with ceiling 10.
    let mut exam = exam_of(&[("A", 500), ("B", 500), ("C", 1000)]);
    exam.set_max_grade(1000);
    assert_eq!(rank_of(&exam, "C"), 1);
    assert_eq!(rank_of(&exam, "A"), 2);
    assert_eq!(rank_of(&exam, "B"), 2);
    assert!(percentile_of(&exam, "C") == Fraction { num: 100, den: 1 }); // 100.0
    // A and B share percentile 50.0
    let pa = percentile_of(&exam, "A");
    let pb = percentile_of(&exam, "B");
    assert!(pa == pb);
    assert!(pa == Fraction { num: 100, den: 2 });
    assert!(pa.eq_value(&Fraction { num: 50, den: 1 }));
    assert_eq!(exam.summary().highest_rank, 2);
}

#[test]
fn maximum_grade_always_percentile_100() {
    // Two entries tied at the maximum both get exactly 100.
    let exam = exam_of(&[("x", 7), ("y", 9), ("z", 9)]);
    assert!(percentile_of(&exam, "y") == Fraction { num: 100, den: 1 });
    assert!(percentile_of(&exam, "z") == Fraction { num: 100, den: 1 });
}

#[test]
fn single_entry_gets_percentile_100_and_rank_1() {
    // n == 1: the sole entry is the maximum; no division happens.
    let exam = exam_of(&[("only", 123)]);
    assert_eq!(rank_of(&exam, "only"), 1);
    assert!(percentile_of(&exam, "only") == Fraction { num: 100, den: 1 });
    let s = exam.summary();
    assert!(s.median == Fraction { num: 123, den: 1 });
    assert!(s.mean == Fraction { num: 123, den: 1 });
}

#[test]
fn empty_exam_all_aggregates_zero() {
    // Empty set: every aggregate is zero by policy, nothing divides by zero.
    let exam = exam_of(&[]);
    let s = exam.summary();
    assert_eq!(s.total_students, 0);
    assert_eq!(s.passed_students, 0);
    assert_eq!(s.failed_students, 0);
    assert!(s.pass_rate == Fraction { num: 0, den: 1 });
    assert!(s.mean == Fraction { num: 0, den: 1 });
    assert!(s.median == Fraction { num: 0, den: 1 });
    assert!(s.std_dev == Fraction { num: 0, den: 1 });
    assert_eq!(s.highest_grade, 0);
    assert_eq!(s.lowest_grade, 0);
    assert_eq!(s.highest_rank, 0);
}

#[test]
fn ranks_step_by_one_in_descending_order() {
    // Dense competition ranking: [9, 9, 7, 7, 3] ranks as [1, 1, 2, 2, 3].
    let mut exam = exam_of(&[("p", 700), ("q", 900), ("r", 300), ("s", 900), ("t", 700)]);
    exam.sort_by_grade();
    let ranks: Vec<u32> = exam.students().iter().map(|s| s.rank.unwrap()).collect();
    assert_eq!(ranks, vec![1, 1, 2, 2, 3]);
    assert_eq!(exam.summary().highest_rank, 3);
}

#[test]
fn median_of_even_count_averages_middles() {
    let exam = exam_of(&[("a", 100), ("b", 400), ("c", 300), ("d", 200)]);
    // sorted: [100, 200, 300, 400]; median (200 + 300) / 2
    assert!(exam.summary().median == Fraction { num: 500, den: 2 });
}

#[test]
fn std_dev_exact_on_two_points() {
    // grades 0.0 and 2.0: mean 1.0, population std dev exactly 1.0.
    let exam = exam_of(&[("lo", 0), ("hi", 200)]);
    let s = exam.summary();
    assert!(s.mean == Fraction { num: 200, den: 2 });
    // n·Σg² − (Σg)² = 2·40000 − 40000 = 40000, isqrt = 200, so 200/2 = 1.00
    assert!(s.std_dev == Fraction { num: 200, den: 2 });
}

#[test]
fn std_dev_floors_inexact_roots() {
    // grades 0.00 and 1.00: true std dev is 0.50 => disc = 10000, isqrt 100.
    let exam = exam_of(&[("lo", 0), ("hi", 100)]);
    assert!(exam.summary().std_dev == Fraction { num: 100, den: 2 });
    // grades 0, 1, 2 (hundredths): disc = 3·5 − 9 = 6, isqrt(6) = 2 => 2/3
    let tiny = exam_of(&[("a", 0), ("b", 1), ("c", 2)]);
    assert!(tiny.summary().std_dev == Fraction { num: 2, den: 3 });
}

#[test]
fn pass_threshold_is_half_the_ceiling() {
    // ceiling 9: the threshold is 4.5, met by 5 and 9 but not 4.
    let mut exam = exam_of(&[("a", 4), ("b", 5), ("c", 9)]);
    exam.set_max_grade(9);
    let s = exam.summary();
    assert_eq!(s.passed_students, 2);
    assert_eq!(s.failed_students, 1);
}

#[test]
fn statistics_constructor_attaches_annotations() {
    let mut students = vec![
        Student::new("a".to_string(), 100),
        Student::new("b".to_string(), 300),
    ];
    assert!(students[0].rank.is_none());
    let s = ExamStatistics::new(&mut students, 400);
    assert_eq!(students[0].rank, Some(2));
    assert_eq!(students[1].rank, Some(1));
    assert!(students[1].percentile.unwrap() == Fraction { num: 100, den: 1 });
    assert_eq!(s.total_students, 2);
    assert_eq!(s.passed_students, 1); // only 300 >= 400/2
    assert_eq!(s.max_grade, 400);
}

#[test]
fn title_and_ceiling_are_stored() {
    let mut exam = exam_of(&[("a", 1)]);
    assert!(exam.title().is_none());
    assert_eq!(exam.max_grade(), 10);
    exam.set_title("Algebra".to_string());
    exam.set_max_grade(2000);
    assert_eq!(exam.title().as_deref(), Some("Algebra"));
    assert_eq!(exam.max_grade(), 2000);
}

#[test]
fn fraction_value_equality_crosses_representations() {
    let half_a = Fraction { num: 100, den: 2 };
    let half_b = Fraction { num: 50, den: 1 };
    assert!(half_a != half_b);
    assert!(half_a.eq_value(&half_b));
    assert!(!half_a.eq_value(&Fraction { num: 51, den: 1 }));
}
