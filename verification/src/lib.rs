//! Statistics over named exam grades: competition ranks, percentiles,
//! aggregate descriptive statistics, sorting, filtering and histogram
//! bucketing, with machine-checked contracts.
//!
//! Grades are fixed-point integers: the caller picks a scale (for example
//! hundredths of a point) and every grade, the configured maximum grade and
//! the histogram step are expressed in those units. Derived quantities that
//! are not integers (mean, median, percentile, pass rate, standard deviation)
//! are returned as exact [`fraction::Fraction`] values.

pub mod exam;
pub mod filter;
pub mod fraction;
pub mod histogram;
pub mod laws;
pub mod rank;
pub mod sorting;
pub mod stats;
pub mod student;
pub mod textnorm;

pub use exam::Exam;
pub use fraction::Fraction;
pub use stats::ExamStatistics;
pub use student::Student;
