use cgpa::course::{read_course_weights, CourseGrading};
use cgpa::fmt::Percent;
use cgpa::gpa::{read_gpa_scale, GradePoint};

// Fixtures
fn gpa_scale() -> Vec<String> {
    // Letter, Grade Point, Conversion
    vec![
        "A+, 4.33, 90,100",
        "A , 4.00, 85,89",
        "A-, 3.67, 80,84",
        "B+, 3.33, 76,79",
        "B , 3.00, 72,75",
        "B-, 2.67, 68,71",
        "C+, 2.33, 64,67",
        "C , 2.00, 60,63",
        "C-, 1.67, 56,59",
        "D , 1.00, 50,55",
        "F , 0.00,  0,49",
    ]
    .into_iter()
    .map(String::from)
    .collect::<Vec<String>>()
}

fn course_scale() -> Vec<String> {
    vec![
        "3 Quizzes   , 10%",
        "2 Projects  , 20%",
        "5 Labs      , 20%",
        "Midterm Exam, 20%",
        "Final Exam  , 30%",
    ]
    .into_iter()
    .map(String::from)
    .collect::<Vec<String>>()
}

#[test]
fn test_gpa_scale() {
    let a_plus = GradePoint::new("A+".to_string(), 433, 90, 100);
    let a = GradePoint::new("A".to_string(), 400, 85, 89);

    let lines = gpa_scale().join("\n");
    let scale = read_gpa_scale(&lines);

    assert_eq!(scale.scale.get(0), Some(&a_plus));

    // Check that the bounds are correct for the grading scales
    assert_eq!(scale.calc_gpa(&90), Some(a_plus.clone()));
    assert_eq!(scale.calc_gpa(&100), Some(a_plus.clone()));
    assert_eq!(scale.calc_gpa(&89), Some(a));
}

#[test]
fn test_course_scale() {
    let quizzes = CourseGrading {
        title: "3 Quizzes".to_string(),
        percent: Percent {
            percent: "10%".to_string(),
            value: 10,
        },
    };

    let lines = course_scale().join("\n");
    let weights = read_course_weights(&lines);

    assert_eq!(weights.weights.get(0), Some(&quizzes));
}

#[test]
fn scale_resolves_letters_across_bounds() {
    let lines = gpa_scale().join("\n");
    let scale = read_gpa_scale(&lines);
    assert_eq!(scale.calc_gpa(&90).unwrap().letter(), "A+");
    assert_eq!(scale.calc_gpa(&100).unwrap().letter(), "A+");
    assert_eq!(scale.calc_gpa(&89).unwrap().letter(), "A");
    assert_eq!(scale.calc_gpa(&84).unwrap().letter(), "A-");
    assert_eq!(scale.calc_gpa(&49).unwrap().letter(), "F");
    assert_eq!(scale.calc_gpa(&0).unwrap().letter(), "F");
}

#[test]
fn scale_lookup_prefers_first_match() {
    let rows = "X, 1.00, 10,90\nY, 2.00, 10,90";
    let scale = read_gpa_scale(rows);
    assert_eq!(scale.scale.len(), 2);
    assert_eq!(scale.calc_gpa(&50).unwrap().letter(), "X");
}

#[test]
fn out_of_range_score_matches_no_bucket() {
    let lines = gpa_scale().join("\n");
    let scale = read_gpa_scale(&lines);
    // Reachable through post-weighted mode: the sum is not clamped to 100.
    assert_eq!(scale.calc_gpa(&105), None);
    assert_eq!(scale.calc_gpa(&101), None);
}

#[test]
fn malformed_scale_row_is_skipped_not_fatal() {
    let rows = "A+, 4.33, 90,100\nA , not a number, 85,89\nshort row\nA-, 3.67, 80,84";
    let scale = read_gpa_scale(rows);
    assert_eq!(scale.scale.len(), 2);
    assert_eq!(scale.scale[0].letter(), "A+");
    assert_eq!(scale.scale[1].letter(), "A-");
}

#[test]
fn malformed_course_row_is_skipped_not_fatal() {
    let rows = "3 Quizzes, 10%\nno percent here\nFinal Exam, banana%\nMidterm, 20%";
    let weights = read_course_weights(rows);
    assert_eq!(weights.weights.len(), 2);
    assert_eq!(weights.weights[0].title, "3 Quizzes");
    assert_eq!(weights.weights[1].title, "Midterm");
}

#[test]
fn empty_input_loads_empty_scales() {
    assert_eq!(read_gpa_scale("").scale.len(), 0);
    assert_eq!(read_course_weights("").weights.len(), 0);
    assert_eq!(read_gpa_scale("\n\n\r\n").scale.len(), 0);
}

#[test]
fn crlf_rows_load_like_lf_rows() {
    let rows = "A+, 4.33, 90,100\r\nA , 4.00, 85,89\r\n";
    let scale = read_gpa_scale(rows);
    assert_eq!(scale.scale.len(), 2);
    assert_eq!(scale.scale[1], GradePoint::new("A".to_string(), 400, 85, 89));
}

#[test]
fn grade_point_accessors_report_fields() {
    let lines = gpa_scale().join("\n");
    let scale = read_gpa_scale(&lines);
    let top = scale.calc_gpa(&95).unwrap();
    assert_eq!(top.letter(), "A+");
    assert_eq!(top.grade_point(), 433);
    assert_eq!(top.range(), (90, 100));
    // In conventional units the grade point is 4.33.
    assert_eq!(top.grade_point() as f64 / 100.0, 4.33);
}

#[test]
fn scale_round_trip_preserves_buckets() {
    let lines = gpa_scale().join("\n");
    let scale = read_gpa_scale(&lines);
    assert_eq!(scale.scale.len(), 11);
    let rows = scale.to_rows();
    let reloaded = read_gpa_scale(&rows);
    assert_eq!(reloaded.scale, scale.scale);
    // Serializing once more reproduces the same text.
    assert_eq!(reloaded.to_rows(), rows);
}

#[test]
fn course_scale_round_trip_preserves_components() {
    let lines = course_scale().join("\n");
    let weights = read_course_weights(&lines);
    assert_eq!(weights.weights.len(), 5);
    let rows = weights.to_rows();
    let reloaded = read_course_weights(&rows);
    assert_eq!(reloaded.weights, weights.weights);
    assert_eq!(reloaded.to_rows(), rows);
}

#[test]
fn serialized_course_rows_use_the_loader_format() {
    let weights = read_course_weights("3 Quizzes   , 10%");
    assert_eq!(weights.to_rows(), "3 Quizzes, 10%\n");
}

#[test]
fn serialized_rows_use_the_loader_format() {
    let scale = read_gpa_scale("F , 0.00,  0,49");
    assert_eq!(scale.to_rows(), "F, 0.00, 0,49\n");
}
