use cgpa::cli::{weight_type_of, GradeType};
use cgpa::course::read_course_weights;
use cgpa::fmt::{uint_to_string, ParseError, Percent};
use cgpa::session::{calc_user_grade, parse_grades, prep_user_prompts, GradeWeightType};
use cgpa::tui::Prompt;

fn five_components() -> cgpa::course::CourseGradeWeights {
    let rows = "3 Quizzes   , 10%\n2 Projects  , 20%\n5 Labs      , 20%\nMidterm Exam, 20%\nFinal Exam  , 30%";
    read_course_weights(rows)
}

#[test]
fn percent_parsing_recovers_every_value() {
    for v in 0u8..=100 {
        let token = format!("{}%", v);
        let p = Percent::parse(&token).unwrap();
        assert_eq!(p.value, v);
        assert_eq!(p.percent, token);
        // The derived fractional weight.
        assert_eq!(p.value as f64 / 100.0, v as f64 / 100.0);
    }
}

#[test]
fn percent_parsing_is_permissive_above_100() {
    // The byte width, not the percent domain, bounds the value.
    assert_eq!(Percent::parse("150%").unwrap().value, 150);
    assert_eq!(Percent::parse("255%").unwrap().value, 255);
}

#[test]
fn percent_parsing_rejects_bad_tokens() {
    assert_eq!(Percent::parse("abc%"), Err(ParseError));
    assert_eq!(Percent::parse("256%"), Err(ParseError));
    assert_eq!(Percent::parse("%"), Err(ParseError));
    assert_eq!(Percent::parse(""), Err(ParseError));
    assert_eq!(Percent::parse("-5%"), Err(ParseError));
    assert_eq!(Percent::parse("1.5%"), Err(ParseError));
}

#[test]
fn pre_weighted_full_marks_give_100() {
    let weights = five_components();
    let grades = vec![100, 100, 100, 100, 100];
    let cumulative = calc_user_grade(GradeWeightType::Pre, &weights, grades);
    assert_eq!(cumulative, 100);
}

#[test]
fn pre_weighted_mixed_grades() {
    let weights = five_components();
    // 90*0.1 + 80*0.2 + 70*0.2 + 60*0.2 + 50*0.3 = 66
    let grades = vec![90, 80, 70, 60, 50];
    let cumulative = calc_user_grade(GradeWeightType::Pre, &weights, grades);
    assert_eq!(cumulative, 66);
}

#[test]
fn pre_weighted_rounds_half_up() {
    // One component at half weight: 1 * 0.5 = 0.5, rounded half up to 1.
    let weights = read_course_weights("Only, 50%");
    assert_eq!(calc_user_grade(GradeWeightType::Pre, &weights, vec![1]), 1);
    // 49 * 0.5 = 24.5 rounds to 25; 49 * 0.3 = 14.7 rounds to 15.
    assert_eq!(calc_user_grade(GradeWeightType::Pre, &weights, vec![49]), 25);
    let thirty = read_course_weights("Only, 30%");
    assert_eq!(calc_user_grade(GradeWeightType::Pre, &thirty, vec![49]), 15);
}

#[test]
fn post_weighted_sums_grades_directly() {
    let weights = five_components();
    let grades = vec![9, 18, 18, 18, 28];
    let cumulative = calc_user_grade(GradeWeightType::Post, &weights, grades);
    assert_eq!(cumulative, 91);
    // Independent of the weight-scale contents.
    let other = read_course_weights("Everything, 100%");
    let grades = vec![9, 18, 18, 18, 28];
    assert_eq!(calc_user_grade(GradeWeightType::Post, &other, grades), 91);
    let none = read_course_weights("");
    let grades = vec![9, 18, 18, 18, 28];
    assert_eq!(calc_user_grade(GradeWeightType::Post, &none, grades), 91);
}

#[test]
fn post_weighted_can_overshoot_100() {
    let weights = five_components();
    let grades = vec![30, 30, 30, 15];
    assert_eq!(calc_user_grade(GradeWeightType::Post, &weights, grades), 105);
}

#[test]
fn cumulative_saturates_at_byte_range() {
    let weights = five_components();
    let grades = vec![200, 200, 200];
    assert_eq!(calc_user_grade(GradeWeightType::Post, &weights, grades), 255);
}

#[test]
fn unparsable_responses_are_filtered_out() {
    let inputs = vec![
        "90".to_string(),
        "oops".to_string(),
        "85".to_string(),
        "".to_string(),
        "300".to_string(),
        "70".to_string(),
    ];
    assert_eq!(parse_grades(&inputs), vec![90, 85, 70]);
}

#[test]
fn prompts_align_on_longest_title() {
    let weights = five_components();
    let prompts = prep_user_prompts(&GradeWeightType::Pre, &weights);
    assert_eq!(prompts.len(), 5);
    assert_eq!(prompts[0], "Enter grade for:    3 Quizzes [0-100%]: ");
    assert_eq!(prompts[3], "Enter grade for: Midterm Exam [0-100%]: ");
}

#[test]
fn post_weight_prompts_show_component_share() {
    let weights = five_components();
    let prompts = prep_user_prompts(&GradeWeightType::Post, &weights);
    assert_eq!(prompts[0], "Enter grade for:    3 Quizzes [0-10%]: ");
    assert_eq!(prompts[4], "Enter grade for:   Final Exam [0-30%]: ");
}

#[test]
fn single_digit_share_is_padded_in_prompt() {
    assert_eq!(
        Prompt::fmt_prompt_post_weight(4, "Quiz", 5),
        "Enter grade for: Quiz [0- 5%]: "
    );
    assert_eq!(
        Prompt::fmt_prompt_pre_weight(6, "Quiz"),
        "Enter grade for:   Quiz [0-100%]: "
    );
}

#[test]
fn weight_type_follows_the_flag_pair() {
    let pre = GradeType { before: true, after: false };
    let post = GradeType { before: false, after: true };
    let neither = GradeType { before: false, after: false };
    let both = GradeType { before: true, after: true };
    assert_eq!(weight_type_of(&pre), GradeWeightType::Pre);
    assert_eq!(weight_type_of(&post), GradeWeightType::Post);
    assert_eq!(weight_type_of(&neither), GradeWeightType::Post);
    assert_eq!(weight_type_of(&both), GradeWeightType::Post);
}

#[test]
fn decimal_rendering_has_no_leading_zeros() {
    assert_eq!(uint_to_string(0), "0");
    assert_eq!(uint_to_string(7), "7");
    assert_eq!(uint_to_string(100), "100");
    assert_eq!(uint_to_string(65535), "65535");
}
