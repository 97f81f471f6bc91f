//! The session core: choose a weighting mode, build the per-component
//! prompts, read the collected responses, and fold the grades into one
//! cumulative score.
//!
//! Responses that fail to parse are filtered out of the grade list rather
//! than aborting the session.
use vstd::prelude::*;

use crate::course::{CourseGradingV, CourseScale};
use crate::fmt::{spec_parse_u8, chars_of, parse_u8_chars};
use crate::tui::{spec_prompt_pre, spec_prompt_post, Prompt};

verus! {

/// When course weights are applied to the entered grades.
#[derive(Debug, Clone, Copy, PartialEq, Eq, Structural)]
pub enum GradeWeightType {
    /// Grades are raw scores on `0-100`; each is scaled by its component's
    /// weight before summing.
    Pre,
    /// Grades are already weighted contributions; they are summed as given,
    /// and the weights play no part.
    Post,
}

/// Sum of grade times percent weight over the positionally paired prefix of
/// the two lists; whichever list is shorter cuts the sum off.
pub open spec fn weighted_sum(grades: Seq<u8>, ws: Seq<CourseGradingV>) -> int
    decreases grades.len(),
{
    if grades.len() == 0 || ws.len() == 0 {
        0
    } else {
        grades[0] * ws[0].percent.value + weighted_sum(grades.drop_first(), ws.drop_first())
    }
}

/// Sum of the grades as given.
pub open spec fn plain_sum(grades: Seq<u8>) -> int
    decreases grades.len(),
{
    if grades.len() == 0 {
        0
    } else {
        grades[0] + plain_sum(grades.drop_first())
    }
}

/// Divide a sum of hundredth-parts by 100, rounding half up.
pub open spec fn round_div100(s: int) -> int {
    (s + 50) / 100
}

/// Clamp a non-negative value into a byte.
pub open spec fn clamp_byte(x: int) -> u8 {
    if x > 255 {
        255u8
    } else if x < 0 {
        0u8
    } else {
        x as u8
    }
}

/// The cumulative score of a grade list under a weighting mode: in
/// pre-weighted mode the weighted sum of grade times weight over 100,
/// rounded half up; in post-weighted mode the plain sum.  Either way the
/// result saturates at 255 and is not clamped to 100: an overshooting sum is
/// passed through to the scale lookup, which then finds no bucket.
pub open spec fn spec_cumulative(t: GradeWeightType, ws: Seq<CourseGradingV>, gs: Seq<u8>) -> u8 {
    match t {
        GradeWeightType::Pre => clamp_byte(round_div100(weighted_sum(gs, ws))),
        GradeWeightType::Post => clamp_byte(plain_sum(gs)),
    }
}

/// Fold the collected grades into one cumulative score under the chosen
/// weighting mode.  Grades are paired with components by position; in
/// pre-weighted mode a list longer than the other is cut to the shorter.
pub fn calc_user_grade(weight_type: GradeWeightType, course_scale: &CourseScale, grades: Vec<u8>) -> (r:
    u8)
    ensures
        r == spec_cumulative(weight_type, course_scale@, grades@),
{
    let ghost gs = grades@;
    let ghost ws = course_scale@;
    match weight_type {
        GradeWeightType::Pre => {
            proof {
                assert(gs.skip(0) =~= gs);
                assert(ws.skip(0) =~= ws);
            }
            let n = if grades.len() <= course_scale.weights.len() {
                grades.len()
            } else {
                course_scale.weights.len()
            };
            let mut acc: u128 = 0;
            let mut i: usize = 0;
            while i < n
                invariant
                    0 <= i <= n,
                    grades@ == gs,
                    course_scale@ == ws,
                    n <= gs.len(),
                    n <= ws.len(),
                    n == if gs.len() <= ws.len() { gs.len() } else { ws.len() },
                    weighted_sum(gs, ws) == acc + weighted_sum(
                        gs.skip(i as int),
                        ws.skip(i as int),
                    ),
                    acc <= i * 65025,
                decreases n - i,
            {
                proof {
                    assert(gs.skip(i as int).drop_first() =~= gs.skip(i + 1));
                    assert(ws.skip(i as int).drop_first() =~= ws.skip(i + 1));
                    assert(gs.skip(i as int)[0] == gs[i as int]);
                    assert(ws.skip(i as int)[0] == ws[i as int]);
                }
                let g = grades[i];
                let v = course_scale.weights[i].percent.value;
                proof {
                    assert(g as int * v as int <= 65025) by (nonlinear_arith)
                        requires
                            g <= 255,
                            v <= 255,
                    ;
                    assert(acc + g as int * v as int <= (i + 1) * 65025) by (nonlinear_arith)
                        requires
                            acc <= i * 65025,
                            g as int * v as int <= 65025,
                            i >= 0,
                    ;
                    assert((i + 1) * 65025 < u128::MAX) by (nonlinear_arith)
                        requires
                            i + 1 <= 0x1_0000_0000_0000_0000,
                    ;
                }
                acc = acc + g as u128 * v as u128;
                i += 1;
            }
            proof {
                if gs.len() <= ws.len() {
                    assert(gs.skip(n as int) =~= Seq::<u8>::empty());
                } else {
                    assert(ws.skip(n as int) =~= Seq::<CourseGradingV>::empty());
                }
                assert(weighted_sum(gs.skip(n as int), ws.skip(n as int)) == 0);
            }
            let rounded: u128 = (acc + 50) / 100;
            if rounded > 255 {
                255
            } else {
                rounded as u8
            }
        },
        GradeWeightType::Post => {
            proof {
                assert(gs.skip(0) =~= gs);
            }
            let mut acc: u128 = 0;
            let mut i: usize = 0;
            while i < grades.len()
                invariant
                    0 <= i <= grades.len(),
                    grades@ == gs,
                    plain_sum(gs) == acc + plain_sum(gs.skip(i as int)),
                    acc <= i * 255,
                decreases grades.len() - i,
            {
                proof {
                    assert(gs.skip(i as int).drop_first() =~= gs.skip(i + 1));
                    assert(gs.skip(i as int)[0] == gs[i as int]);
                    assert(acc + 255 <= (i + 1) * 255) by (nonlinear_arith)
                        requires
                            acc <= i * 255,
                            i >= 0,
                    ;
                    assert((i + 1) * 255 < u128::MAX) by (nonlinear_arith)
                        requires
                            i + 1 <= 0x1_0000_0000_0000_0000,
                    ;
                }
                acc = acc + grades[i] as u128;
                i += 1;
            }
            proof {
                assert(gs.skip(gs.len() as int) =~= Seq::<u8>::empty());
            }
            if acc > 255 {
                255
            } else {
                acc as u8
            }
        },
    }
}

/// In post-weighted mode the cumulative score is independent of the
/// weight-scale contents: the entered grades are already weighted
/// contributions and are summed as given.
pub proof fn lemma_post_mode_ignores_weights(
    ws1: Seq<CourseGradingV>,
    ws2: Seq<CourseGradingV>,
    gs: Seq<u8>,
)
    ensures
        spec_cumulative(GradeWeightType::Post, ws1, gs) == spec_cumulative(
            GradeWeightType::Post,
            ws2,
            gs,
        ),
{
}

/// The grades read from the collected responses, in order, with responses
/// that do not parse as an unsigned byte filtered out.
pub open spec fn spec_parse_grades(inputs: Seq<Seq<char>>) -> Seq<u8>
    decreases inputs.len(),
{
    if inputs.len() == 0 {
        Seq::<u8>::empty()
    } else {
        let prev = spec_parse_grades(inputs.drop_last());
        match spec_parse_u8(inputs.last()) {
            Some(g) => prev.push(g),
            None => prev,
        }
    }
}

/// Read the collected responses as grades.  A response that does not parse
/// as an unsigned byte is dropped from the list; the others keep their
/// order.
pub fn parse_grades(inputs: &Vec<String>) -> (r: Vec<u8>)
    ensures
        r@ == spec_parse_grades(inputs.deep_view()),
{
    let ghost dv = inputs.deep_view();
    let mut r: Vec<u8> = Vec::new();
    let mut i: usize = 0;
    while i < inputs.len()
        invariant
            0 <= i <= inputs.len(),
            inputs.deep_view() == dv,
            dv.len() == inputs@.len(),
            r@ == spec_parse_grades(dv.take(i as int)),
        decreases inputs.len() - i,
    {
        proof {
            assert(dv.take(i + 1).drop_last() =~= dv.take(i as int));
            assert(dv.take(i + 1).last() == inputs@[i as int]@);
        }
        let cs = chars_of(inputs[i].as_str());
        match parse_u8_chars(&cs) {
            Some(g) => {
                r.push(g);
            },
            None => {},
        }
        i += 1;
    }
    proof {
        assert(dv.take(inputs@.len() as int) =~= dv);
    }
    r
}

/// The longest title length over the components.
pub open spec fn spec_longest_title(ws: Seq<CourseGradingV>) -> nat
    decreases ws.len(),
{
    if ws.len() == 0 {
        0
    } else {
        let prev = spec_longest_title(ws.drop_last());
        if ws.last().title.len() > prev {
            ws.last().title.len()
        } else {
            prev
        }
    }
}

/// One prompt per component, in order, for the given mode and title width.
pub open spec fn spec_prompts(t: GradeWeightType, ws: Seq<CourseGradingV>, width: nat) -> Seq<
    Seq<char>,
>
    decreases ws.len(),
{
    if ws.len() == 0 {
        Seq::<Seq<char>>::empty()
    } else {
        spec_prompts(t, ws.drop_last(), width).push(
            match t {
                GradeWeightType::Pre => spec_prompt_pre(width, ws.last().title),
                GradeWeightType::Post => spec_prompt_post(
                    width,
                    ws.last().title,
                    ws.last().percent.value,
                ),
            },
        )
    }
}

/// Build one grade prompt per course component, in list order, width-aligned
/// on the longest component title.
pub fn prep_user_prompts(weight_type: &GradeWeightType, course_scale: &CourseScale) -> (r: Vec<
    String,
>)
    ensures
        r.deep_view() == spec_prompts(
            *weight_type,
            course_scale@,
            spec_longest_title(course_scale@),
        ),
{
    let ghost ws = course_scale@;
    let mut longest: usize = 0;
    let mut i: usize = 0;
    while i < course_scale.weights.len()
        invariant
            0 <= i <= course_scale.weights.len(),
            course_scale@ == ws,
            ws.len() == course_scale.weights@.len(),
            longest == spec_longest_title(ws.take(i as int)),
        decreases course_scale.weights.len() - i,
    {
        proof {
            assert(ws.take(i + 1).drop_last() =~= ws.take(i as int));
            assert(ws.take(i + 1).last() == ws[i as int]);
            assert(ws[i as int] == course_scale.weights[i as int]@);
        }
        let len = course_scale.weights[i].title.as_str().unicode_len();
        if len > longest {
            longest = len;
        }
        i += 1;
    }
    proof {
        assert(ws.take(course_scale.weights@.len() as int) =~= ws);
    }
    let mut r: Vec<String> = Vec::new();
    let mut i: usize = 0;
    while i < course_scale.weights.len()
        invariant
            0 <= i <= course_scale.weights.len(),
            course_scale@ == ws,
            ws.len() == course_scale.weights@.len(),
            longest == spec_longest_title(ws),
            r.deep_view() == spec_prompts(*weight_type, ws.take(i as int), longest as nat),
        decreases course_scale.weights.len() - i,
    {
        proof {
            assert(ws.take(i + 1).drop_last() =~= ws.take(i as int));
            assert(ws.take(i + 1).last() == ws[i as int]);
            assert(ws[i as int] == course_scale.weights[i as int]@);
        }
        let cg = &course_scale.weights[i];
        let ghost prev = r.deep_view();
        let prompt = match *weight_type {
            GradeWeightType::Pre => Prompt::fmt_prompt_pre_weight(longest, cg.title.as_str()),
            GradeWeightType::Post => Prompt::fmt_prompt_post_weight(
                longest,
                cg.title.as_str(),
                cg.percent.value,
            ),
        };
        let ghost pv = prompt@;
        r.push(prompt);
        proof {
            assert(r.deep_view() =~= prev.push(pv));
        }
        i += 1;
    }
    proof {
        assert(ws.take(course_scale.weights@.len() as int) =~= ws);
    }
    r
}

} // verus!
