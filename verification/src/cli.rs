//! Plain data for the command-line surface.  Argument parsing itself is an
//! external concern; these types carry the parsed options, and the weighting
//! mode is chosen from them here.
use vstd::prelude::*;

use crate::session::GradeWeightType;

verus! {

/// Options that apply to the whole run.
#[derive(Debug, Clone, PartialEq, Eq, Structural)]
pub struct GlobalOpts {
    /// Toggle verbose app information.
    pub debug: bool,
    /// Silence all app errors and warnings.
    pub quiet: bool,
}

/// The mutually exclusive pair selecting when weights are applied.
#[derive(Debug, Clone, PartialEq, Eq, Structural)]
pub struct GradeType {
    /// Calculate the cumulative grade before course scaling is applied.
    pub before: bool,
    /// Calculate the cumulative grade after course scaling is applied.
    pub after: bool,
}

/// Options of one calculation: the weighting mode, the two scale file
/// paths, and an optional grades file path.
#[derive(Debug, Clone, PartialEq)]
pub struct AppOpts {
    pub weight_type: GradeType,
    pub gpa_scale: String,
    pub course_scale: String,
    pub grades: Option<String>,
}

/// All options of a run.
#[derive(Debug, Clone, PartialEq)]
pub struct CLI {
    pub global_opts: GlobalOpts,
    pub app_opts: AppOpts,
}

/// The weighting mode a `GradeType` selects: pre-weighted exactly when
/// `before` is set alone; anything else falls back to post-weighted.
pub open spec fn spec_weight_type(gt: GradeType) -> GradeWeightType {
    if gt.before && !gt.after {
        GradeWeightType::Pre
    } else {
        GradeWeightType::Post
    }
}

/// Choose the weighting mode from the selection flags.
pub fn weight_type_of(gt: &GradeType) -> (r: GradeWeightType)
    ensures
        r == spec_weight_type(*gt),
{
    if gt.before && !gt.after {
        GradeWeightType::Pre
    } else {
        GradeWeightType::Post
    }
}

} // verus!
