use vstd::prelude::*;

verus! {

/// Failures of the grouping pipeline.
///
/// `MalformedLine` is a per-run parse failure: an input record does not split
/// into the expected fields.  `TooManyTags` guards the machine limit on how
/// many distinct labels one item may carry.  `SelfDistance` reports the fatal
/// internal-consistency violation: a vector whose distance to itself is not
/// zero within tolerance.  `ClusterFailed` means the clustering subroutine
/// returned no valid assignment, and `NoProgress` that a bisection step could
/// not split an oversized group into two non-empty parts.
#[derive(Debug, Clone, Copy, PartialEq, Eq, Structural)]
pub enum GroupError {
    MalformedLine,
    TooManyTags,
    SelfDistance,
    ClusterFailed,
    NoProgress,
}

pub open spec fn describe_spec(e: GroupError) -> Seq<char> {
    match e {
        GroupError::MalformedLine => "input line does not split into the expected fields"@,
        GroupError::TooManyTags => "an item carries more distinct tags than the supported maximum"@,
        GroupError::SelfDistance => "internal consistency violation: self-distance is not zero within tolerance"@,
        GroupError::ClusterFailed => "the clustering subroutine returned no valid assignment"@,
        GroupError::NoProgress => "an oversized group could not be split into two non-empty parts"@,
    }
}

impl GroupError {
    /// A human-readable description of the failure.
    pub fn describe(&self) -> (r: String)
        ensures
            r@ == describe_spec(*self),
    {
        match self {
            GroupError::MalformedLine => String::from_str(
                "input line does not split into the expected fields",
            ),
            GroupError::TooManyTags => String::from_str(
                "an item carries more distinct tags than the supported maximum",
            ),
            GroupError::SelfDistance => String::from_str(
                "internal consistency violation: self-distance is not zero within tolerance",
            ),
            GroupError::ClusterFailed => String::from_str(
                "the clustering subroutine returned no valid assignment",
            ),
            GroupError::NoProgress => String::from_str(
                "an oversized group could not be split into two non-empty parts",
            ),
        }
    }
}

} // verus!
