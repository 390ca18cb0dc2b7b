use vstd::prelude::*;
use crate::geom::WIDTH_LIMIT;

verus! {

/// Per-layer planner settings.
///
/// `layer_width` is the bead width in millionths of a millimetre;
/// `infill_percentage` is the sparse fill ratio in whole percent (1 ..= 100).
#[derive(Clone, Copy, PartialEq, Eq, Structural, Debug)]
pub struct Settings {
    pub layer_width: u64,
    pub infill_percentage: u64,
    pub inner_perimeters_first: bool,
    pub wall_count: usize,
}

/// Errors the planner reports to its caller.
#[derive(Clone, Copy, PartialEq, Eq, Structural, Debug)]
pub enum SlicerError {
    /// Ring nesting failed: a hole ring had no enclosing exterior.
    MalformedRings,
    /// A region degenerated to nothing before any toolpath could be drawn.
    DegenerateGeometry,
    /// A setting is outside its accepted range.
    InvalidSettings,
}

pub open spec fn valid_settings(s: Settings) -> bool {
    &&& 1 <= s.layer_width <= WIDTH_LIMIT
    &&& 1 <= s.infill_percentage <= 100
    &&& s.wall_count >= 1
}

impl Settings {
    /// Accept exactly the settings whose fields are in range: a positive
    /// bead width no larger than the machine limit, a fill percentage in
    /// 1 ..= 100, and at least one wall.
    pub fn validate(&self) -> (r: Result<(), SlicerError>)
        ensures
            r is Ok <==> valid_settings(*self),
            r is Err ==> r->Err_0 == SlicerError::InvalidSettings,
    {
        if self.layer_width >= 1 && self.layer_width <= WIDTH_LIMIT && self.infill_percentage >= 1
            && self.infill_percentage <= 100 && self.wall_count >= 1 {
            Ok(())
        } else {
            Err(SlicerError::InvalidSettings)
        }
    }
}

impl SlicerError {
    /// A stable numeric code and a human-readable description of the error.
    pub fn get_code_and_message(&self) -> (r: (u64, String))
        ensures
            *self is MalformedRings ==> r.0 == 0x2000 && r.1@ == "hole ring has no enclosing exterior"@,
            *self is DegenerateGeometry ==> r.0 == 0x2001 && r.1@ == "region degenerated before any toolpath was drawn"@,
            *self is InvalidSettings ==> r.0 == 0x2002 && r.1@ == "a setting is outside its accepted range"@,
    {
        match self {
            SlicerError::MalformedRings => (0x2000, "hole ring has no enclosing exterior".to_string()),
            SlicerError::DegenerateGeometry => (
                0x2001,
                "region degenerated before any toolpath was drawn".to_string(),
            ),
            SlicerError::InvalidSettings => (
                0x2002,
                "a setting is outside its accepted range".to_string(),
            ),
        }
    }
}

} // verus!
