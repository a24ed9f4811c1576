//! The fabrication limits a board is held to, and the ways to break them.

use vstd::prelude::*;

use crate::board_doc::{BoardDoc, CopperWeight};
use crate::geom::Unit;
use crate::item::NetId;

verus! {

/// A scalar fabrication rule that an item's own geometry breaks.
#[derive(Debug, Clone, Copy, PartialEq, Eq, Structural)]
pub enum DfmViolation {
    TrackWidthBelowMin,
    ViaDiameterBelowMin,
    ViaDrillBelowMin,
    ViaAnnularRingBelowMin,
    SmdPadBelowMin,
    PthDrillBelowMin,
    PthDrillNotBelowPad,
    PthAnnularRingBelowMin,
    NpthHoleBelowMin,
    HoleToHoleBelowMin,
}

/// The lengths that the placement and silkscreen rules compare against, as
/// the fabrication profile in force gives them.
#[derive(Debug, Clone, Copy, PartialEq, Eq, Structural)]
pub struct FabRules {
    /// Silkscreen ink to pad copper.
    pub silk_to_pad: Unit,
    /// Thinnest printable silkscreen stroke.
    pub min_silk_line_width: Unit,
    /// A surface-mount pad to the drill of another part.
    pub lead_to_hole: Unit,
    /// Wall to wall between two drills of one net.
    pub hole_to_hole_same_net: Unit,
    /// Wall to wall between two drills of which at least one has a net that
    /// the other has not.
    pub hole_to_hole_other_net: Unit,
    /// Wall to wall between two drills that have no net.
    pub hole_to_hole_no_net: Unit,
}

impl FabRules {
    /// The wall-to-wall distance two drills on these nets have to keep.
    pub open spec fn hole_spacing(&self, a: Option<NetId>, b: Option<NetId>) -> Unit {
        if a is None && b is None {
            self.hole_to_hole_no_net
        } else if a == b {
            self.hole_to_hole_same_net
        } else {
            self.hole_to_hole_other_net
        }
    }

    /// The wall-to-wall distance two drills on these nets have to keep.
    pub fn required_hole_to_hole(&self, a: Option<NetId>, b: Option<NetId>) -> (r: Unit)
        ensures
            r == self.hole_spacing(a, b),
    {
        match (a, b) {
            (None, None) => self.hole_to_hole_no_net,
            (Some(x), Some(y)) => {
                if x == y {
                    self.hole_to_hole_same_net
                } else {
                    self.hole_to_hole_other_net
                }
            },
            _ => self.hole_to_hole_other_net,
        }
    }
}

/// What a fabrication profile asks for.
#[derive(Debug, Clone, Copy, PartialEq, Eq, Structural)]
pub struct FabProfile {
    pub rules: FabRules,
    /// Copper to copper between two pads.
    pub pad_to_pad: Unit,
}

/// The fabrication profile of each copper weight.
#[derive(Debug, Clone, Copy, PartialEq, Eq, Structural)]
pub struct FabProfiles {
    pub one_oz: FabProfile,
    pub two_oz: FabProfile,
}

impl FabProfiles {
    /// The profile of a copper weight.
    pub open spec fn of(self, copper_weight: CopperWeight) -> FabProfile {
        match copper_weight {
            CopperWeight::OneOz => self.one_oz,
            CopperWeight::TwoOz => self.two_oz,
        }
    }
}

impl BoardDoc {
    /// The fabrication profile that this board is held to: that of its own
    /// copper weight.
    pub fn resolver(&self, profiles: &FabProfiles) -> (r: FabProfile)
        ensures
            r == profiles.of(self.copper_weight),
    {
        match self.copper_weight {
            CopperWeight::OneOz => profiles.one_oz,
            CopperWeight::TwoOz => profiles.two_oz,
        }
    }

    /// The distance two pads of this board have to keep.
    pub fn pad_to_pad_clearance(&self, profiles: &FabProfiles) -> (r: Unit)
        ensures
            r == profiles.of(self.copper_weight).pad_to_pad,
    {
        self.resolver(profiles).pad_to_pad
    }
}

} // verus!
