//! Disk-space monitoring: what a volume's numbers say and what to tell the
//! user about them.
use vstd::prelude::*;

verus! {

/// A snapshot of a volume's capacity.
#[derive(Debug, Clone, Copy, PartialEq, Eq, Structural)]
pub struct SpaceInfo {
    /// Total capacity in bytes.
    pub total: u64,
    /// Available (free) bytes.
    pub available: u64,
}

impl SpaceInfo {
    /// Bytes currently used (never below zero, even when the volume reports
    /// more available than total).
    pub fn used(self) -> (r: u64)
        ensures
            r == if self.total >= self.available { self.total - self.available } else { 0 },
    {
        if self.total >= self.available {
            self.total - self.available
        } else {
            0
        }
    }
}

/// How urgently the user should act.
#[derive(Debug, Clone, Copy, PartialEq, Eq, Structural)]
pub enum Pressure {
    /// Plenty of free space.
    Healthy,
    /// Getting full: worth reclaiming space soon.
    Warning,
    /// Nearly full: act now.
    Critical,
}

pub open spec fn recommendation_text(p: Pressure) -> Seq<char> {
    match p {
        Pressure::Healthy => "Disk space is healthy."@,
        Pressure::Warning => "Disk is getting full. Run `purify analyze` to find reclaimable space."@,
        Pressure::Critical => "Disk is nearly full. Run `purify clean --apply` to reclaim space now."@,
    }
}

impl Pressure {
    /// A human-readable recommendation for this pressure level.
    pub fn recommendation(self) -> (r: &'static str)
        ensures
            r@ == recommendation_text(self),
    {
        match self {
            Pressure::Healthy => "Disk space is healthy.",
            Pressure::Warning => "Disk is getting full. Run `purify analyze` to find reclaimable space.",
            Pressure::Critical => "Disk is nearly full. Run `purify clean --apply` to reclaim space now.",
        }
    }
}

} // verus!
