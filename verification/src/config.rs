use vstd::prelude::*;

verus! {

/// How hard the compiler works on constant expressions.
#[derive(Debug, Clone, Copy, PartialEq, Eq, Structural, PartialOrd, Ord)]
pub enum OptimizationLevel {
    Disabled,
    Standard,
    Aggressive,
}

impl OptimizationLevel {
    /// The position of the level in the order `Disabled < Standard < Aggressive`.
    pub open spec fn rank(self) -> int {
        match self {
            OptimizationLevel::Disabled => 0,
            OptimizationLevel::Standard => 1,
            OptimizationLevel::Aggressive => 2,
        }
    }

    /// Whether this level is at least `other` in the order of the levels.
    pub fn at_least(&self, other: &OptimizationLevel) -> (r: bool)
        ensures
            r == (self.rank() >= other.rank()),
    {
        let a: u8 = match self {
            OptimizationLevel::Disabled => 0,
            OptimizationLevel::Standard => 1,
            OptimizationLevel::Aggressive => 2,
        };
        let b: u8 = match other {
            OptimizationLevel::Disabled => 0,
            OptimizationLevel::Standard => 1,
            OptimizationLevel::Aggressive => 2,
        };
        a >= b
    }
}

/// Settings of a compilation.
pub struct Config {
    pub optimization: OptimizationLevel,
}

} // verus!
