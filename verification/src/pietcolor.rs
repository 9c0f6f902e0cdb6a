//! The color model: hues, lightness levels, and the cyclic distance
//! functions whose value pairs select instructions.

use vstd::prelude::*;

verus! {

/// Lightness of a color, cyclically ordered Light -> Normal -> Dark -> Light.
#[derive(Debug, Clone, Copy, PartialEq, Eq, Structural, Hash)]
pub enum Lightness {
    Light,
    Normal,
    Dark,
}

/// Hue of a color. The six chromatic hues form a spectral wheel
/// Red -> Yellow -> Green -> Cyan -> Blue -> Magenta -> Red.
/// White and Black are achromatic; Smoke is a sentinel reserved for the
/// optional raw-host-call extension.
#[derive(Debug, Clone, Copy, PartialEq, Eq, Structural, Hash)]
pub enum Hue {
    Red,
    Yellow,
    Green,
    Cyan,
    Blue,
    Magenta,
    White,
    Black,
    Smoke,
}

/// Position of a lightness on the three-step cycle.
pub open spec fn lightness_index(l: Lightness) -> int {
    match l {
        Lightness::Light => 0,
        Lightness::Normal => 1,
        Lightness::Dark => 2,
    }
}

/// Forward cyclic step count from `a` to `b` on the lightness cycle, in 0..=2.
pub open spec fn lightness_diff(a: Lightness, b: Lightness) -> int {
    if lightness_index(b) >= lightness_index(a) {
        lightness_index(b) - lightness_index(a)
    } else {
        lightness_index(b) - lightness_index(a) + 3
    }
}

/// True for the six hues that sit on the spectral wheel.
pub open spec fn is_chromatic(h: Hue) -> bool {
    match h {
        Hue::White | Hue::Black | Hue::Smoke => false,
        _ => true,
    }
}

/// Position of a chromatic hue on the six-step spectral wheel.
pub open spec fn hue_index(h: Hue) -> int {
    match h {
        Hue::Red => 0,
        Hue::Yellow => 1,
        Hue::Green => 2,
        Hue::Cyan => 3,
        Hue::Blue => 4,
        Hue::Magenta => 5,
        _ => 6,
    }
}

/// Forward cyclic step count from `a` to `b` around the spectral wheel,
/// in 0..=5 for chromatic pairs; the sentinel 6 for any pairing that
/// involves an achromatic hue.
pub open spec fn hue_diff(a: Hue, b: Hue) -> int {
    if !is_chromatic(a) || !is_chromatic(b) {
        6
    } else if hue_index(b) >= hue_index(a) {
        hue_index(b) - hue_index(a)
    } else {
        hue_index(b) - hue_index(a) + 6
    }
}

impl Lightness {
    /// Forward cyclic distance from `self` to `other`.
    pub fn diff_to(self, other: &Lightness) -> (r: usize)
        ensures
            r == lightness_diff(self, *other),
    {
        match self {
            Lightness::Light => match *other {
                Lightness::Light => 0,
                Lightness::Normal => 1,
                Lightness::Dark => 2,
            },
            Lightness::Normal => match *other {
                Lightness::Light => 2,
                Lightness::Normal => 0,
                Lightness::Dark => 1,
            },
            Lightness::Dark => match *other {
                Lightness::Light => 1,
                Lightness::Normal => 2,
                Lightness::Dark => 0,
            },
        }
    }
}

impl Hue {
    /// Index of `self` on the spectral wheel, or 6 when achromatic.
    fn wheel_index(self) -> (r: usize)
        ensures
            r == hue_index(self),
    {
        match self {
            Hue::Red => 0,
            Hue::Yellow => 1,
            Hue::Green => 2,
            Hue::Cyan => 3,
            Hue::Blue => 4,
            Hue::Magenta => 5,
            _ => 6,
        }
    }

    /// Forward cyclic distance from `self` to `other`: a spectral step count
    /// in 0..=5, or the sentinel 6 for achromatic pairings.
    pub fn diff_to(self, other: &Hue) -> (r: usize)
        ensures
            r == hue_diff(self, *other),
    {
        let a = self.wheel_index();
        let b = other.wheel_index();
        if a == 6 || b == 6 {
            6
        } else if b >= a {
            b - a
        } else {
            b + 6 - a
        }
    }
}

/// A color: a hue paired with a lightness. By convention White, Black and
/// Smoke are paired with Normal lightness; other pairings are accepted but
/// collapse in the distance functions.
#[derive(Debug, Clone, Copy, PartialEq, Eq, Structural, Hash)]
pub struct PietColor {
    pub lightness: Lightness,
    pub hue: Hue,
}

/// The transition key of a color pair: (hue distance, lightness distance).
/// This tuple is the sole key used to select an instruction.
pub open spec fn color_diff(a: PietColor, b: PietColor) -> (int, int) {
    (hue_diff(a.hue, b.hue), lightness_diff(a.lightness, b.lightness))
}

impl PietColor {
    /// The transition key from `self` to `other`.
    pub fn diff_to(self, other: &PietColor) -> (r: (usize, usize))
        ensures
            r.0 == color_diff(self, *other).0,
            r.1 == color_diff(self, *other).1,
    {
        (self.hue.diff_to(&other.hue), self.lightness.diff_to(&other.lightness))
    }
}

} // verus!
