//! Piecewise-linear calibration: turns a raw sensor frequency into a
//! percentage through a table of (frequency, fraction) points.
//!
//! Frequencies are whole hertz. Fractions are fixed-point numbers in parts
//! per million (`FRACTION_ONE` is 1.0), so a percentage is a fraction times
//! one hundred in the same unit: `100 * FRACTION_ONE` stands for 100 %.

mod interpolate;
mod lookup;

pub use interpolate::{
    interp, interpolate_segment, lemma_clamp, lemma_monotonic_falling, lemma_monotonic_rising,
    FRACTION_ONE,
};
pub use lookup::{
    bracket, is_bracket, is_sorted, lemma_boundary_agreement_first, lemma_boundary_agreement_last,
    lemma_scale, lookup_value, lower_end, lut_points, moisture_from_freq, Lut, LUT_CAPACITY,
};
