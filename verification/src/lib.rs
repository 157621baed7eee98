//! Formant estimation from short frames of audio: linear predictive coding,
//! polynomial root finding by Laguerre deflation, resonance extraction and
//! the tracking of formants from frame to frame.
pub mod scalar;
pub mod complex;
pub mod error;
pub mod polynomial;
pub mod lpc;
pub mod resonance;
pub mod signal;
pub mod formant;
pub mod analysis;

pub use crate::analysis::{
    find_formants, find_formants_complex_work_size, find_formants_real_work_size,
    FEMALE_FORMANT_ESTIMATES, MALE_FORMANT_ESTIMATES, MAX_RESONANCES,
};
pub use crate::complex::Complex;
pub use crate::error::{PolynomialFault, VoxBoxError, VoxBoxResult};
pub use crate::formant::FormantExtractor;
pub use crate::lpc::LPC;
pub use crate::polynomial::Polynomial;
pub use crate::resonance::{HasRMS, Resonance, ToResonance};
pub use crate::scalar::Real;
