//! One-bit adaptive delta modulation of 8-bit audio, and the rules a speech
//! service applies around it.

pub mod dfpwm;
pub mod jaeger;
pub mod request;
pub mod voice;
