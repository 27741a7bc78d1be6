//! Arithmetic core for a pairing-based zero-knowledge proof stack:
//! a Montgomery-form prime-field kernel, the scalar field built on it,
//! canonical byte encoding, a radix-2 FFT engine, commitment-key setup
//! and polynomial evaluation, the setup/verify state rules of the host
//! runtime interface, and the named test accounts.

pub mod keyring;
pub mod limb;
pub mod codec;
pub mod fft;
pub mod fr;
pub mod kzg;
pub mod plonk;
