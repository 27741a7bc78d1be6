//! The setup and verification rules the host runtime holds the proof
//! system to.
//!
//! The runtime stores at most one reference string.  Setting up a second
//! time is refused; verifying before any setup exists is refused; once a
//! string exists, a verification outcome is accepted or rejected as the
//! proof checker reported it.  The proof checker itself runs outside
//! this library and hands its verdict in.

use vstd::prelude::*;
use vstd::arithmetic::power::pow;
use crate::fr::{Fr, fr_p};
use crate::kzg::KeyPair;

verus! {

/// Why a runtime call was refused.
#[derive(Clone, Copy, Debug, PartialEq, Eq, Structural)]
pub enum PalletError {
    /// A reference string already exists; setup runs only once.
    AlreadySetup,
    /// No reference string exists yet; nothing can be verified.
    NotSetup,
    /// The proof checker rejected the proof.
    InvalidProof,
}

/// The runtime's storage: at most one reference string.
pub struct Pallet {
    pub keypair: Option<KeyPair>,
}

impl Pallet {
    /// Fresh storage with no reference string.
    pub fn new() -> (r: Pallet)
        ensures
            r.keypair is None,
    {
        Pallet { keypair: None }
    }

    /// One-time trusted setup: lays down the reference string of degree
    /// `val` from the secret scalar.  Fails, and changes nothing, when a
    /// string already exists.
    pub fn trusted_setup(&mut self, val: u32, secret: Fr) -> (r: Result<(), PalletError>)
        requires
            secret.wf(),
        ensures
            old(self).keypair is None ==> r is Ok && (final(self).keypair matches Some(kp)
                && kp.wf() && kp.max_degree == val && (forall|i: int|
                0 <= i <= val ==> (#[trigger] kp.powers@[i]).val() == pow(secret.val(), i as nat)
                    % fr_p())),
            old(self).keypair is Some ==> r == Result::<(), PalletError>::Err(
                PalletError::AlreadySetup,
            ) && final(self).keypair == old(self).keypair,
    {
        match self.keypair {
            Some(_) => Err(PalletError::AlreadySetup),
            None => {
                let kp = KeyPair::setup(val, secret);
                self.keypair = Some(kp);
                Ok(())
            },
        }
    }

    /// The verification gate: refused before setup; afterwards the proof
    /// checker's verdict decides between acceptance and rejection.
    pub fn verify(&self, checker_accepted: bool) -> (r: Result<(), PalletError>)
        ensures
            self.keypair is None ==> r == Result::<(), PalletError>::Err(PalletError::NotSetup),
            self.keypair is Some && checker_accepted ==> r is Ok,
            self.keypair is Some && !checker_accepted ==> r == Result::<(), PalletError>::Err(
                PalletError::InvalidProof,
            ),
    {
        match self.keypair {
            None => Err(PalletError::NotSetup),
            Some(_) => {
                if checker_accepted {
                    Ok(())
                } else {
                    Err(PalletError::InvalidProof)
                }
            },
        }
    }

    /// The stored reference string, if any.
    pub fn get_keypair(&self) -> (r: &Option<KeyPair>)
        ensures
            r == &self.keypair,
    {
        &self.keypair
    }
}

} // verus!
