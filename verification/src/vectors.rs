//! Test vectors: fixed salt and nonce so that encryption is reproducible.
use vstd::prelude::*;

use crate::params::Argon2Params;

verus! {

/// The Argon2 parameters of a test vector.
#[derive(Debug, Clone, PartialEq, Eq)]
pub struct VectorArgon2 {
    pub m_cost: u32,
    pub t_cost: u32,
    pub p_cost: u8,
}

/// One entry of a test-vector file.
#[derive(Debug, Clone, PartialEq, Eq)]
pub struct TestVector {
    pub name: String,
    pub passphrase: String,
    pub plaintext_utf8: String,
    pub argon2: VectorArgon2,
    /// Hex of the fixed 16-byte salt used during generation.
    pub salt_hex: String,
    /// Hex of the fixed 12-byte nonce used during generation.
    pub nonce_hex: String,
    pub payload_hex: String,
    pub standard: String,
    pub words: String,
}

impl VectorArgon2 {
    /// The same parameters as [`Argon2Params`].
    pub fn to_params(&self) -> (r: Argon2Params)
        ensures
            r == (Argon2Params { m_cost: self.m_cost, t_cost: self.t_cost, p_cost: self.p_cost }),
    {
        Argon2Params { m_cost: self.m_cost, t_cost: self.t_cost, p_cost: self.p_cost }
    }
}

} // verus!
