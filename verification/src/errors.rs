//! Error kinds returned by the fallible operations of the cryptosystem.

use vstd::prelude::*;
use vstd::std_specs::convert::FromSpecImpl;

verus! {

/// Failures of the noise stage of the point transform.
#[derive(Debug, Clone, Copy, PartialEq, Eq, Structural)]
pub enum NoiseError {
    /// The standard deviation of the noise is not a positive, finite number.
    InvalidStdDev,
    /// What was derived from the hash of the key cannot be used: a digest
    /// too short for a seed, or noise that does not hold one byte for each
    /// byte of the three coordinates.
    InvalidHashOutput,
}

/// Failures of encryption.
#[derive(Debug, Clone, Copy, PartialEq, Eq, Structural)]
pub enum EncryptionError {
    /// The text cannot be laid out as three chunks of the given width.
    PlaintextMappingFailed,
    /// The transform of the mapped point failed.
    EncryptionFailed,
}

/// Failures of decryption.
#[derive(Debug, Clone, Copy, PartialEq, Eq, Structural)]
pub enum DecryptionError {
    /// The tag of the ciphertext is not the tag of its coordinates.
    RingValidationFailed,
    /// The substitution could not be undone. The box is total, so decryption
    /// never gives this.
    InverseSubstitutionFailed,
    /// The decrypted bytes are not valid UTF-8.
    PlaintextReconstructionFailed,
    /// The noise could not be taken off, for the reason held.
    NoiseRemovalFailed(NoiseError),
    /// A coordinate of the ciphertext does not fit the width.
    InvalidCiphertext,
}

/// Failures of signing and of verification.
#[derive(Debug, Clone, Copy, PartialEq, Eq, Structural)]
pub enum HMACError {
    /// No signature could be made: the digest cannot be mapped at the width,
    /// or the noise does not match the width.
    SignError,
    /// The signature could not be checked: as for signing, or a coordinate
    /// of the signature does not fit the width.
    VerifyError,
}

impl NoiseError {
    /// The message of the error.
    pub fn message(&self) -> (text: String)
        ensures
            text@ == match self {
                NoiseError::InvalidStdDev => "Invalid standard deviation"@,
                NoiseError::InvalidHashOutput => "Invalid hash output"@,
            },
    {
        match self {
            NoiseError::InvalidStdDev => "Invalid standard deviation".to_owned(),
            NoiseError::InvalidHashOutput => "Invalid hash output".to_owned(),
        }
    }
}

impl EncryptionError {
    /// The message of the error.
    pub fn message(&self) -> (text: String)
        ensures
            text@ == match self {
                EncryptionError::PlaintextMappingFailed => "Plaintext mapping failed"@,
                EncryptionError::EncryptionFailed => "Encryption process failed"@,
            },
    {
        match self {
            EncryptionError::PlaintextMappingFailed => "Plaintext mapping failed".to_owned(),
            EncryptionError::EncryptionFailed => "Encryption process failed".to_owned(),
        }
    }
}

impl DecryptionError {
    /// The message of the error. A failure of the noise removal has the
    /// message of the noise error that it holds.
    pub fn message(&self) -> (text: String)
        ensures
            text@ == match self {
                DecryptionError::RingValidationFailed => "Ring metadata validation failed"@,
                DecryptionError::InverseSubstitutionFailed => "Inverse substitution failed"@,
                DecryptionError::PlaintextReconstructionFailed => {
                    "Plaintext reconstruction failed"@
                },
                DecryptionError::NoiseRemovalFailed(NoiseError::InvalidStdDev) => {
                    "Invalid standard deviation"@
                },
                DecryptionError::NoiseRemovalFailed(NoiseError::InvalidHashOutput) => {
                    "Invalid hash output"@
                },
                DecryptionError::InvalidCiphertext => "Invalid ciphertext structure"@,
            },
    {
        match self {
            DecryptionError::RingValidationFailed => "Ring metadata validation failed".to_owned(),
            DecryptionError::InverseSubstitutionFailed => "Inverse substitution failed".to_owned(),
            DecryptionError::PlaintextReconstructionFailed => {
                "Plaintext reconstruction failed".to_owned()
            },
            DecryptionError::NoiseRemovalFailed(inner) => inner.message(),
            DecryptionError::InvalidCiphertext => "Invalid ciphertext structure".to_owned(),
        }
    }
}

impl HMACError {
    /// The message of the error.
    pub fn message(&self) -> (text: String)
        ensures
            text@ == match self {
                HMACError::SignError => "Signature generation failed"@,
                HMACError::VerifyError => "Signature verification failed"@,
            },
    {
        match self {
            HMACError::SignError => "Signature generation failed".to_owned(),
            HMACError::VerifyError => "Signature verification failed".to_owned(),
        }
    }
}

impl From<NoiseError> for DecryptionError {
    /// A noise error is a failure of the noise removal.
    fn from(inner: NoiseError) -> (error: DecryptionError) {
        DecryptionError::NoiseRemovalFailed(inner)
    }
}

impl FromSpecImpl<NoiseError> for DecryptionError {
    open spec fn obeys_from_spec() -> bool {
        true
    }

    open spec fn from_spec(inner: NoiseError) -> DecryptionError {
        DecryptionError::NoiseRemovalFailed(inner)
    }
}

} // verus!
