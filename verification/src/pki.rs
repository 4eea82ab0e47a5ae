//! Configuration record for the surrounding PKI tooling: key sizes,
//! certificate validity periods and directory layout. The tooling that
//! consumes it (key generation, signing, revocation through an external
//! certificate tool) is process orchestration and lives outside this
//! library.

use vstd::prelude::*;

verus! {

/// PKI configuration: RSA key sizes in bits, certificate validity in
/// days, and the directories certificates are kept under.
pub struct PKIConfig {
    /// Bits of the certificate authority's RSA key.
    pub ca_key_bits: u32,
    /// Bits of each user's RSA key.
    pub user_key_bits: u32,
    /// Validity of the authority's self-signed certificate, in days.
    pub ca_validity_days: u32,
    /// Validity of a user certificate, in days.
    pub user_validity_days: u32,
    /// Directory holding the authority's key and certificate.
    pub ca_dir: String,
    /// Directory holding the users' keys and certificates.
    pub users_dir: String,
}

impl PKIConfig {
    /// The default configuration: a 4096-bit authority key valid ten
    /// years, 2048-bit user keys valid one year, under `./pki`.
    pub fn new() -> (r: PKIConfig)
        ensures
            r.ca_key_bits == 4096,
            r.user_key_bits == 2048,
            r.ca_validity_days == 3650,
            r.user_validity_days == 365,
            r.ca_dir@ == "./pki/ca"@,
            r.users_dir@ == "./pki/users"@,
    {
        PKIConfig {
            ca_key_bits: 4096,
            user_key_bits: 2048,
            ca_validity_days: 3650,
            user_validity_days: 365,
            ca_dir: "./pki/ca".to_owned(),
            users_dir: "./pki/users".to_owned(),
        }
    }
}

} // verus!
