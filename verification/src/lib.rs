//! Deterministic password derivation.
//!
//! A master secret together with a per-site profile (site, login, counter,
//! length, character policy) is stretched by PBKDF2-HMAC-SHA-256 into a
//! 256-bit entropy value, which is then consumed by repeated division with
//! remainder to pick characters from the enabled alphabets.  The same inputs
//! always reproduce the same password; nothing is stored.

use vstd::prelude::*;
use vstd::utf8::encode_utf8;
use crate::alphabet::count_enabled_classes;
use crate::entropy::be_nat;
use crate::kdf::calc_entropy;
use crate::kdf::pbkdf2_sha256_of;
use crate::kdf::salt_bytes;
use crate::password::all_printable;
use crate::password::chars_from_enabled;
use crate::password::covers_enabled;
use crate::password::derive_password;
use crate::password::lemma_derive_props;
use crate::password::spec_derive;
use crate::password::valid_rule_len;

pub mod alphabet;
pub mod entropy;
pub mod kdf;
pub mod password;

verus! {

/// Bitmask of the enabled character classes: bit 0 lowercase, bit 1
/// uppercase, bit 2 digits, bit 3 symbols.  The remaining bits are unused.
#[derive(Debug, Hash, Copy, Clone)]
pub struct CharRule(pub u8);

impl Default for CharRule {
    /// The default policy enables all four classes.
    fn default() -> (r: Self)
        ensures
            r.0 == 0b00001111u8,
    {
        Self(0b00001111)
    }
}

impl CharRule {
    /// Same as the default policy: all four classes enabled.
    pub fn new() -> (r: Self)
        ensures
            r.0 == 0b00001111u8,
    {
        Self(0b00001111)
    }

    /// Toggle the lowercase bit.
    pub fn not_use_lowercase(&self) -> (r: Self)
        ensures
            r.0 == self.0 ^ 0b0001u8,
    {
        Self(self.0 ^ 0b0001)
    }

    /// Toggle the uppercase bit.
    pub fn not_use_uppercase(&self) -> (r: Self)
        ensures
            r.0 == self.0 ^ 0b0010u8,
    {
        Self(self.0 ^ 0b0010)
    }

    /// Toggle the digits bit.
    pub fn not_use_digits(&self) -> (r: Self)
        ensures
            r.0 == self.0 ^ 0b0100u8,
    {
        Self(self.0 ^ 0b0100)
    }

    /// Toggle the symbols bit.
    pub fn not_use_symbols(&self) -> (r: Self)
        ensures
            r.0 == self.0 ^ 0b1000u8,
    {
        Self(self.0 ^ 0b1000)
    }
}

/// One derivation request: which site and login the password is for, a
/// counter that allows several independent passwords per pair, the requested
/// length and the character policy.
pub struct PasswordProfile {
    pub site: String,
    pub login: String,
    pub max_len: u8,
    pub counter: u64,
    pub char_rule: CharRule,
}

/// Why a derivation request was rejected; no password is produced then.
#[derive(Debug, Clone, Copy, PartialEq, Eq, Structural)]
pub enum DerivationError {
    /// The request itself is unusable: the length is below four, no class is
    /// enabled, or the length leaves no room for the freely drawn characters.
    ContractViolation,
}

/// The password, as bytes, that a request and a master secret determine:
/// the master secret and the salt feed the key derivation, and the
/// positional encoding consumes the resulting 256-bit value.
pub open spec fn spec_generate(
    master: Seq<char>,
    site: Seq<char>,
    login: Seq<char>,
    counter: u64,
    rule: u8,
    max_len: u8,
) -> Seq<u8> {
    spec_derive(
        be_nat(pbkdf2_sha256_of(encode_utf8(master), salt_bytes(site, login, counter))),
        rule,
        max_len,
    )
}

/// Relies on String::from_utf8: bytes below 128 are valid UTF-8, and each
/// such byte decodes to the character with the same code.
#[verifier::external_body]
fn ascii_to_string(bytes: Vec<u8>) -> (s: String)
    requires
        forall|i: int| 0 <= i < bytes@.len() ==> bytes@[i] < 128,
    ensures
        s@ == bytes@.map_values(|b: u8| b as char),
{
    String::from_utf8(bytes).unwrap()
}

/// Derive the password of one request.
///
/// A request whose length is below four, whose policy enables no class, or
/// whose length equals the number of enabled classes is rejected before any
/// key-derivation work; every other request yields exactly the password
/// that `spec_generate` describes, of exactly the requested length.
pub fn generate_password(password_profile: PasswordProfile, master_password: String) -> (r: Result<
    String,
    DerivationError,
>)
    ensures
        r is Ok <==> valid_rule_len(password_profile.char_rule.0, password_profile.max_len),
        r matches Ok(pw) ==> pw@ == spec_generate(
            master_password@,
            password_profile.site@,
            password_profile.login@,
            password_profile.counter,
            password_profile.char_rule.0,
            password_profile.max_len,
        ).map_values(|b: u8| b as char),
        r matches Ok(pw) ==> pw@.len() == password_profile.max_len,
        r matches Err(err) ==> err == DerivationError::ContractViolation,
{
    let rule = password_profile.char_rule.0;
    let nc = count_enabled_classes(rule);
    if password_profile.max_len < 4 || nc == 0 || nc >= password_profile.max_len {
        return Err(DerivationError::ContractViolation);
    }
    let master_bytes = master_password.as_str().as_bytes();
    let entropy = calc_entropy(&password_profile, master_bytes);
    let pw_bytes = derive_password(entropy, rule, password_profile.max_len);
    proof {
        assert(all_printable(pw_bytes@));
        assert(pw_bytes@ == spec_generate(
            master_password@,
            password_profile.site@,
            password_profile.login@,
            password_profile.counter,
            rule,
            password_profile.max_len,
        ));
    }
    let s = ascii_to_string(pw_bytes);
    Ok(s)
}

/// Two derivations from the same request and master secret give the same
/// password: the outcome is a function of the inputs alone, with no hidden
/// state, clock or randomness.
pub proof fn lemma_generate_deterministic(
    master: Seq<char>,
    site: Seq<char>,
    login: Seq<char>,
    counter: u64,
    rule: u8,
    max_len: u8,
    r1: Seq<u8>,
    r2: Seq<u8>,
)
    requires
        r1 == spec_generate(master, site, login, counter, rule, max_len),
        r2 == spec_generate(master, site, login, counter, rule, max_len),
    ensures
        r1 == r2,
{
}

/// Every password a valid request determines has exactly the requested
/// length, draws every character from an enabled alphabet, and holds at
/// least one character of each enabled class.
pub proof fn lemma_generate_well_formed(
    master: Seq<char>,
    site: Seq<char>,
    login: Seq<char>,
    counter: u64,
    rule: u8,
    max_len: u8,
)
    requires
        valid_rule_len(rule, max_len),
    ensures
        spec_generate(master, site, login, counter, rule, max_len).len() == max_len,
        chars_from_enabled(rule, spec_generate(master, site, login, counter, rule, max_len), 0),
        covers_enabled(rule, spec_generate(master, site, login, counter, rule, max_len), 0),
        all_printable(spec_generate(master, site, login, counter, rule, max_len)),
{
    lemma_derive_props(
        be_nat(pbkdf2_sha256_of(encode_utf8(master), salt_bytes(site, login, counter))),
        rule,
        max_len,
    );
}

} // verus!
