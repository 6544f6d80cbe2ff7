//! Entropy extraction: salt construction and the key-derivation call.
//!
//! The salt is the site, the login and the counter written as bare lowercase
//! hexadecimal digits, concatenated as bytes.  The master secret and the
//! salt feed PBKDF2 with an HMAC-SHA-256 pseudorandom function, 100 000
//! iterations and a 32-byte output, and those bytes are read big-endian as
//! the 256-bit entropy value.

use vstd::prelude::*;
use vstd::utf8::encode_utf8;
use vstd::utf8::encode_utf8_decode_utf8;
use crate::entropy::Entropy;
use crate::entropy::be_nat;
use crate::entropy::from_be_bytes;
use crate::PasswordProfile;

verus! {

/// Lowercase hexadecimal digit of a value below 16.
pub open spec fn hex_digit(d: int) -> u8 {
    if d < 10 {
        (48 + d) as u8  // '0' ..= '9'
    } else {
        (87 + d) as u8  // 'a' ..= 'f'
    }
}

/// Lowercase hexadecimal digits of `n`: no prefix, no padding, and a single
/// zero digit when `n` is zero.
pub open spec fn hex_bytes(n: nat) -> Seq<u8>
    decreases n,
{
    if n < 16 {
        seq![hex_digit(n as int)]
    } else {
        hex_bytes(n / 16) + seq![hex_digit((n % 16) as int)]
    }
}

/// The salt of one derivation: site, login, and the counter in hexadecimal,
/// as one byte string.
pub open spec fn salt_bytes(site: Seq<char>, login: Seq<char>, counter: u64) -> Seq<u8> {
    encode_utf8(site) + encode_utf8(login) + hex_bytes(counter as nat)
}

/// What PBKDF2 with HMAC-SHA-256, 100 000 iterations and a 32-byte output
/// returns for a password and a salt.  The algorithm is standardised; its
/// value is fixed by the two inputs alone.
pub uninterp spec fn pbkdf2_sha256_of(password: Seq<u8>, salt: Seq<u8>) -> Seq<u8>;

/// Relies on pbkdf2::pbkdf2_hmac_array over sha2::Sha256: the derived key is
/// a pure function of the password and salt bytes once the iteration count
/// (100 000) and the output size (32 bytes) are fixed, and the returned
/// array has exactly that size.
#[verifier::external_body]
fn pbkdf2_sha256(password: &[u8], salt: &[u8]) -> (dk: Vec<u8>)
    ensures
        dk@ == pbkdf2_sha256_of(password@, salt@),
        dk@.len() == 32,
{
    pbkdf2::pbkdf2_hmac_array::<sha2::Sha256, 32>(password, salt, 100_000).to_vec()
}

/// Exact lowercase hexadecimal digit of a value below 16.
fn hex_digit_x(d: u64) -> (b: u8)
    requires
        d < 16,
    ensures
        b == hex_digit(d as int),
{
    if d < 10 {
        48 + (d as u8)
    } else {
        87 + (d as u8)
    }
}

/// Append the hexadecimal digits of `n` to `out`, most significant first.
fn push_hex(n: u64, out: &mut Vec<u8>)
    ensures
        final(out)@ == old(out)@ + hex_bytes(n as nat),
    decreases n,
{
    if n >= 16 {
        push_hex(n / 16, out);
    }
    out.push(hex_digit_x(n % 16));
    proof {
        if n < 16 {
            assert(old(out)@ + hex_bytes(n as nat) =~= old(out)@.push(hex_digit(n as int)));
        } else {
            assert(old(out)@ + hex_bytes(n as nat) =~= (old(out)@ + hex_bytes(
                n as nat / 16,
            )).push(hex_digit((n as nat % 16) as int)));
        }
        assert(out@ =~= old(out)@ + hex_bytes(n as nat));
    }
}

/// Build the salt of one derivation.
fn make_salt(site: &str, login: &str, counter: u64) -> (salt: Vec<u8>)
    ensures
        salt@ == salt_bytes(site@, login@, counter),
{
    let mut salt: Vec<u8> = Vec::new();
    salt.extend_from_slice(site.as_bytes());
    salt.extend_from_slice(login.as_bytes());
    push_hex(counter, &mut salt);
    proof {
        assert(salt@ =~= salt_bytes(site@, login@, counter));
    }
    salt
}

/// Stretch the master secret and the profile's identifying fields into the
/// 256-bit entropy value.
pub fn calc_entropy(password_profile: &PasswordProfile, master_password: &[u8]) -> (e: Entropy)
    ensures
        e.as_nat() == be_nat(
            pbkdf2_sha256_of(
                master_password@,
                salt_bytes(
                    password_profile.site@,
                    password_profile.login@,
                    password_profile.counter,
                ),
            ),
        ),
{
    let salt = make_salt(
        password_profile.site.as_str(),
        password_profile.login.as_str(),
        password_profile.counter,
    );
    let dk = pbkdf2_sha256(master_password, salt.as_slice());
    from_be_bytes(&dk)
}

/// Hexadecimal writing is injective: distinct numbers have distinct digits.
pub proof fn lemma_hex_bytes_injective(a: nat, b: nat)
    requires
        hex_bytes(a) == hex_bytes(b),
    ensures
        a == b,
    decreases a,
{
    lemma_hex_bytes_len(a);
    lemma_hex_bytes_len(b);
    if a < 16 && b < 16 {
        assert(hex_bytes(a)[0] == hex_digit(a as int));
        assert(hex_bytes(b)[0] == hex_digit(b as int));
    } else if a >= 16 && b >= 16 {
        let pa = hex_bytes(a / 16);
        let pb = hex_bytes(b / 16);
        assert(hex_bytes(a).last() == hex_digit((a % 16) as int));
        assert(hex_bytes(b).last() == hex_digit((b % 16) as int));
        assert(hex_bytes(a).drop_last() =~= pa);
        assert(hex_bytes(b).drop_last() =~= pb);
        lemma_hex_bytes_injective(a / 16, b / 16);
        assert(a == 16 * (a / 16) + a % 16);
        assert(b == 16 * (b / 16) + b % 16);
    }
}

/// A number of 16 or more has at least two hexadecimal digits; a smaller one
/// has exactly one.
pub proof fn lemma_hex_bytes_len(n: nat)
    ensures
        hex_bytes(n).len() >= 1,
        n < 16 ==> hex_bytes(n).len() == 1,
        n >= 16 ==> hex_bytes(n).len() >= 2,
    decreases n,
{
    if n >= 16 {
        lemma_hex_bytes_len(n / 16);
    }
}

/// Changing only the counter changes the salt: the KDF input differs.
pub proof fn lemma_counter_changes_salt(site: Seq<char>, login: Seq<char>, c1: u64, c2: u64)
    requires
        c1 != c2,
    ensures
        salt_bytes(site, login, c1) != salt_bytes(site, login, c2),
{
    if salt_bytes(site, login, c1) == salt_bytes(site, login, c2) {
        let prefix = encode_utf8(site) + encode_utf8(login);
        let h1 = hex_bytes(c1 as nat);
        let h2 = hex_bytes(c2 as nat);
        assert((prefix + h1).len() == (prefix + h2).len());
        assert(h1.len() == h2.len());
        assert(h1 =~= h2) by {
            assert(forall|i: int|
                0 <= i < h1.len() ==> h1[i] == (prefix + h1)[prefix.len() + i] && h2[i] == (prefix
                    + h2)[prefix.len() + i]);
        }
        lemma_hex_bytes_injective(c1 as nat, c2 as nat);
    }
}

/// Changing only the master secret changes the password input of the KDF:
/// UTF-8 encoding is injective.
pub proof fn lemma_secret_changes_kdf_input(m1: Seq<char>, m2: Seq<char>)
    requires
        m1 != m2,
    ensures
        encode_utf8(m1) != encode_utf8(m2),
{
    encode_utf8_decode_utf8(m1);
    encode_utf8_decode_utf8(m2);
}

} // verus!
