//! Credentials: the lowercase hex form of a secret's SHA-224 digest, and the
//! set of credentials an acceptor admits.

use sha2::Digest;
use vstd::prelude::*;
use vstd::string::StringSliceAdditionalSpecFns;

verus! {

/// Length in bytes of a SHA-224 digest.
pub const DIGEST_LEN: usize = 28;

/// Length in bytes of a credential: the digest written as hex.
pub const CREDENTIAL_LEN: usize = 56;

/// The SHA-224 digest of `data`.
pub uninterp spec fn sha224_of(data: Seq<u8>) -> Seq<u8>;

/// Relies on sha2::Sha224::digest: the SHA-224 digest of `data`, 28 bytes long,
/// a function of `data` alone.
#[verifier::external_body]
fn sha224(data: &[u8]) -> (r: Vec<u8>)
    ensures
        r@ == sha224_of(data@),
        r@.len() == DIGEST_LEN,
{
    sha2::Sha224::digest(data).to_vec()
}

/// The ASCII lowercase hex digit for a value below 16.
pub open spec fn hex_digit(n: u8) -> u8 {
    if n < 10 {
        (n + 48) as u8
    } else {
        (n + 87) as u8
    }
}

/// Each byte of `b` as two lowercase hex digits, high nibble first.
pub open spec fn hex_of(b: Seq<u8>) -> Seq<u8> {
    Seq::new(
        2 * b.len(),
        |i: int|
            if i % 2 == 0 {
                hex_digit(b[i / 2] / 16)
            } else {
                hex_digit(b[i / 2] % 16)
            },
    )
}

/// The credential derived from a secret.
pub open spec fn credential_of(secret: Seq<u8>) -> Seq<u8> {
    hex_of(sha224_of(secret))
}

fn hex_digit_exec(n: u8) -> (r: u8)
    requires
        n < 16,
    ensures
        r == hex_digit(n),
{
    if n < 10 {
        n + 48
    } else {
        n + 87
    }
}

/// Writes each byte of `b` as two lowercase hex digits.
pub fn hex_encode(b: &[u8]) -> (r: Vec<u8>)
    requires
        b@.len() <= usize::MAX / 2,
    ensures
        r@ == hex_of(b@),
{
    let mut r: Vec<u8> = Vec::new();
    let mut i: usize = 0;
    while i < b.len()
        invariant
            i <= b@.len(),
            b@.len() <= usize::MAX / 2,
            r@.len() == 2 * i,
            forall|j: int| 0 <= j < 2 * i ==> r@[j] == hex_of(b@)[j],
        decreases b@.len() - i,
    {
        let x = b[i];
        r.push(hex_digit_exec(x / 16));
        r.push(hex_digit_exec(x % 16));
        i = i + 1;
    }
    assert(r@ =~= hex_of(b@));
    r
}

/// Derives the credential of a secret.
pub fn password_to_hash(password: &str) -> (r: Vec<u8>)
    ensures
        r@ == credential_of(password.spec_bytes()),
        r@.len() == CREDENTIAL_LEN,
{
    let digest = sha224(password.as_bytes());
    hex_encode(digest.as_slice())
}

/// Whether two byte strings are equal.
pub fn bytes_equal(a: &[u8], b: &[u8]) -> (r: bool)
    ensures
        r == (a@ == b@),
{
    if a.len() != b.len() {
        return false;
    }
    let mut i: usize = 0;
    while i < a.len()
        invariant
            i <= a@.len(),
            a@.len() == b@.len(),
            forall|j: int| 0 <= j < i ==> a@[j] == b@[j],
        decreases a@.len() - i,
    {
        if a[i] != b[i] {
            return false;
        }
        i = i + 1;
    }
    assert(a@ =~= b@);
    true
}

/// The credentials an acceptor admits. Read-only once built.
pub struct CredentialSet {
    hashes: Vec<Vec<u8>>,
}

impl View for CredentialSet {
    type V = Set<Seq<u8>>;

    closed spec fn view(&self) -> Set<Seq<u8>> {
        Set::new(|c: Seq<u8>| exists|i: int| 0 <= i < self.hashes@.len() && self.hashes@[i]@ == c)
    }
}

/// The credential set built from one secret: its derived credential alone.
pub open spec fn credentials_of(secret: Seq<u8>) -> Set<Seq<u8>> {
    set![credential_of(secret)]
}

impl CredentialSet {
    /// Builds the set that admits the credential derived from `secret`.
    pub fn from_secret(secret: &str) -> (r: CredentialSet)
        ensures
            r@ == credentials_of(secret.spec_bytes()),
    {
        let hash = password_to_hash(secret);
        let ghost h = hash@;
        let mut hashes: Vec<Vec<u8>> = Vec::new();
        hashes.push(hash);
        let r = CredentialSet { hashes };
        assert(r.hashes@[0]@ == h);
        assert(r@ =~= credentials_of(secret.spec_bytes()));
        r
    }

    /// Whether `candidate` is one of the admitted credentials.
    pub fn contains(&self, candidate: &[u8]) -> (r: bool)
        ensures
            r == self@.contains(candidate@),
    {
        let mut i: usize = 0;
        while i < self.hashes.len()
            invariant
                i <= self.hashes@.len(),
                forall|j: int| 0 <= j < i ==> self.hashes@[j]@ != candidate@,
            decreases self.hashes@.len() - i,
        {
            if bytes_equal(self.hashes[i].as_slice(), candidate) {
                assert(self.hashes@[i as int]@ == candidate@);
                return true;
            }
            i = i + 1;
        }
        false
    }
}

/// A credential set built from a secret admits the credential derived from
/// that secret and no other byte string.
pub proof fn lemma_admits_exactly_derived(secret: Seq<u8>, set: CredentialSet, candidate: Seq<u8>)
    requires
        set@ == credentials_of(secret),
    ensures
        set@.contains(candidate) <==> candidate == credential_of(secret),
{
}

} // verus!
