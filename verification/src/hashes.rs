//! The hash predicate adapters: an MD5 digest compared as lowercase hex
//! text, and a bcrypt verification that parses the salted-hash envelope
//! embedded in the target.  The hash computations themselves come from
//! outside crates; their results are named here and everything built on
//! those names is verified.
use vstd::prelude::*;

verus! {

/// Which hash algorithm the target hash is written in.
#[derive(Clone, Copy, Debug, PartialEq, Eq, Structural)]
pub enum HashKind {
    Md5,
    Bcrypt,
}

/// A fatal error: the search never starts with a malformed target.
#[derive(Clone, Copy, Debug, PartialEq, Eq, Structural)]
pub enum SearchError {
    /// The target hash cannot be parsed by the selected adapter.
    MalformedTargetHash,
}

/// The MD5 digest of a string, written as 32 lowercase hex characters.
pub uninterp spec fn md5_hex(s: Seq<char>) -> Seq<char>;

/// Whether bcrypt accepts `pw` against the salted-hash envelope `hash`.
pub uninterp spec fn bcrypt_matches(pw: Seq<char>, hash: Seq<char>) -> bool;

/// Whether `hash` is a well-formed bcrypt envelope (parse and cost range).
pub uninterp spec fn bcrypt_envelope_ok(hash: Seq<char>) -> bool;

/// Whether `candidate` hashes to `target` under the selected algorithm.
pub open spec fn hash_matches(kind: HashKind, candidate: Seq<char>, target: Seq<char>) -> bool {
    match kind {
        HashKind::Md5 => md5_hex(candidate) == target,
        HashKind::Bcrypt => bcrypt_matches(candidate, target),
    }
}

/// Relies on md5::compute together with Digest's Debug formatting (its
/// LowerHex impl, two hex digits per digest byte): the text depends on the
/// input bytes alone.
#[verifier::external_body]
pub(crate) fn md5_hex_string(s: &str) -> (r: String)
    ensures
        r@ == md5_hex(s@),
{
    format!("{:?}", md5::compute(s))
}

#[verifier::external_type_specification]
#[verifier::external_body]
pub struct ExBcryptError(bcrypt::BcryptError);

/// Relies on bcrypt::verify: the boolean depends only on the password and
/// the hash string, and whether it errors depends on the hash string alone
/// (split_hash and the cost-range check read nothing but the hash, and a
/// too-long password is silently truncated, never refused).
#[verifier::external_body]
pub(crate) fn bcrypt_check(password: &str, hash: &str) -> (r: Result<bool, bcrypt::BcryptError>)
    ensures
        r matches Ok(b) ==> b == bcrypt_matches(password@, hash@),
        r is Ok <==> bcrypt_envelope_ok(hash@),
{
    bcrypt::verify(password, hash)
}

} // verus!
