//! Section integrity verification.
//!
//! Each section header records two hashes computed over different
//! suffixes of the section bytes:
//!
//! - `xxh3_64` over bytes from offset 0x30 to the end of the payload.
//!   This is the fast check, run on every load.
//! - `sha512_256` over bytes from offset 0x28 to the end of the
//!   payload. This is the slow check, run on demand.
//!
//! Both ranges cover header bytes after the hash field itself, so a
//! tampered section number or payload length is caught even without
//! inspecting the payload.

use sha2::{Digest, Sha512_256};

use crate::error::{Error, ErrorView, viewed};
use crate::format::header::{HeaderView, SHA_COVER_START, SectionHeader, XXH_COVER_START};
use vstd::prelude::*;

verus! {

/// The XXH3-64 hash of `bytes` with seed zero.
pub uninterp spec fn xxh3_64_of(bytes: Seq<u8>) -> u64;

/// The SHA-512/256 digest of `bytes`.
pub uninterp spec fn sha512_256_of(bytes: Seq<u8>) -> Seq<u8>;

/// `xxhash_rust::xxh3::xxh3_64`, named as a function of the bytes.
#[verifier::external_body]
pub(crate) fn xxh3_64(bytes: &[u8]) -> (r: u64)
    ensures
        r == xxh3_64_of(bytes@),
{
    xxhash_rust::xxh3::xxh3_64(bytes)
}

/// `sha2::Sha512_256::digest`, named as a function of the bytes.
#[verifier::external_body]
fn sha512_256(bytes: &[u8]) -> (r: [u8; 32])
    ensures
        r@ == sha512_256_of(bytes@),
{
    Sha512_256::digest(bytes).into()
}

/// What checking a computed XXH3-64 hash against a header answers.
pub open spec fn xxh3_check(h: HeaderView, computed: u64) -> Result<(), ErrorView> {
    if computed == h.xxh3_64 {
        Ok(())
    } else {
        Err(ErrorView::IntegrityMismatch { number: h.number, kind: "xxh3"@ })
    }
}

/// What checking a computed SHA-512/256 digest against a header answers.
pub open spec fn sha_check(h: HeaderView, computed: Seq<u8>) -> Result<(), ErrorView> {
    if computed == h.sha512_256 {
        Ok(())
    } else {
        Err(ErrorView::IntegrityMismatch { number: h.number, kind: "sha512_256"@ })
    }
}

/// What the fast check of a whole section answers.
pub open spec fn fast_check(h: HeaderView, section: Seq<u8>) -> Result<(), ErrorView> {
    xxh3_check(h, xxh3_64_of(section.skip(0x30)))
}

/// What the slow check of a whole section answers.
pub open spec fn slow_check(h: HeaderView, section: Seq<u8>) -> Result<(), ErrorView> {
    sha_check(h, sha512_256_of(section.skip(0x28)))
}

/// What both checks in a row answer.
pub open spec fn full_check(h: HeaderView, section: Seq<u8>) -> Result<(), ErrorView> {
    match fast_check(h, section) {
        Ok(_) => slow_check(h, section),
        Err(e) => Err(e),
    }
}

/// Compute the XXH3-64 hash a header should carry for a given section.
///
/// `section_bytes` is the full section (header + payload). Only the
/// bytes from offset 0x30 onwards are hashed.
pub fn compute_xxh3(section_bytes: &[u8]) -> (r: u64)
    requires
        section_bytes@.len() >= 0x30,
    ensures
        r == xxh3_64_of(section_bytes@.skip(0x30)),
{
    let covered: &[u8] = vstd::slice::slice_subrange(
        section_bytes,
        XXH_COVER_START,
        section_bytes.len(),
    );
    assert(covered@ =~= section_bytes@.skip(0x30));
    xxh3_64(covered)
}

/// Compute the SHA-512/256 hash a header should carry for a given
/// section. `section_bytes` is the full section (header + payload);
/// only bytes from offset 0x28 onwards are hashed.
pub fn compute_sha512_256(section_bytes: &[u8]) -> (r: [u8; 32])
    requires
        section_bytes@.len() >= 0x28,
    ensures
        r@ == sha512_256_of(section_bytes@.skip(0x28)),
{
    let covered: &[u8] = vstd::slice::slice_subrange(
        section_bytes,
        SHA_COVER_START,
        section_bytes.len(),
    );
    assert(covered@ =~= section_bytes@.skip(0x28));
    sha512_256(covered)
}

/// Check a computed XXH3-64 hash against the one a header records.
pub fn check_xxh3(header: &SectionHeader, computed: u64) -> (r: Result<(), Error>)
    ensures
        viewed(r) == xxh3_check(header@, computed),
{
    if computed == header.xxh3_64 {
        Ok(())
    } else {
        Err(Error::IntegrityMismatch { number: header.number, kind: "xxh3" })
    }
}

/// Check a computed SHA-512/256 digest against the one a header records.
pub fn check_sha512_256(header: &SectionHeader, computed: &[u8; 32]) -> (r: Result<(), Error>)
    ensures
        viewed(r) == sha_check(header@, computed@),
{
    let mut i: usize = 0;
    while i < 32
        invariant
            i <= 32,
            computed@.len() == 32,
            header.sha512_256@.len() == 32,
            forall|j: int| 0 <= j < i ==> computed@[j] == header.sha512_256@[j],
        decreases 32 - i,
    {
        if computed[i] != header.sha512_256[i] {
            return Err(Error::IntegrityMismatch { number: header.number, kind: "sha512_256" });
        }
        i = i + 1;
    }
    assert(computed@ =~= header.sha512_256@);
    Ok(())
}

/// Verify the fast XXH3-64 hash of a section.
///
/// `section_bytes` must be the complete section including the header.
pub fn verify_xxh3(header: &SectionHeader, section_bytes: &[u8]) -> (r: Result<(), Error>)
    requires
        section_bytes@.len() >= 0x30,
    ensures
        viewed(r) == fast_check(header@, section_bytes@),
{
    check_xxh3(header, compute_xxh3(section_bytes))
}

/// Verify the slow SHA-512/256 hash of a section.
///
/// `section_bytes` must be the complete section including the header.
pub fn verify_sha512_256(header: &SectionHeader, section_bytes: &[u8]) -> (r: Result<(), Error>)
    requires
        section_bytes@.len() >= 0x28,
    ensures
        viewed(r) == slow_check(header@, section_bytes@),
{
    let computed: [u8; 32] = compute_sha512_256(section_bytes);
    check_sha512_256(header, &computed)
}

/// Verify both hashes for a section.
pub fn verify(header: &SectionHeader, section_bytes: &[u8]) -> (r: Result<(), Error>)
    requires
        section_bytes@.len() >= 0x30,
    ensures
        viewed(r) == full_check(header@, section_bytes@),
{
    verify_xxh3(header, section_bytes)?;
    verify_sha512_256(header, section_bytes)
}

} // verus!
