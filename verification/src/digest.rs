//! Checking what was downloaded, and unpacking it.

use vstd::prelude::*;
use std::io::Read;
use flate2::read::GzDecoder;
use sha2::{Digest, Sha256};
use crate::text;

verus! {

/// Why reading failed, as `std::io` tells it.
#[verifier::external_type_specification]
#[verifier::external_body]
pub struct ExIoError(std::io::Error);

/// The SHA-256 digest of `data`.
pub uninterp spec fn sha256_of(data: Seq<u8>) -> Seq<u8>;

/// What the first gzip member of `data` holds, if it is whole and sound.
pub uninterp spec fn gunzipped(data: Seq<u8>) -> Option<Seq<u8>>;

/// The sign for the hexadecimal digit `d`, in lower case.
pub open spec fn lower_hex(d: int) -> char {
    if d < 10 {
        (d + '0' as int) as char
    } else {
        (d - 10 + 'a' as int) as char
    }
}

/// `bytes` in hexadecimal digits, two for each byte, the higher one first.
pub open spec fn hex_text(bytes: Seq<u8>) -> Seq<char> {
    Seq::new(
        bytes.len() * 2,
        |i: int|
            if i % 2 == 0 {
                lower_hex(bytes[i / 2] as int / 16)
            } else {
                lower_hex(bytes[i / 2] as int % 16)
            },
    )
}

/// Calls `Sha256::digest`. The 32 bytes that it returns are a function of the data alone, named
/// [`sha256_of`].
#[verifier::external_body]
fn sha256(data: &[u8]) -> (r: Vec<u8>)
    ensures
        r@ == sha256_of(data@),
        r@.len() == 32,
{
    Sha256::digest(data).to_vec()
}

/// Calls `hex::encode`: two lower case hexadecimal digits for each byte. It panics where the
/// text would be longer than a text can be.
#[verifier::external_body]
fn hex_encode(data: &Vec<u8>) -> (r: String)
    requires
        data@.len() * 2 <= isize::MAX,
    ensures
        r@ == hex_text(data@),
{
    hex::encode(data)
}

/// Calls `GzDecoder::read_to_end`. The bytes that come out, and whether any do, are a function
/// of the data alone, named [`gunzipped`].
#[verifier::external_body]
fn gunzip(data: &[u8]) -> (r: Result<Vec<u8>, std::io::Error>)
    ensures
        match r {
            Ok(bytes) => gunzipped(data@) == Some(bytes@),
            Err(_) => gunzipped(data@) is None,
        },
{
    let mut bytes = Vec::new();
    GzDecoder::new(data).read_to_end(&mut bytes)?;
    Ok(bytes)
}

/// A digest that is not the expected one.
#[derive(Debug)]
pub struct DigestMismatch {
    /// The digest that was promised.
    pub expected: String,
    /// The digest of what came.
    pub actual: String,
}

impl DigestMismatch {
    /// The message for the user.
    pub fn message(&self) -> (r: String)
        ensures
            r@ == "sha256 mismatch: expected `"@ + self.expected@ + "`, got `"@ + self.actual@
                + "`"@,
    {
        let mut r = "sha256 mismatch: expected `".to_owned();
        r.append(self.expected.as_str());
        r.append("`, got `");
        r.append(self.actual.as_str());
        r.append("`");
        r
    }
}

/// The digest that is promised by `digest`. Only a digest of the kind that can be checked
/// promises anything.
pub open spec fn promised(digest: Option<Seq<char>>) -> Option<Seq<char>> {
    match digest {
        Some(text) => if "sha256:"@.is_prefix_of(text) {
            Some(text.skip("sha256:"@.len() as int))
        } else {
            None
        },
        None => None,
    }
}

/// What an optional text holds.
pub open spec fn optional_text(digest: Option<&str>) -> Option<Seq<char>> {
    match digest {
        Some(text) => Some(text@),
        None => None,
    }
}

/// A digest of the kind that can be checked promises what stands behind its kind, whatever that
/// is, and no other digest promises anything.
pub proof fn digest_promises_what_follows_its_kind(digest: Seq<char>)
    ensures
        promised(Some("sha256:"@ + digest)) == Some(digest),
        promised(Some(digest)) matches Some(rest) ==> digest == "sha256:"@ + rest,
        promised(None) is None,
{
    let kind = "sha256:"@;
    let whole = kind + digest;
    assert(kind =~= whole.subrange(0, kind.len() as int));
    assert(whole.skip(kind.len() as int) =~= digest);
    if kind.is_prefix_of(digest) {
        assert(kind + digest.skip(kind.len() as int) =~= digest);
    }
}

/// Whether `actual` is what `digest` promises: it is where nothing is promised.
pub fn check_digest(actual: String, digest: Option<&str>) -> (r: Result<(), DigestMismatch>)
    ensures
        digest is None ==> r is Ok,
        digest matches Some(text) ==> forall|rest: Seq<char>|
            text@ == #[trigger] ("sha256:"@ + rest) ==> (r is Ok <==> rest == actual@),
        digest matches Some(text) ==> r is Err ==> "sha256:"@.is_prefix_of(text@),
        match promised(optional_text(digest)) {
            None => r is Ok,
            Some(expected) => {
                &&& r is Ok <==> actual@ == expected
                &&& r matches Err(error) ==> error.expected@ == expected && error.actual@
                    == actual@
            },
        },
{
    let digest = match digest {
        Some(digest) => digest,
        None => {
            return Ok(());
        },
    };
    proof {
        assert forall|rest: Seq<char>| digest@ == #[trigger] ("sha256:"@ + rest) implies promised(
            Some(digest@),
        ) == Some(rest) by {
            digest_promises_what_follows_its_kind(rest);
        }
    }
    let expected = match text::strip_prefix(digest, "sha256:") {
        Some(expected) => expected,
        None => {
            return Ok(());
        },
    };
    if text::same(actual.as_str(), expected) {
        Ok(())
    } else {
        Err(DigestMismatch { expected: expected.to_owned(), actual })
    }
}

/// Whether `data` has the digest that `digest` promises.
pub fn verify_digest(data: &[u8], digest: Option<&str>) -> (r: Result<(), DigestMismatch>)
    ensures
        digest is None ==> r is Ok,
        digest matches Some(text) ==> forall|rest: Seq<char>|
            text@ == #[trigger] ("sha256:"@ + rest) ==> (r is Ok <==> rest == hex_text(
                sha256_of(data@),
            )),
        digest matches Some(text) ==> r is Err ==> "sha256:"@.is_prefix_of(text@),
        match promised(optional_text(digest)) {
            None => r is Ok,
            Some(expected) => {
                &&& r is Ok <==> hex_text(sha256_of(data@)) == expected
                &&& r is Ok ==> expected.len() == 64
                &&& r matches Err(error) ==> error.expected@ == expected && error.actual@
                    == hex_text(sha256_of(data@))
            },
        },
{
    check_digest(hex_encode(&sha256(data)), digest)
}

/// Why a download cannot be used.
#[derive(Debug)]
pub enum UnpackError {
    /// It is not what was promised.
    Mismatch(DigestMismatch),
    /// It is not sound gzip data.
    Corrupt(std::io::Error),
}

/// What is packed in `compressed`, once it has been held against what `digest` promises.
pub fn unpack(compressed: &[u8], digest: Option<&str>) -> (r: Result<Vec<u8>, UnpackError>)
    ensures
        r matches Ok(bytes) ==> gunzipped(compressed@) == Some(bytes@),
        digest is None ==> (r is Ok <==> gunzipped(compressed@) is Some),
        digest matches Some(text) ==> forall|rest: Seq<char>|
            text@ == #[trigger] ("sha256:"@ + rest) ==> (r is Ok <==> rest == hex_text(
                sha256_of(compressed@),
            ) && gunzipped(compressed@) is Some),
        digest matches Some(text) ==> !"sha256:"@.is_prefix_of(text@) ==> (r is Ok <==> gunzipped(
            compressed@,
        ) is Some),
        ({
            let sound = match promised(optional_text(digest)) {
                None => true,
                Some(expected) => hex_text(sha256_of(compressed@)) == expected,
            };
            match r {
                Ok(bytes) => sound && gunzipped(compressed@) == Some(bytes@),
                Err(UnpackError::Mismatch(error)) => {
                    &&& !sound
                    &&& promised(optional_text(digest)) == Some(error.expected@)
                    &&& error.actual@ == hex_text(sha256_of(compressed@))
                },
                Err(UnpackError::Corrupt(_)) => sound && gunzipped(compressed@) is None,
            }
        }),
{
    match verify_digest(compressed, digest) {
        Ok(()) => {},
        Err(error) => {
            return Err(UnpackError::Mismatch(error));
        },
    }
    match gunzip(compressed) {
        Ok(bytes) => Ok(bytes),
        Err(error) => Err(UnpackError::Corrupt(error)),
    }
}

/// Two promises of digests of one kind are both kept only where they are the same.
pub proof fn one_digest_only_is_right(data: Seq<u8>, one: Seq<char>, two: Seq<char>)
    requires
        promised(Some("sha256:"@ + one)) == Some(hex_text(sha256_of(data))),
        promised(Some("sha256:"@ + two)) == Some(hex_text(sha256_of(data))),
    ensures
        one == two,
        one == hex_text(sha256_of(data)),
{
    digest_promises_what_follows_its_kind(one);
    digest_promises_what_follows_its_kind(two);
}

} // verus!
