//! Installing a package: integrity checking of a downloaded tarball, where its entries
//! land, and which version a locally copied plugin declares.

use vstd::prelude::*;
use base64::Engine;
use sha2::Digest;
use crate::error::{ErrorModel, UepmError, unit_outcome};
use crate::entry_paths::{entry_target, entry_target_spec, pieces_view};
use crate::text::{text_option, after_last, find_after_last, last_piece, lemma_last_piece_is_suffix, starts_with, str_eq};

verus! {

/// What `base64::engine::general_purpose::STANDARD.decode` makes of a text.
pub uninterp spec fn base64_decode(text: Seq<char>) -> Option<Seq<u8>>;

/// What `base64::engine::general_purpose::STANDARD.encode` makes of some bytes.
pub uninterp spec fn base64_encode(bytes: Seq<u8>) -> Seq<char>;

/// The SHA-512 digest of some bytes, as `sha2::Sha512::digest` computes it.
pub uninterp spec fn sha512(data: Seq<u8>) -> Seq<u8>;

/// Calls `STANDARD.decode` (standard alphabet, canonical padding). Claims the result
/// is `base64_decode` of the text, `None` standing for the decode error.
#[verifier::external_body]
fn decode_base64(text: &str) -> (r: Option<Vec<u8>>)
    ensures
        match r {
            Some(v) => base64_decode(text@) == Some(v@),
            None => base64_decode(text@) is None,
        },
{
    base64::engine::general_purpose::STANDARD.decode(text).ok()
}

/// Calls `STANDARD.encode`. Claims the result is `base64_encode` of the bytes, and that
/// `STANDARD.decode` gives the bytes back from it (the encoding is canonical: padded,
/// with zero trailing bits).
#[verifier::external_body]
fn encode_base64(bytes: &[u8]) -> (r: String)
    ensures
        r@ == base64_encode(bytes@),
        base64_decode(r@) == Some(bytes@),
{
    base64::engine::general_purpose::STANDARD.encode(bytes)
}

/// Calls `sha2::Sha512::digest`. Claims the result is `sha512` of the data, 64 bytes long.
#[verifier::external_body]
fn sha512_digest(data: &[u8]) -> (r: Vec<u8>)
    ensures
        r@ == sha512(data@),
        r@.len() == 64,
{
    sha2::Sha512::digest(data).to_vec()
}

fn bytes_eq(a: &[u8], b: &[u8]) -> (r: bool)
    ensures
        r == (a@ == b@),
{
    if a.len() != b.len() {
        return false;
    }
    let mut i: usize = 0;
    while i < a.len()
        invariant
            a@.len() == b@.len(),
            i <= a@.len(),
            forall|j: int| 0 <= j < i ==> a@[j] == b@[j],
        decreases a.len() - i,
    {
        if a[i] != b[i] {
            return false;
        }
        i = i + 1;
    }
    proof {
        assert(a@ =~= b@);
    }
    true
}

/// The prefix that marks a SHA-512 integrity string.
pub open spec fn integrity_prefix() -> Seq<char> {
    "sha512-"@
}

/// The outcome of checking `data` against an npm integrity string `sha512-<base64>`.
pub open spec fn integrity_outcome(data: Seq<u8>, integrity: Seq<char>, package: Seq<char>) -> Result<
    (),
    ErrorModel,
> {
    let p = integrity_prefix();
    if !(p.len() <= integrity.len() && integrity.take(p.len() as int) == p) {
        Err(
            ErrorModel::ChecksumMismatch {
                package,
                expected: integrity,
                actual: "(unparseable integrity string)"@,
            },
        )
    } else {
        match base64_decode(integrity.skip(p.len() as int)) {
            None => Err(
                ErrorModel::ChecksumMismatch {
                    package,
                    expected: integrity,
                    actual: "(base64 decode failed)"@,
                },
            ),
            Some(expected) => if sha512(data) == expected {
                Ok(())
            } else {
                Err(
                    ErrorModel::ChecksumMismatch {
                        package,
                        expected: base64_encode(expected),
                        actual: base64_encode(sha512(data)),
                    },
                )
            },
        }
    }
}

/// Whether `integrity` is `sha512-` followed by the base64 of exactly `digest`.
pub open spec fn integrity_names(integrity: Seq<char>, digest: Seq<u8>) -> bool {
    &&& integrity_prefix().len() <= integrity.len()
    &&& integrity.take(integrity_prefix().len() as int) == integrity_prefix()
    &&& base64_decode(integrity.skip(integrity_prefix().len() as int)) == Some(digest)
}

/// Checks downloaded bytes against their integrity string: it passes exactly when the
/// string names the SHA-512 digest of the bytes.
pub fn verify_integrity(data: &[u8], integrity: &str, package: &str) -> (r: Result<(), UepmError>)
    ensures
        unit_outcome(r) == integrity_outcome(data@, integrity@, package@),
        r is Ok <==> integrity_names(integrity@, sha512(data@)),
{
    let prefix = "sha512-";
    if !starts_with(integrity, prefix) {
        return Err(
            UepmError::ChecksumMismatch {
                package: String::from_str(package),
                expected: String::from_str(integrity),
                actual: String::from_str("(unparseable integrity string)"),
            },
        );
    }
    let b64 = integrity.substring_char(prefix.unicode_len(), integrity.unicode_len());
    proof {
        assert(b64@ =~= integrity@.skip(prefix@.len() as int));
    }
    let expected = match decode_base64(b64) {
        None => {
            return Err(
                UepmError::ChecksumMismatch {
                    package: String::from_str(package),
                    expected: String::from_str(integrity),
                    actual: String::from_str("(base64 decode failed)"),
                },
            );
        },
        Some(v) => v,
    };
    let actual = sha512_digest(data);
    if !bytes_eq(actual.as_slice(), expected.as_slice()) {
        let expected_text = encode_base64(expected.as_slice());
        let actual_text = encode_base64(actual.as_slice());
        return Err(
            UepmError::ChecksumMismatch {
                package: String::from_str(package),
                expected: expected_text,
                actual: actual_text,
            },
        );
    }
    Ok(())
}


/// Whether a file name's extension (`Path::extension`) is `uplugin`: the name holds a
/// `.` after its first character, and the text after the last `.` is `uplugin`.
pub open spec fn has_uplugin_extension_spec(name: Seq<char>) -> bool {
    after_last(name, '.') > 1 && last_piece(name, '.') == "uplugin"@
}

/// Whether a directory entry with this file name is a `.uplugin` descriptor.
pub fn has_uplugin_extension(name: &str) -> (r: bool)
    ensures
        r == has_uplugin_extension_spec(name@),
{
    let k = find_after_last(name, '.');
    proof {
        lemma_last_piece_is_suffix(name@, '.');
    }
    k > 1 && str_eq(name.substring_char(k, name.unicode_len()), "uplugin")
}

pub open spec fn candidate_view(c: Option<Option<String>>) -> Option<Option<Seq<char>>> {
    match c {
        Some(o) => Some(text_option(o)),
        None => None,
    }
}

/// What a `.uplugin` descriptor's text gives when parsed as JSON
/// (`serde_json::from_str::<Value>`): `None` when it is not JSON, else its
/// `VersionName` member when that is a string.
pub uninterp spec fn uplugin_version_name(text: Seq<char>) -> Option<Option<Seq<char>>>;

/// Calls `serde_json::from_str::<Value>` on a descriptor's text and reads its
/// `VersionName` with `as_str`. Claims the result is `uplugin_version_name` of the text.
#[verifier::external_body]
fn descriptor_version(text: &str) -> (r: Option<Option<String>>)
    ensures
        candidate_view(r) == uplugin_version_name(text@),
{
    match serde_json::from_str::<serde_json::Value>(text) {
        Ok(json) => Some(json["VersionName"].as_str().map(String::from)),
        Err(_) => None,
    }
}

/// What a descriptor file gives: nothing when it could not be read, else what its
/// text parses to.
pub open spec fn descriptor_candidate(content: Option<Seq<char>>) -> Option<Option<Seq<char>>> {
    match content {
        Some(t) => uplugin_version_name(t),
        None => None,
    }
}

pub open spec fn descriptor_candidates(contents: Seq<Option<String>>) -> Seq<Option<Option<Seq<char>>>> {
    contents.map_values(|c: Option<String>| descriptor_candidate(text_option(c)))
}

/// The `VersionName` of the first descriptor that could be read as JSON; `None` when
/// that descriptor has no string `VersionName` or no descriptor could be read.
pub open spec fn first_descriptor_version(c: Seq<Option<Option<Seq<char>>>>) -> Option<Seq<char>>
    decreases c.len(),
{
    if c.len() == 0 {
        None
    } else {
        match c[0] {
            Some(v) => v,
            None => first_descriptor_version(c.drop_first()),
        }
    }
}

/// The version the first parsed descriptor declares. `candidates` holds, in directory
/// order, what each `.uplugin` file gave: `None` when it could not be read or is not
/// JSON, else its `VersionName` when that is a string.
pub fn first_declared_version(candidates: &Vec<Option<Option<String>>>) -> (r: Option<String>)
    ensures
        text_option(r) == first_descriptor_version(candidates@.map_values(|c: Option<Option<String>>| candidate_view(c))),
{
    let ghost cv = candidates@.map_values(|c: Option<Option<String>>| candidate_view(c));
    let mut i: usize = 0;
    proof {
        assert(cv.skip(0) =~= cv);
    }
    while i < candidates.len()
        invariant
            i <= candidates@.len(),
            cv == candidates@.map_values(|c: Option<Option<String>>| candidate_view(c)),
            first_descriptor_version(cv) == first_descriptor_version(cv.skip(i as int)),
        decreases candidates.len() - i,
    {
        proof {
            assert(cv.skip(i as int).drop_first() =~= cv.skip(i + 1));
            assert(cv.skip(i as int)[0] == candidate_view(candidates@[i as int]));
        }
        match &candidates[i] {
            Some(v) => {
                return v.clone();
            },
            None => {},
        }
        i = i + 1;
    }
    None
}

/// The version a plugin directory declares. `contents` holds, in directory order, the
/// text of each `.uplugin` file, `None` where the file could not be read. The first
/// text that parses as JSON decides: its `VersionName` when that is a string.
pub fn read_uplugin_version(contents: &Vec<Option<String>>) -> (r: Option<String>)
    ensures
        text_option(r) == first_descriptor_version(descriptor_candidates(contents@)),
{
    let mut candidates: Vec<Option<Option<String>>> = Vec::new();
    let mut i: usize = 0;
    while i < contents.len()
        invariant
            i <= contents@.len(),
            candidates@.len() == i,
            forall|j: int| 0 <= j < i ==> candidate_view(#[trigger] candidates@[j]) == descriptor_candidate(
                text_option(contents@[j]),
            ),
        decreases contents.len() - i,
    {
        let c = match &contents[i] {
            Some(text) => descriptor_version(text.as_str()),
            None => None,
        };
        candidates.push(c);
        i = i + 1;
    }
    proof {
        let a = candidates@.map_values(|c: Option<Option<String>>| candidate_view(c));
        let b = descriptor_candidates(contents@);
        assert(a =~= b);
    }
    first_declared_version(&candidates)
}

/// The version recorded for a plugin copied from a local directory: the declared one,
/// or `0.0.0` when there is none.
pub fn local_plugin_version(contents: &Vec<Option<String>>) -> (r: String)
    ensures
        r@ == match first_descriptor_version(descriptor_candidates(contents@)) {
            Some(v) => v,
            None => "0.0.0"@,
        },
{
    match read_uplugin_version(contents) {
        Some(v) => v,
        None => String::from_str("0.0.0"),
    }
}

/// The raw path bytes of the entries of a gzip-compressed tar archive, in archive order,
/// or the message of the first read error, as `flate2` and `tar` read them.
pub uninterp spec fn tar_gz_entry_paths(data: Seq<u8>) -> Result<Seq<Seq<u8>>, Seq<char>>;

pub open spec fn entry_paths_view(r: Result<Vec<Vec<u8>>, String>) -> Result<Seq<Seq<u8>>, Seq<char>> {
    match r {
        Ok(v) => Ok(pieces_view(v@)),
        Err(m) => Err(m@),
    }
}

/// Reads a gzipped tarball with `flate2::read::GzDecoder` and `tar::Archive::entries`,
/// taking each entry's `path_bytes()` (the bytes its `path()` is made of). Claims the
/// result is `tar_gz_entry_paths` of the bytes, the first error's message standing for
/// a failure.
#[verifier::external_body]
fn archive_entry_paths(data: &[u8]) -> (r: Result<Vec<Vec<u8>>, String>)
    ensures
        entry_paths_view(r) == tar_gz_entry_paths(data@),
{
    let decoder = flate2::read::GzDecoder::new(std::io::Cursor::new(data));
    let mut archive = tar::Archive::new(decoder);
    let mut paths = Vec::new();
    for entry in archive.entries().map_err(|e| e.to_string())? {
        let entry = entry.map_err(|e| e.to_string())?;
        paths.push(entry.path_bytes().into_owned());
    }
    Ok(paths)
}

pub open spec fn plan_view(p: Seq<Option<Vec<u8>>>) -> Seq<Option<Seq<u8>>> {
    p.map_values(|o: Option<Vec<u8>>| bytes_option(o))
}

pub open spec fn bytes_option(o: Option<Vec<u8>>) -> Option<Seq<u8>> {
    match o {
        Some(v) => Some(v@),
        None => None,
    }
}

/// Where each entry path lands under the plugin directory (`entry_target_spec`).
pub open spec fn targets_of(paths: Seq<Seq<u8>>) -> Seq<Option<Seq<u8>>> {
    paths.map_values(|e: Seq<u8>| entry_target_spec(e))
}

/// The unpacking plan for a tarball: for each entry, in archive order, where it lands,
/// or the read error.
pub open spec fn extraction_plan_spec(data: Seq<u8>) -> Result<Seq<Option<Seq<u8>>>, Seq<char>> {
    match tar_gz_entry_paths(data) {
        Ok(paths) => Ok(targets_of(paths)),
        Err(m) => Err(m),
    }
}

pub open spec fn plan_result_view(r: Result<Vec<Option<Vec<u8>>>, String>) -> Result<Seq<Option<Seq<u8>>>, Seq<char>> {
    match r {
        Ok(p) => Ok(plan_view(p@)),
        Err(m) => Err(m@),
    }
}

/// For each tarball entry path, the relative path it is unpacked to, `None` to skip it.
pub fn entry_targets(paths: &Vec<Vec<u8>>) -> (r: Vec<Option<Vec<u8>>>)
    ensures
        plan_view(r@) == targets_of(pieces_view(paths@)),
{
    let ghost pv = pieces_view(paths@);
    let mut r: Vec<Option<Vec<u8>>> = Vec::new();
    let mut i: usize = 0;
    while i < paths.len()
        invariant
            i <= paths@.len(),
            pv == pieces_view(paths@),
            plan_view(r@) =~= targets_of(pv.take(i as int)),
        decreases paths.len() - i,
    {
        let t = entry_target(paths[i].as_slice());
        let ghost before = r@;
        r.push(t);
        proof {
            assert(pv[i as int] == paths@[i as int]@);
            assert(plan_view(r@) =~= plan_view(before).push(bytes_option(t)));
            assert(pv.take(i + 1) =~= pv.take(i as int).push(pv[i as int]));
            assert(targets_of(pv.take(i + 1)) =~= targets_of(pv.take(i as int)).push(
                entry_target_spec(pv[i as int]),
            ));
        }
        i = i + 1;
    }
    proof {
        assert(pv.take(paths@.len() as int) =~= pv);
    }
    r
}

/// Reads a downloaded tarball and plans its unpacking: where each entry lands under the
/// plugin directory (as path bytes), in archive order, or the message of the read error.
pub fn extraction_plan(data: &[u8]) -> (r: Result<Vec<Option<Vec<u8>>>, String>)
    ensures
        plan_result_view(r) == extraction_plan_spec(data@),
{
    match archive_entry_paths(data) {
        Ok(paths) => Ok(entry_targets(&paths)),
        Err(m) => Err(m),
    }
}

} // verus!
