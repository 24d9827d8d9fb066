//! Provenance stamped on court records: the native commit label and the
//! environment fingerprint.
use crate::casefile::{sha256, sha_hex};
use crate::oracle::{ORACLE_COMMIT, ORACLE_IMAGE};
use vstd::prelude::*;
use vstd::string::*;

verus! {

/// The commit label: the hash, with `-dirty` when the tree was dirty
/// (`dirty` is the text `true`).
pub open spec fn commit_label_text(hash: Seq<char>, dirty: Seq<char>) -> Seq<char> {
    if dirty == "true"@ {
        hash + "-dirty"@
    } else {
        hash
    }
}

/// The commit label of a build (see `commit_label_text`).
pub fn commit_label(hash: &str, dirty: &str) -> (s: String)
    ensures
        s@ == commit_label_text(hash@, dirty@),
{
    let t: &str = "true";
    let is_dirty: bool = String::from_str(dirty) == String::from_str(t);
    if is_dirty {
        let mut s: String = String::from_str(hash);
        s.append("-dirty");
        s
    } else {
        String::from_str(hash)
    }
}

/// The environment description that is fingerprinted: one `key=value`
/// line each for the oracle image, the oracle commit, the toolchain
/// version, the native commit, and the target.
pub open spec fn environment_text(rust_version: Seq<char>, git_hash: Seq<char>, arch: Seq<char>, os: Seq<char>) -> Seq<char> {
    "oracle_image="@ + ORACLE_IMAGE@ + "\n"@ + "oracle_commit="@ + ORACLE_COMMIT@ + "\n"@ + "rust_version="@
        + rust_version + "\n"@ + "git_hash="@ + git_hash + "\n"@ + "target="@ + arch + "-"@ + os + "\n"@
}

/// The environment description (see `environment_text`).
pub fn environment_description(rust_version: &str, git_hash: &str, arch: &str, os: &str) -> (s: String)
    ensures
        s@ == environment_text(rust_version@, git_hash@, arch@, os@),
{
    let mut s: String = String::from_str("oracle_image=");
    s.append(ORACLE_IMAGE);
    s.append("\n");
    s.append("oracle_commit=");
    s.append(ORACLE_COMMIT);
    s.append("\n");
    s.append("rust_version=");
    s.append(rust_version);
    s.append("\n");
    s.append("git_hash=");
    s.append(git_hash);
    s.append("\n");
    s.append("target=");
    s.append(arch);
    s.append("-");
    s.append(os);
    s.append("\n");
    s
}

/// The environment fingerprint: the SHA-256 of the description's UTF-8
/// bytes.
pub fn environment_fingerprint(rust_version: &str, git_hash: &str, arch: &str, os: &str) -> (s: String)
    ensures
        s@ == sha_hex(vstd::utf8::encode_utf8(environment_text(rust_version@, git_hash@, arch@, os@))),
{
    let text: String = environment_description(rust_version, git_hash, arch, os);
    let bytes: &[u8] = text.as_str().as_bytes();
    sha256(bytes)
}

} // verus!
