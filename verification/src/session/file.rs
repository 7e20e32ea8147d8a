//! The session's compressed artifacts: sidecar blobs for oversized
//! payloads (zstd, with an xxh3 content hash), the manual archive of a
//! session file, and the bounded read of an archive's header line. The
//! file reads and writes are the application's.

use crate::om::groups::{hex_fixed, push_hex, spec_xxh3_64, xxh3_64};
use crate::session::{BlobRef, SessionStore};
use crate::text::{append_str, chars_of, find, push_decimal, string_of};
use vstd::prelude::*;

verus! {

/// The session file format version.
pub const FILE_VERSION: u32 = 1;

/// Payloads above this many bytes go to a sidecar blob.
pub const DEFAULT_BLOB_THRESHOLD: u64 = 100_000;

/// The zstd level for blobs and archives.
pub const ZSTD_LEVEL: i32 = 3;

/// The bytes an archive header read decodes at most.
pub const HEADER_READ_CAP: usize = 4096;

/// Storage errors.
#[derive(Debug)]
pub enum StoreError {
    Io(std::io::Error),
    Json(serde_json::Error),
    /// A line failed its checksum; `line` is the 1-based file line number
    /// (the header is line 1).
    Corrupt { line: usize, expected: String, actual: String },
    Other(String),
}

/// The `Display` text of an I/O error; nothing is claimed of it.
#[verifier::external_body]
fn io_error_text(e: &std::io::Error) -> String {
    e.to_string()
}

/// The `Display` text of a JSON error; nothing is claimed of it.
#[verifier::external_body]
fn json_error_text(e: &serde_json::Error) -> String {
    e.to_string()
}

/// What the message of a storage error is: `io: ` or `json: ` before the
/// outside error's own text, the corrupt line with both checksums, or the
/// text itself.
pub open spec fn is_store_message(e: StoreError, r: Seq<char>) -> bool {
    match e {
        StoreError::Io(_) => r.len() >= 4 && r.take(4) == "io: "@,
        StoreError::Json(_) => r.len() >= 6 && r.take(6) == "json: "@,
        StoreError::Corrupt { line, expected, actual } => r == "corrupt session line "@ + crate::text::decimal(
            line as nat,
        ) + ": expected crc "@ + expected@ + ", found "@ + actual@,
        StoreError::Other(m) => r == m@,
    }
}

impl StoreError {
    /// The error as a message: `io: ...`, `json: ...`, the corrupt line
    /// with both checksums, or the text itself.
    pub fn message(&self) -> (r: String)
        ensures
            is_store_message(*self, r@),
    {
        match self {
            StoreError::Io(e) => {
                let mut out = chars_of("io: ");
                append_str(&mut out, io_error_text(e).as_str());
                proof {
                    reveal_strlit("io: ");
                }
                assert(out@.take(4) =~= "io: "@);
                string_of(&out)
            },
            StoreError::Json(e) => {
                let mut out = chars_of("json: ");
                append_str(&mut out, json_error_text(e).as_str());
                proof {
                    reveal_strlit("json: ");
                }
                assert(out@.take(6) =~= "json: "@);
                string_of(&out)
            },
            StoreError::Corrupt { line, expected, actual } => {
                let mut out = chars_of("corrupt session line ");
                push_decimal(&mut out, *line as u64);
                append_str(&mut out, ": expected crc ");
                append_str(&mut out, expected.as_str());
                append_str(&mut out, ", found ");
                append_str(&mut out, actual.as_str());
                string_of(&out)
            },
            StoreError::Other(m) => m.clone(),
        }
    }
}

/// A name for the frame `zstd::encode_all` makes of the bytes at a level.
pub uninterp spec fn spec_zstd_encode(input: Seq<u8>, level: i32) -> Seq<u8>;

/// A name for what `zstd::decode_all` makes of the bytes: the decoded
/// bytes, or `None` where the input is not a zstd frame it can decode.
pub uninterp spec fn spec_zstd_decode(input: Seq<u8>) -> Option<Seq<u8>>;

/// `zstd::encode_all` over a byte slice: the zstd frame of the bytes at
/// the level (a function of the two), which decodes back to them. A
/// failure of the encoder is passed on.
#[verifier::external_body]
fn zstd_encode(input: &[u8], level: i32) -> (r: Result<Vec<u8>, std::io::Error>)
    ensures
        r matches Ok(v) ==> v@ == spec_zstd_encode(input@, level) && spec_zstd_decode(v@) == Some(input@),
{
    zstd::encode_all(input, level)
}

/// `zstd::decode_all` over a byte slice: the decoded bytes, a function of
/// the input; an error exactly where it cannot decode them.
#[verifier::external_body]
fn zstd_decode(input: &[u8]) -> (r: Result<Vec<u8>, std::io::Error>)
    ensures
        match r {
            Ok(v) => spec_zstd_decode(input@) == Some(v@),
            Err(_) => spec_zstd_decode(input@) is None,
        },
{
    zstd::decode_all(input)
}

/// The content hash of blob bytes: their XXH3-64 as sixteen hex digits.
pub open spec fn blob_hash_of(bytes: Seq<u8>) -> Seq<char> {
    hex_fixed(spec_xxh3_64(bytes) as nat, 16)
}

fn blob_hash(bytes: &[u8]) -> (r: String)
    ensures
        r@ == blob_hash_of(bytes@),
{
    let h = xxh3_64(bytes);
    let mut v: Vec<char> = Vec::new();
    push_hex(&mut v, h, 16);
    string_of(&v)
}

/// The sidecar blob of an oversized payload (its serialized bytes): the
/// reference the entry keeps and the compressed bytes to store; `None`
/// when the payload fits inline.
pub fn blob_for(id: &str, payload: &[u8]) -> (r: Result<Option<(BlobRef, Vec<u8>)>, StoreError>)
    ensures
        payload@.len() <= DEFAULT_BLOB_THRESHOLD ==> r matches Ok(None),
        payload@.len() > DEFAULT_BLOB_THRESHOLD ==> match r {
            Ok(Some((b, c))) => {
                &&& b.id@ == id@
                &&& b.size == payload@.len()
                &&& b.hash@ == blob_hash_of(payload@)
                &&& c@ == spec_zstd_encode(payload@, ZSTD_LEVEL)
                &&& spec_zstd_decode(c@) == Some(payload@)
            },
            Err(StoreError::Io(_)) => true,
            _ => false,
        },
{
    if payload.len() as u64 <= DEFAULT_BLOB_THRESHOLD {
        return Ok(None);
    }
    let hash = blob_hash(payload);
    let compressed = match zstd_encode(payload, ZSTD_LEVEL) {
        Ok(c) => c,
        Err(e) => {
            return Err(StoreError::Io(e));
        },
    };
    Ok(Some((BlobRef { id: String::from_str(id), size: payload.len() as u64, hash }, compressed)))
}

/// The text of a blob's hash mismatch.
pub open spec fn mismatch_text(id: Seq<char>) -> Seq<char> {
    "blob "@ + id + " hash mismatch"@
}

/// Decode a stored blob, verifying its hash: the payload bytes, or an
/// error when they do not decode or do not hash to the reference's hash.
pub fn resolve_blob(reference: &BlobRef, compressed: &[u8]) -> (r: Result<Vec<u8>, StoreError>)
    ensures
        match spec_zstd_decode(compressed@) {
            None => r matches Err(StoreError::Other(_)),
            Some(b) => if blob_hash_of(b) == reference.hash@ {
                r matches Ok(v) && v@ == b
            } else {
                r matches Err(StoreError::Other(m)) && m@ == mismatch_text(reference.id@)
            },
        },
{
    let bytes = match zstd_decode(compressed) {
        Ok(b) => b,
        Err(e) => {
            return Err(StoreError::Other(io_error_text(&e)));
        },
    };
    let hash = blob_hash(bytes.as_slice());
    if !crate::text::chars_eq(&chars_of(hash.as_str()), &chars_of(reference.hash.as_str())) {
        let mut m = chars_of("blob ");
        append_str(&mut m, reference.id.as_str());
        append_str(&mut m, " hash mismatch");
        return Err(StoreError::Other(string_of(&m)));
    }
    Ok(bytes)
}

/// The archive of a session file's bytes: their zstd frame, which decodes
/// back to them.
pub fn archive_bytes(live: &[u8]) -> (r: Result<Vec<u8>, StoreError>)
    ensures
        match r {
            Ok(c) => c@ == spec_zstd_encode(live@, ZSTD_LEVEL) && spec_zstd_decode(c@) == Some(live@),
            Err(e) => e is Io,
        },
{
    match zstd_encode(live, ZSTD_LEVEL) {
        Ok(c) => Ok(c),
        Err(e) => Err(StoreError::Io(e)),
    }
}

/// A session file's bytes restored from its archive.
pub fn unarchive_bytes(archived: &[u8]) -> (r: Result<Vec<u8>, StoreError>)
    ensures
        match spec_zstd_decode(archived@) {
            Some(b) => r matches Ok(v) && v@ == b,
            None => r matches Err(StoreError::Io(_)),
        },
{
    match zstd_decode(archived) {
        Ok(b) => Ok(b),
        Err(e) => Err(StoreError::Io(e)),
    }
}

impl SessionStore {
    /// The sidecar blob file of an entry: `{root}/blobs/{id}`.
    pub fn blob_path(&self, id: &str) -> (r: String)
        ensures
            r@ == crate::session::path_join(crate::session::path_join(self@.root, "blobs"@), id@),
    {
        let dir = crate::session::join_path(self.root.as_str(), "blobs");
        crate::session::join_path(dir.as_str(), id)
    }

    /// Why a manual archive is refused: the live file is not present, or
    /// an archive of it already exists.
    pub fn archive_refusal(&self, live_exists: bool, archive_exists: bool) -> (r: Option<StoreError>)
        ensures
            !live_exists ==> (r matches Some(StoreError::Other(m)) && m@ == "cannot archive "@
                + crate::session::session_file(self@.root, self@.id) + ": not present"@),
            live_exists && archive_exists ==> (r matches Some(StoreError::Other(m)) && m@ == "archive "@
                + crate::session::archive_file(self@.root, self@.id) + " already exists"@),
            live_exists && !archive_exists ==> r is None,
    {
        if !live_exists {
            let mut m = chars_of("cannot archive ");
            append_str(&mut m, self.path().as_str());
            append_str(&mut m, ": not present");
            return Some(StoreError::Other(string_of(&m)));
        }
        if archive_exists {
            let mut m = chars_of("archive ");
            append_str(&mut m, self.archive_path().as_str());
            append_str(&mut m, " already exists");
            return Some(StoreError::Other(string_of(&m)));
        }
        None
    }

    /// Why an unarchive is refused: the live file is back, or there is no
    /// archive.
    pub fn unarchive_refusal(&self, live_exists: bool, archive_exists: bool) -> (r: Option<StoreError>)
        ensures
            live_exists ==> (r matches Some(StoreError::Other(m)) && m@ == "live session already present"@),
            !live_exists && !archive_exists ==> (r matches Some(StoreError::Other(m)) && m@ == "archive "@
                + crate::session::archive_file(self@.root, self@.id) + " not present"@),
            !live_exists && archive_exists ==> r is None,
    {
        if live_exists {
            return Some(StoreError::Other(String::from_str("live session already present")));
        }
        if !archive_exists {
            let mut m = chars_of("archive ");
            append_str(&mut m, self.archive_path().as_str());
            append_str(&mut m, " not present");
            return Some(StoreError::Other(string_of(&m)));
        }
        None
    }

    /// The archive's header line from the first bytes its stream decodes
    /// to (at most the read cap): the text before the first newline; an
    /// error when the bytes are not UTF-8, when the cap fills without a
    /// newline (the header overflows the read), or when there is none.
    pub fn archive_header_from(&self, decoded: &[u8]) -> (r: Result<String, StoreError>)
        requires
            decoded@.len() <= HEADER_READ_CAP,
        ensures
            !vstd::utf8::valid_utf8(decoded@) ==> r matches Err(StoreError::Other(_)),
            vstd::utf8::valid_utf8(decoded@) ==> ({
                let text = vstd::utf8::decode_utf8(decoded@);
                match find(text, seq!['\n']) {
                    Some(pos) => r matches Ok(h) && h@ == text.take(pos),
                    None => if decoded@.len() == HEADER_READ_CAP {
                        r matches Err(StoreError::Other(m)) && m@ == "archive "@ + self@.id
                            + " header exceeds the 4096-byte read"@
                    } else {
                        r matches Err(StoreError::Other(m)) && m@ == "archive "@ + self@.id + " has no header line"@
                    },
                }
            }),
    {
        let text = match crate::provider::str_from_utf8(decoded) {
            Ok(t) => t,
            Err(e) => {
                return Err(StoreError::Other(crate::provider::utf8_error_text(&e)));
            },
        };
        let v = chars_of(text);
        let nl = vec!['\n'];
        assert(nl@ =~= seq!['\n']);
        match crate::text::find_from_exec(&v, &nl, 0) {
            Some(pos) => {
                assert(find(v@, seq!['\n']) == Some(pos as int));
                proof {
                    crate::text::lemma_find_from_props(v@, seq!['\n'], 0);
                }
                let h = crate::text::slice_vec(&v, 0, pos);
                assert(h@ =~= v@.take(pos as int));
                Ok(string_of(&h))
            },
            None => {
                if decoded.len() == HEADER_READ_CAP {
                    let mut m = chars_of("archive ");
                    append_str(&mut m, self.id());
                    append_str(&mut m, " header exceeds the 4096-byte read");
                    Err(StoreError::Other(string_of(&m)))
                } else {
                    let mut m = chars_of("archive ");
                    append_str(&mut m, self.id());
                    append_str(&mut m, " has no header line");
                    Err(StoreError::Other(string_of(&m)))
                }
            },
        }
    }
}

/// The checksum check of a read entry line: its recorded checksum must be
/// the one its canonical line computes to; a mismatch or a missing one is
/// a corrupt line (`line` is the 1-based file line).
pub fn check_crc(line: usize, expected: &str, actual: Option<&str>) -> (r: Result<(), StoreError>)
    ensures
        match actual {
            Some(a) if a@ == expected@ => r is Ok,
            _ => r matches Err(StoreError::Corrupt { line: l, expected: e, actual: x }) && l == line && e@ == expected@
                && x@ == match actual {
                    Some(a) => a@,
                    None => Seq::<char>::empty(),
                },
        },
{
    match actual {
        Some(a) => {
            if crate::text::chars_eq(&chars_of(a), &chars_of(expected)) {
                return Ok(());
            }
            Err(StoreError::Corrupt { line, expected: String::from_str(expected), actual: String::from_str(a) })
        },
        None => Err(StoreError::Corrupt { line, expected: String::from_str(expected), actual: String::new() }),
    }
}

} // verus!
