//! The session store's pure parts: where a session's files live, its
//! header fields, the entry checksum, and fresh session ids. Reading and
//! writing the files is the application's.

use crate::om::groups::hex_fixed;
use crate::text::{append_chars, append_str, chars_eq, chars_of, decimal, ends_with, push_decimal, starts_with, string_of};
use vstd::prelude::*;

pub mod file;
pub mod lines;

verus! {

/// `Path::join` on Unix: an absolute component replaces the path; otherwise
/// it is appended after a separator unless the path is empty or already
/// ends with one.
pub open spec fn path_join(base: Seq<char>, c: Seq<char>) -> Seq<char> {
    if c.len() > 0 && c[0] == '/' {
        c
    } else if base.len() == 0 || base.last() == '/' {
        base + c
    } else {
        base + seq!['/'] + c
    }
}

/// `std::path::Path::join`: `base` with `c` pushed (`PathBuf::push` on
/// Unix: an absolute `c` replaces the path, a separator is inserted unless
/// `base` is empty or ends with one). Paths here are UTF-8 text.
#[verifier::external_body]
pub(crate) fn join_path(base: &str, c: &str) -> (r: String)
    ensures
        r@ == path_join(base@, c@),
{
    std::path::Path::new(base).join(c).to_string_lossy().into_owned()
}

/// The declared standard I/O error.
#[verifier::external_type_specification]
#[verifier::external_body]
pub struct ExIoError(std::io::Error);

/// The declared JSON error.
#[verifier::external_type_specification]
#[verifier::external_body]
pub struct ExJsonError(serde_json::Error);

/// The declared JSON value (a tool's parameter schema is carried as one).
#[verifier::external_type_specification]
#[verifier::external_body]
pub struct ExJsonValue(serde_json::Value);

/// Out-of-band sidecar blob: raw bytes stored compressed, referenced from
/// the owning entry.
#[derive(Debug, PartialEq, Eq)]
pub struct BlobRef {
    /// Blob file name (the owning entry's id).
    pub id: String,
    /// Uncompressed payload size in bytes.
    pub size: u64,
    /// Hex xxh3-64 of the uncompressed payload.
    pub hash: String,
}

/// One CRC-32 (IEEE, reflected) shift step.
pub open spec fn crc_shift(c: u32) -> u32 {
    (c >> 1u32) ^ (0xEDB8_8320u32 & ((c & 1u32) * 0xEDB8_8320u32) as u32)
}

/// Eight shift steps.
pub open spec fn crc_shifts(c: u32, k: nat) -> u32
    decreases k,
{
    if k == 0 {
        c
    } else {
        crc_shifts(crc_shift(c), (k - 1) as nat)
    }
}

/// The running register after the bytes (before the final inversion).
pub open spec fn crc_register(data: Seq<u8>) -> u32
    decreases data.len(),
{
    if data.len() == 0 {
        0xFFFF_FFFFu32
    } else {
        crc_shifts(crc_register(data.drop_last()) ^ (data.last() as u32), 8)
    }
}

/// CRC-32/IEEE of the bytes.
pub open spec fn crc32_of(data: Seq<u8>) -> u32 {
    !crc_register(data)
}

/// CRC-32/IEEE (the checksum of an entry's canonical line).
pub fn crc32(data: &[u8]) -> (r: u32)
    ensures
        r == crc32_of(data@),
{
    let mut crc: u32 = 0xFFFF_FFFF;
    let mut i: usize = 0;
    while i < data.len()
        invariant
            i <= data@.len(),
            crc == crc_register(data@.take(i as int)),
        decreases data@.len() - i,
    {
        assert(data@.take(i + 1).drop_last() =~= data@.take(i as int));
        crc = crc ^ (data[i] as u32);
        let mut k: u32 = 0;
        let ghost start = crc;
        while k < 8
            invariant
                k <= 8,
                crc_shifts(start, 8) == crc_shifts(crc, (8 - k) as nat),
            decreases 8 - k,
        {
            let bit = crc & 1;
            assert(bit <= 1) by (bit_vector)
                requires
                    bit == crc & 1,
            ;
            crc = (crc >> 1) ^ (0xEDB8_8320u32 & (bit * 0xEDB8_8320u32));
            k = k + 1;
        }
        i = i + 1;
    }
    assert(data@.take(data@.len() as int) =~= data@);
    !crc
}

/// The session file's name under the store root.
pub open spec fn session_file(root: Seq<char>, id: Seq<char>) -> Seq<char> {
    path_join(path_join(root, "sessions"@), id + ".jsonl"@)
}

/// The archived file's name under the store root.
pub open spec fn archive_file(root: Seq<char>, id: Seq<char>) -> Seq<char> {
    path_join(path_join(root, "archive"@), id + ".jsonl.zst"@)
}

/// A session file's place and header: one writer per session. The file
/// reads and writes are the application's.
pub struct SessionStore {
    id: String,
    root: String,
    fixed_time: Option<u64>,
    leaf: Option<String>,
    created: u64,
    title: Option<String>,
    parent: Option<String>,
    loaded: bool,
    file_len: u64,
    /// The ids of the file's entries, as loaded and appended.
    ids: Vec<String>,
    /// The number the next entry's id is made of.
    next: u64,
}

pub struct StoreView {
    pub id: Seq<char>,
    pub root: Seq<char>,
    pub fixed_time: Option<u64>,
    pub leaf: Option<Seq<char>>,
    pub created: u64,
    pub title: Option<Seq<char>>,
    pub parent: Option<Seq<char>>,
    pub loaded: bool,
    pub file_len: u64,
    pub ids: Seq<Seq<char>>,
    pub next: u64,
}

/// Two states of a store for the same session file: the same root and
/// the same id, so the same paths.
pub open spec fn same_place(a: StoreView, b: StoreView) -> bool {
    a.root == b.root && a.id == b.id
}

/// The leaf the in-memory log holds: the adopted or header leaf, else the
/// last loaded entry.
pub open spec fn cached_leaf_of(s: StoreView) -> Option<Seq<char>> {
    match s.leaf {
        Some(l) => Some(l),
        None => if s.ids.len() > 0 {
            Some(s.ids.last())
        } else {
            None
        },
    }
}

/// A store keeps its file: whatever runs of its methods leave the same
/// root and id, its session and archive paths stay those it was made with.
pub proof fn lemma_same_place_same_paths(a: StoreView, b: StoreView)
    requires
        same_place(a, b),
    ensures
        session_file(a.root, a.id) == session_file(b.root, b.id),
        archive_file(a.root, a.id) == archive_file(b.root, b.id),
{
}

/// An adopted leaf is the leaf the cached log serves, whatever was loaded.
pub proof fn lemma_adopted_leaf_is_served(s: StoreView, leaf: Seq<char>)
    ensures
        cached_leaf_of(StoreView { leaf: Some(leaf), ..s }) == Some(leaf),
        same_place(s, StoreView { leaf: Some(leaf), ..s }),
{
}

pub open spec fn opt_str(o: Option<String>) -> Option<Seq<char>> {
    match o {
        Some(s) => Some(s@),
        None => None,
    }
}

pub open spec fn opt_slice(o: Option<&str>) -> Option<Seq<char>> {
    match o {
        Some(s) => Some(s@),
        None => None,
    }
}

impl View for SessionStore {
    type V = StoreView;

    closed spec fn view(&self) -> StoreView {
        StoreView {
            id: self.id@,
            root: self.root@,
            fixed_time: self.fixed_time,
            leaf: opt_str(self.leaf),
            created: self.created,
            title: opt_str(self.title),
            parent: opt_str(self.parent),
            loaded: self.loaded,
            file_len: self.file_len,
            ids: crate::harness::str_views(self.ids@),
            next: self.next,
        }
    }
}

/// A fresh, unopened store.
pub open spec fn fresh_store(root: Seq<char>, id: Seq<char>) -> StoreView {
    StoreView {
        id,
        root,
        fixed_time: None,
        leaf: None,
        created: 0,
        title: None,
        parent: None,
        loaded: false,
        file_len: 0,
        ids: Seq::empty(),
        next: 0,
    }
}

impl SessionStore {
    /// The workspace-scoped store: rooted at `{project root}/.tau`.
    pub fn for_workspace(project_root: &str, id: &str) -> (s: Self)
        ensures
            s@ == fresh_store(path_join(project_root@, ".tau"@), id@),
    {
        let root = join_path(project_root, ".tau");
        SessionStore::new(root, id)
    }

    fn new(root: String, id: &str) -> (s: Self)
        ensures
            s@ == fresh_store(root@, id@),
    {
        let s = SessionStore {
            id: String::from_str(id),
            root,
            fixed_time: None,
            leaf: None,
            created: 0,
            title: None,
            parent: None,
            loaded: false,
            file_len: 0,
            ids: Vec::new(),
            next: 0,
        };
        assert(s@.ids =~= Seq::<Seq<char>>::empty());
        s
    }

    /// A fixed timestamp for every write (the seam that makes fixtures
    /// byte-deterministic).
    pub fn with_fixed_time(self, ms: u64) -> (s: Self)
        ensures
            s@ == (StoreView { fixed_time: Some(ms), ..self@ }),
    {
        let mut s = self;
        s.fixed_time = Some(ms);
        s
    }

    pub fn id(&self) -> (r: &str)
        ensures
            r@ == self@.id,
    {
        self.id.as_str()
    }

    /// The header's created timestamp (epoch ms).
    pub fn created(&self) -> (r: u64)
        ensures
            r == self@.created,
    {
        self.created
    }

    /// The header's title (a readable session name; absent on old files).
    pub fn title(&self) -> (r: Option<&str>)
        ensures
            opt_slice(r) == self@.title,
    {
        match &self.title {
            Some(t) => Some(t.as_str()),
            None => None,
        }
    }

    /// The creator session, for a sub-agent's session.
    pub fn parent(&self) -> (r: Option<&str>)
        ensures
            opt_slice(r) == self@.parent,
    {
        match &self.parent {
            Some(t) => Some(t.as_str()),
            None => None,
        }
    }

    /// The session file: `{root}/sessions/{id}.jsonl`.
    pub fn path(&self) -> (r: String)
        ensures
            r@ == session_file(self@.root, self@.id),
    {
        let dir = join_path(self.root.as_str(), "sessions");
        let mut name: Vec<char> = chars_of(self.id.as_str());
        append_str(&mut name, ".jsonl");
        let n = string_of(&name);
        join_path(dir.as_str(), n.as_str())
    }

    /// The archived file: `{root}/archive/{id}.jsonl.zst`.
    pub fn archive_path(&self) -> (r: String)
        ensures
            r@ == archive_file(self@.root, self@.id),
    {
        let dir = join_path(self.root.as_str(), "archive");
        let mut name: Vec<char> = chars_of(self.id.as_str());
        append_str(&mut name, ".jsonl.zst");
        let n = string_of(&name);
        join_path(dir.as_str(), n.as_str())
    }

    /// Adopt a branch choice another store just persisted: the leaf is
    /// taken in memory, without a second header rewrite.
    pub fn adopt_leaf(&mut self, leaf_id: &str)
        ensures
            final(self)@ == (StoreView { leaf: Some(leaf_id@), ..old(self)@ }),
            same_place(old(self)@, final(self)@),
    {
        self.leaf = Some(String::from_str(leaf_id));
    }

    /// The id of the entry the in-memory log holds as the leaf: the adopted
    /// or header leaf, else the last loaded entry.
    pub fn cached_leaf_id(&self) -> (r: Option<String>)
        ensures
            opt_str(r) == cached_leaf_of(self@),
    {
        match &self.leaf {
            Some(l) => Some(l.clone()),
            None => {
                if self.ids.len() > 0 {
                    Some(self.ids[self.ids.len() - 1].clone())
                } else {
                    None
                }
            },
        }
    }

    /// Whether the in-memory log must be refilled from the file, now
    /// `len` bytes long: it was never loaded, or the file grew past what the
    /// log holds (an external writer appended).
    pub fn refresh_if_grown(&self, len: u64) -> (r: bool)
        ensures
            r == (!self@.loaded || len > self@.file_len),
    {
        !self.loaded || len > self.file_len
    }

    /// Take the header line's fields on open: refused when the line is not
    /// a session header, has another format version, or names another
    /// session; otherwise the store takes its leaf, created time, title and
    /// creator.
    pub fn adopt_header(
        &mut self,
        kind: &str,
        version: u32,
        id: &str,
        created: u64,
        leaf: Option<String>,
        title: Option<String>,
        parent: Option<String>,
    ) -> (r: Result<(), crate::session::file::StoreError>)
        ensures
            kind@ != "session"@ ==> (r matches Err(crate::session::file::StoreError::Other(m)) && m@
                == "first line is not a session header"@) && *final(self) == *old(self),
            kind@ == "session"@ && version != crate::session::file::FILE_VERSION ==> (r matches Err(
                crate::session::file::StoreError::Other(m),
            ) && m@ == "unsupported session file version "@ + decimal(version as nat)) && *final(self) == *old(self),
            kind@ == "session"@ && version == crate::session::file::FILE_VERSION && id@ != old(self)@.id ==> (r matches Err(
                crate::session::file::StoreError::Other(m),
            ) && m@ == "header id "@ + id@ + " does not match file id "@ + old(self)@.id) && *final(self) == *old(self),
            same_place(old(self)@, final(self)@),
            kind@ == "session"@ && version == crate::session::file::FILE_VERSION && id@ == old(self)@.id ==> r is Ok
                && final(self)@ == (StoreView {
                leaf: opt_str(leaf),
                created,
                title: opt_str(title),
                parent: opt_str(parent),
                ..old(self)@
            }),
    {
        if !chars_eq(&chars_of(kind), &chars_of("session")) {
            return Err(crate::session::file::StoreError::Other(String::from_str("first line is not a session header")));
        }
        if version != crate::session::file::FILE_VERSION {
            let mut m = chars_of("unsupported session file version ");
            push_decimal(&mut m, version as u64);
            return Err(crate::session::file::StoreError::Other(string_of(&m)));
        }
        if !chars_eq(&chars_of(id), &chars_of(self.id.as_str())) {
            let mut m = chars_of("header id ");
            append_str(&mut m, id);
            append_str(&mut m, " does not match file id ");
            append_str(&mut m, self.id.as_str());
            return Err(crate::session::file::StoreError::Other(string_of(&m)));
        }
        self.leaf = leaf;
        self.created = created;
        self.title = title;
        self.parent = parent;
        Ok(())
    }

    /// Take the loaded entries' ids: the next entry number is one past the
    /// largest of theirs, and at least 1.
    pub fn adopt_entries(&mut self, ids: Vec<String>)
        requires
            forall|i: int| 0 <= i < ids@.len() ==> crate::session::lines::parsed_u64(#[trigger] ids@[i]@) != Some(
                u64::MAX as nat,
            ),
        ensures
            final(self)@ == (StoreView {
                ids: crate::harness::str_views(ids@),
                next: crate::session::lines::next_number_of(crate::harness::str_views(ids@)) as u64,
                ..old(self)@
            }),
            same_place(old(self)@, final(self)@),
    {
        let n = crate::session::lines::next_number(&ids);
        assert(crate::session::lines::line_views(ids@) == crate::harness::str_views(ids@));
        self.next = n;
        self.ids = ids;
    }

    /// The id the next appended entry gets.
    pub fn next_entry_id(&self) -> (r: String)
        ensures
            r@ == crate::session::lines::entry_id_of(self@.next as nat),
    {
        crate::session::lines::entry_id(self.next)
    }

    /// Whether the store holds an entry with this id.
    pub fn has_entry(&self, id: &str) -> (r: bool)
        ensures
            r == self@.ids.contains(id@),
    {
        let k = chars_of(id);
        let mut i: usize = 0;
        while i < self.ids.len()
            invariant
                i <= self.ids@.len(),
                k@ == id@,
                forall|j: int| 0 <= j < i ==> self@.ids[j] != id@,
            decreases self.ids@.len() - i,
        {
            if chars_eq(&chars_of(self.ids[i].as_str()), &k) {
                assert(self@.ids[i as int] == id@);
                return true;
            }
            i = i + 1;
        }
        false
    }

    /// Why an append under `parent` is refused: the parent is not an entry
    /// of this session.
    pub fn parent_refusal(&self, parent: Option<&str>) -> (r: Option<crate::session::file::StoreError>)
        ensures
            match parent {
                Some(p) => if self@.ids.contains(p@) {
                    r is None
                } else {
                    r matches Some(crate::session::file::StoreError::Other(m)) && m@ == "unknown parent "@ + p@
                },
                None => r is None,
            },
    {
        match parent {
            Some(p) => {
                if self.has_entry(p) {
                    None
                } else {
                    let mut m = chars_of("unknown parent ");
                    append_str(&mut m, p);
                    Some(crate::session::file::StoreError::Other(string_of(&m)))
                }
            },
            None => None,
        }
    }

    /// Why a branch choice is refused: the leaf is not an entry of this
    /// session.
    pub fn leaf_refusal(&self, leaf_id: &str) -> (r: Option<crate::session::file::StoreError>)
        ensures
            self@.ids.contains(leaf_id@) ==> r is None,
            !self@.ids.contains(leaf_id@) ==> (r matches Some(crate::session::file::StoreError::Other(m)) && m@
                == "unknown leaf "@ + leaf_id@),
    {
        if self.has_entry(leaf_id) {
            None
        } else {
            let mut m = chars_of("unknown leaf ");
            append_str(&mut m, leaf_id);
            Some(crate::session::file::StoreError::Other(string_of(&m)))
        }
    }

    /// Record an appended entry: its id joins the store's and the next
    /// number moves on.
    pub fn record_append(&mut self, id: String)
        requires
            old(self)@.next < u64::MAX,
        ensures
            final(self)@ == (StoreView {
                ids: old(self)@.ids.push(id@),
                next: (old(self)@.next + 1) as u64,
                loaded: true,
                ..old(self)@
            }),
            same_place(old(self)@, final(self)@),
    {
        let ghost before = self@.ids;
        self.ids.push(id);
        assert(self@.ids =~= before.push(self.ids@.last()@));
        self.next = self.next + 1;
        self.loaded = true;
    }

    /// The timestamp a write carries: the fixed time when one is set, the
    /// clock otherwise.
    pub fn now(&self) -> (r: u64)
        ensures
            self@.fixed_time matches Some(t) ==> r == t,
    {
        match self.fixed_time {
            Some(t) => t,
            None => clock_ms(),
        }
    }

    /// Whether the store has loaded its file.
    pub fn is_loaded(&self) -> (r: bool)
        ensures
            r == self@.loaded,
    {
        self.loaded
    }

    /// Record that the log now mirrors a file of `len` bytes.
    pub fn mark_loaded(&mut self, len: u64)
        ensures
            final(self)@ == (StoreView { loaded: true, file_len: len, ..old(self)@ }),
            same_place(old(self)@, final(self)@),
    {
        self.loaded = true;
        self.file_len = len;
    }
}

/// `std::time::SystemTime::now`: the epoch milliseconds of the clock
/// (0 before the epoch). Nothing is claimed of the value.
#[verifier::external_body]
fn clock_ms() -> u64 {
    std::time::SystemTime::now().duration_since(std::time::UNIX_EPOCH).map(|d| d.as_millis() as u64).unwrap_or(0)
}

/// The two lowercase hex digits of each byte, in order.
pub open spec fn hex_bytes(b: Seq<u8>) -> Seq<char>
    decreases b.len(),
{
    if b.len() == 0 {
        Seq::empty()
    } else {
        hex_bytes(b.drop_last()) + hex_fixed(b.last() as nat, 2)
    }
}

/// A session id from six random bytes: their twelve hex digits.
pub fn session_id_from(bytes: &[u8]) -> (r: String)
    ensures
        r@ == hex_bytes(bytes@),
{
    let mut out: Vec<char> = Vec::new();
    let mut i: usize = 0;
    while i < bytes.len()
        invariant
            i <= bytes@.len(),
            out@ == hex_bytes(bytes@.take(i as int)),
        decreases bytes@.len() - i,
    {
        assert(bytes@.take(i + 1).drop_last() =~= bytes@.take(i as int));
        crate::om::groups::push_hex(&mut out, bytes[i] as u64, 2);
        i = i + 1;
    }
    assert(bytes@.take(bytes@.len() as int) =~= bytes@);
    string_of(&out)
}

/// `rand::random`: six bytes from the thread-local generator. Nothing is
/// claimed of their values.
#[verifier::external_body]
fn random_six_bytes() -> (r: [u8; 6]) {
    rand::random::<[u8; 6]>()
}

/// A fresh 48-bit random session id: twelve lowercase hex digits.
pub fn new_session_id() -> (r: String)
    ensures
        exists|b: Seq<u8>| b.len() == 6 && r@ == hex_bytes(b),
        r@.len() == 12,
        forall|i: int| 0 <= i < r@.len() ==> is_hex_digit(#[trigger] r@[i]),
{
    let b = random_six_bytes();
    let r = session_id_from(&b);
    assert(b@.len() == 6);
    proof {
        lemma_hex_bytes_shape(b@);
    }
    r
}

/// A lowercase hexadecimal digit.
pub open spec fn is_hex_digit(c: char) -> bool {
    ('0' <= c && c <= '9') || ('a' <= c && c <= 'f')
}

proof fn lemma_hex_fixed_shape(n: nat, k: nat)
    ensures
        hex_fixed(n, k).len() == k,
        forall|i: int| 0 <= i < k ==> is_hex_digit(#[trigger] hex_fixed(n, k)[i]),
    decreases k,
{
    if k > 0 {
        lemma_hex_fixed_shape(n / 16, (k - 1) as nat);
        let d = (n % 16) as int;
        assert(is_hex_digit(crate::om::groups::hex_digit(d))) by {
            if d < 10 {
                assert(crate::om::groups::hex_digit(d) == (48 + d) as char);
            } else {
                assert(crate::om::groups::hex_digit(d) == (87 + d) as char);
            }
        }
    }
}

/// Two hex digits per byte.
pub proof fn lemma_hex_bytes_shape(b: Seq<u8>)
    ensures
        hex_bytes(b).len() == 2 * b.len(),
        forall|i: int| 0 <= i < hex_bytes(b).len() ==> is_hex_digit(#[trigger] hex_bytes(b)[i]),
    decreases b.len(),
{
    if b.len() > 0 {
        lemma_hex_bytes_shape(b.drop_last());
        lemma_hex_fixed_shape(b.last() as nat, 2);
        let p = hex_bytes(b.drop_last());
        let q = hex_fixed(b.last() as nat, 2);
        assert forall|i: int| 0 <= i < hex_bytes(b).len() implies is_hex_digit(#[trigger] hex_bytes(b)[i]) by {
            if i < p.len() {
                assert(hex_bytes(b)[i] == p[i]);
            } else {
                assert(hex_bytes(b)[i] == q[i - p.len()]);
            }
        }
    }
}

} // verus!
