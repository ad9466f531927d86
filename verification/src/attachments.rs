//! Local storage of message attachment files: configuration, file naming, the
//! decisions of one download, and the boot-time drain over pending attachments.
use std::collections::HashSet;
use vstd::prelude::*;
use vstd::string::*;
use vstd::utf8::*;

use crate::backfill::{min_id, min_of, lemma_min_of};
use crate::text::{
    i64_to_decimal, lemma_utf8_len_push, numeric_setting, opt_chars, opt_text, setting_or,
    signed_decimal, str_eq, string_push, utf8_len, utf8_of, utf8_width,
};

verus! {

broadcast use vstd::std_specs::hash::group_hash_axioms;

/// The largest name, in UTF-8 bytes, that a stored file gets. Linux `NAME_MAX`
/// is 255 bytes; 200 leaves headroom for the `.part` suffix.
pub const NAME_MAX_BYTES: usize = 200;

/// A character of a file name as it is stored: path separators and NUL become `_`.
pub open spec fn cleaned_char(c: char) -> char {
    if c == '/' || c == '\\' || c == '\0' {
        '_'
    } else {
        c
    }
}

/// A file name with every path separator and NUL replaced by `_`.
pub open spec fn cleaned_name(s: Seq<char>) -> Seq<char> {
    s.map_values(|c: char| cleaned_char(c))
}

/// The longest prefix of `s` whose UTF-8 encoding takes at most `limit` bytes
/// (cutting only between characters).
pub open spec fn longest_prefix_within(s: Seq<char>, limit: int) -> Seq<char>
    decreases s.len(),
{
    if utf8_len(s) <= limit || s.len() == 0 {
        s
    } else {
        longest_prefix_within(s.drop_last(), limit)
    }
}

/// The name a file is stored under: the cleaned name, `attachment` in place of
/// an empty name, `.` or `..`, and cut to at most [`NAME_MAX_BYTES`] bytes.
pub open spec fn sanitized_filename(name: Seq<char>) -> Seq<char> {
    let c = cleaned_name(name);
    if c.len() == 0 || c == "."@ || c == ".."@ {
        "attachment"@
    } else {
        longest_prefix_within(c, NAME_MAX_BYTES as int)
    }
}

proof fn lemma_utf8_len_prefix_grows(s: Seq<char>, j: int, k: int)
    requires
        0 <= j <= k <= s.len(),
    ensures
        utf8_len(s.take(j)) <= utf8_len(s.take(k)),
    decreases k - j,
{
    if j < k {
        lemma_utf8_len_prefix_grows(s, j, k - 1);
        assert(s.take(k) =~= s.take(k - 1).push(s[k - 1]));
        lemma_utf8_len_push(s.take(k - 1), s[k - 1]);
    }
}

/// A prefix that fits while one more character would not is the longest fitting prefix.
proof fn lemma_longest_prefix(s: Seq<char>, limit: int, k: int)
    requires
        0 <= k <= s.len(),
        utf8_len(s.take(k)) <= limit,
        k == s.len() || utf8_len(s.take(k + 1)) > limit,
    ensures
        longest_prefix_within(s, limit) == s.take(k),
    decreases s.len(),
{
    if utf8_len(s) <= limit {
        if k < s.len() {
            lemma_utf8_len_prefix_grows(s, k + 1, s.len() as int);
            assert(s.take(s.len() as int) =~= s);
        }
        assert(s.take(k) =~= s);
    } else if s.len() == 0 {
        assert(s.take(k) =~= s);
    } else {
        assert(k < s.len()) by {
            if k == s.len() {
                assert(s.take(k) =~= s);
            }
        }
        let t = s.drop_last();
        assert(t.take(k) =~= s.take(k));
        if k < t.len() {
            assert(t.take(k + 1) =~= s.take(k + 1));
        }
        lemma_longest_prefix(t, limit, k);
    }
}

/// The longest fitting prefix is a prefix of `s` that fits within `limit`
/// bytes, and either all of `s` or one character short of overflowing.
proof fn lemma_longest_prefix_shape(s: Seq<char>, limit: int)
    requires
        0 <= limit,
    ensures
        longest_prefix_within(s, limit).len() <= s.len(),
        longest_prefix_within(s, limit) == s.take(longest_prefix_within(s, limit).len() as int),
        utf8_len(longest_prefix_within(s, limit)) <= limit,
        longest_prefix_within(s, limit).len() == s.len() || utf8_len(
            s.take(longest_prefix_within(s, limit).len() as int + 1),
        ) > limit,
    decreases s.len(),
{
    if utf8_len(s) <= limit || s.len() == 0 {
        assert(s.take(s.len() as int) =~= s);
        if s.len() == 0 {
            assert(utf8_of(s) =~= Seq::<u8>::empty());
        }
    } else {
        let t = s.drop_last();
        lemma_longest_prefix_shape(t, limit);
        let r = longest_prefix_within(t, limit);
        assert(t.take(r.len() as int) =~= s.take(r.len() as int));
        if r.len() == t.len() {
            assert(s.take(r.len() as int + 1) =~= s);
        } else {
            assert(t.take(r.len() as int + 1) =~= s.take(r.len() as int + 1));
        }
    }
}

/// A stored file name is safe to use as one path component: it is never
/// empty, `.` or `..`, holds no `/`, `\` or NUL, and takes at most
/// [`NAME_MAX_BYTES`] bytes, leaving room for the `.part` suffix.
pub proof fn law_sanitized_name_is_safe(name: Seq<char>)
    ensures
        sanitized_filename(name).len() > 0,
        sanitized_filename(name) != "."@,
        sanitized_filename(name) != ".."@,
        forall|i: int|
            0 <= i < sanitized_filename(name).len() ==> {
                let c = #[trigger] sanitized_filename(name)[i];
                c != '/' && c != '\\' && c != '\0'
            },
        utf8_len(sanitized_filename(name)) <= NAME_MAX_BYTES,
{
    reveal_strlit("attachment");
    reveal_strlit(".");
    reveal_strlit("..");
    let c = cleaned_name(name);
    if !(c.len() == 0 || c == "."@ || c == ".."@) {
        let limit = NAME_MAX_BYTES as int;
        lemma_longest_prefix_shape(c, limit);
        let r = longest_prefix_within(c, limit);
        let k = r.len() as int;
        assert forall|i: int| 0 <= i < r.len() implies {
            let x = #[trigger] r[i];
            x != '/' && x != '\\' && x != '\0'
        } by {
            assert(r[i] == c[i]);
        }
        if k < c.len() {
            assert(c.take(k + 1) =~= c.take(k).push(c[k]));
            lemma_utf8_len_push(c.take(k), c[k]);
            assert(c.take(k) == r);
            // one more character (at most 4 bytes) overflows, so `r` holds more than 196 bytes
            assert(encode_scalar(c[k] as u32).len() <= 4);
            assert(utf8_len(r) > 196);
            if r.len() <= 2 {
                lemma_utf8_len_short(r);
            }
            assert(r.len() > 2);
        } else {
            assert(c.take(k) =~= c);
        }
        assert("."@.len() == 1 && ".."@.len() == 2);
    } else {
        assert(utf8_len("attachment"@) <= NAME_MAX_BYTES) by {
            lemma_utf8_len_short_bound("attachment"@);
        }
    }
}

/// Cleaning a name keeps its UTF-8 length: the replaced characters and `_`
/// take one byte each.
proof fn lemma_cleaned_utf8_len(s: Seq<char>)
    ensures
        utf8_len(cleaned_name(s)) == utf8_len(s),
    decreases s.len(),
{
    if s.len() > 0 {
        let t = s.drop_last();
        let x = s.last();
        lemma_cleaned_utf8_len(t);
        assert(s =~= t.push(x));
        assert(cleaned_name(s) =~= cleaned_name(t).push(cleaned_char(x)));
        lemma_utf8_len_push(t, x);
        lemma_utf8_len_push(cleaned_name(t), cleaned_char(x));
    }
}

/// A name that is not empty, `.` or `..` is stored character by character:
/// each kept character is the name's own, except that `/`, `\` and NUL become
/// `_`; characters are cut off the end only when the next one would take the
/// name past [`NAME_MAX_BYTES`] bytes. So a name that is already safe and
/// fits is stored unchanged. An empty name, `.` and `..` are stored as
/// `attachment`.
pub proof fn law_sanitize_keeps_the_name(name: Seq<char>)
    ensures
        (name.len() == 0 || name == "."@ || name == ".."@) ==> sanitized_filename(name) == "attachment"@,
        !(name.len() == 0 || name == "."@ || name == ".."@) ==> {
            let r = sanitized_filename(name);
            &&& r.len() <= name.len()
            &&& forall|i: int|
                0 <= i < r.len() ==> #[trigger] r[i] == (if name[i] == '/' || name[i] == '\\' || name[i] == '\0' {
                    '_'
                } else {
                    name[i]
                })
            &&& r.len() < name.len() ==> utf8_len(name.take(r.len() as int + 1)) > NAME_MAX_BYTES
            &&& (utf8_len(name) <= NAME_MAX_BYTES && forall|i: int|
                0 <= i < name.len() ==> #[trigger] name[i] != '/' && name[i] != '\\' && name[i] != '\0') ==> r == name
        },
{
    reveal_strlit(".");
    reveal_strlit("..");
    let c = cleaned_name(name);
    if name.len() == 0 || name == "."@ || name == ".."@ {
        assert(c =~= name);
    }
    if !(name.len() == 0 || name == "."@ || name == ".."@) {
        assert(!(c.len() == 0 || c == "."@ || c == ".."@)) by {
            assert(c.len() == name.len());
            if c == "."@ {
                assert(c[0] == cleaned_char(name[0]));
                assert(c[0] == '.');
                assert(name =~= "."@);
            }
            if c == ".."@ {
                assert(c[0] == cleaned_char(name[0]) && c[1] == cleaned_char(name[1]));
                assert(c[0] == '.' && c[1] == '.');
                assert(name =~= ".."@);
            }
        }
        let limit = NAME_MAX_BYTES as int;
        lemma_longest_prefix_shape(c, limit);
        let r = longest_prefix_within(c, limit);
        assert(sanitized_filename(name) == r);
        assert forall|i: int| 0 <= i < r.len() implies #[trigger] r[i] == (if name[i] == '/' || name[i] == '\\'
            || name[i] == '\0' {
            '_'
        } else {
            name[i]
        }) by {
            assert(r[i] == c[i]);
        }
        if r.len() < name.len() {
            let k = r.len() as int + 1;
            assert(cleaned_name(name.take(k)) =~= c.take(k));
            lemma_cleaned_utf8_len(name.take(k));
        }
        if utf8_len(name) <= limit && forall|i: int|
            0 <= i < name.len() ==> #[trigger] name[i] != '/' && name[i] != '\\' && name[i] != '\0' {
            assert(c =~= name);
            assert(r == c);
        }
    }
}

/// A sequence of at most two characters takes at most 8 bytes.
proof fn lemma_utf8_len_short(s: Seq<char>)
    requires
        s.len() <= 2,
    ensures
        utf8_len(s) <= 8,
{
    lemma_utf8_len_short_bound(s);
}

/// A character sequence takes at most 4 bytes per character.
proof fn lemma_utf8_len_short_bound(s: Seq<char>)
    ensures
        utf8_len(s) <= 4 * s.len(),
    decreases s.len(),
{
    if s.len() > 0 {
        lemma_utf8_len_short_bound(s.drop_first());
        assert(utf8_of(s) =~= encode_scalar(s[0] as u32) + utf8_of(s.drop_first()));
    }
}

/// Defense in depth against path traversal / unrepresentable names; the
/// per-attachment-id directory already guarantees uniqueness, so
/// post-sanitization collisions don't matter.
pub fn sanitize_filename(name: &str) -> (r: String)
    ensures
        r@ == sanitized_filename(name@),
{
    let n = name.unicode_len();
    let mut cleaned = String::new();
    let mut i: usize = 0;
    while i < n
        invariant
            n == name@.len(),
            i <= n,
            cleaned@ == cleaned_name(name@.take(i as int)),
        decreases n - i,
    {
        let c = name.get_char(i);
        let d = if c == '/' || c == '\\' || c == '\0' {
            '_'
        } else {
            c
        };
        string_push(&mut cleaned, d);
        assert(cleaned_name(name@.take(i + 1)) =~= cleaned_name(name@.take(i as int)).push(d));
        i = i + 1;
    }
    assert(name@.take(n as int) =~= name@);
    let ghost c = cleaned@;
    if n == 0 || str_eq(cleaned.as_str(), ".") || str_eq(cleaned.as_str(), "..") {
        return "attachment".to_owned();
    }
    let mut cut = String::new();
    let mut bytes: usize = 0;
    let mut k: usize = 0;
    while k < n
        invariant
            c == cleaned@,
            c == cleaned_name(name@),
            !(c.len() == 0 || c == "."@ || c == ".."@),
            n == c.len(),
            k <= n,
            cut@ == c.take(k as int),
            bytes as int == utf8_len(c.take(k as int)),
            bytes <= NAME_MAX_BYTES,
        decreases n - k,
    {
        let d = cleaned.as_str().get_char(k);
        let w = utf8_width(d);
        proof {
            assert(c.take(k + 1) =~= c.take(k as int).push(d));
            lemma_utf8_len_push(c.take(k as int), d);
        }
        if bytes + w > NAME_MAX_BYTES {
            proof {
                lemma_longest_prefix(c, NAME_MAX_BYTES as int, k as int);
            }
            return cut;
        }
        string_push(&mut cut, d);
        bytes = bytes + w;
        k = k + 1;
    }
    proof {
        lemma_longest_prefix(c, NAME_MAX_BYTES as int, n as int);
    }
    cut
}


/// The size cap of a stored attachment when none is configured (100 MiB).
pub const DEFAULT_MAX_BYTES: u64 = 104857600;

/// The pause between two message fetches of the drain when none is configured
/// (matches backfill's page delay).
pub const DEFAULT_FETCH_DELAY_MS: u64 = 750;

/// How attachments are stored.
pub struct Config {
    /// The directory that holds the stored files.
    pub dir: String,
    /// The largest attachment stored, in bytes.
    pub max_bytes: u64,
    /// The pause between two message fetches of the drain, in milliseconds.
    pub fetch_delay_ms: u64,
}

/// Storage is switched off: explicitly disabled, or no directory given.
pub open spec fn storage_disabled(disable: Option<Seq<char>>, dir: Option<Seq<char>>) -> bool {
    disable == Some("1"@) || match dir {
        None => true,
        Some(d) => d.len() == 0,
    }
}

impl Config {
    /// The configuration from the settings `ATTACHMENTS_DISABLE`,
    /// `ATTACHMENTS_DIR`, `ATTACHMENTS_MAX_BYTES` and `ATTACHMENTS_FETCH_DELAY_MS`
    /// (each `None` when unset). `None` = feature off (disabled with `1`, or no
    /// directory), so deployments without the settings keep working. Bad
    /// numeric values fall back to their defaults rather than failing.
    pub fn from_settings(
        disable: Option<&str>,
        dir: Option<&str>,
        max_bytes: Option<&str>,
        fetch_delay_ms: Option<&str>,
    ) -> (r: Option<Config>)
        ensures
            r is None <==> storage_disabled(opt_chars(disable), opt_chars(dir)),
            r matches Some(c) ==> {
                &&& Some(c.dir@) == opt_chars(dir)
                &&& c.max_bytes == setting_or(opt_chars(max_bytes), DEFAULT_MAX_BYTES)
                &&& c.fetch_delay_ms == setting_or(opt_chars(fetch_delay_ms), DEFAULT_FETCH_DELAY_MS)
            },
    {
        if let Some(d) = disable {
            if str_eq(d, "1") {
                return None;
            }
        }
        let dir = match dir {
            Some(d) if d.unicode_len() > 0 => d.to_owned(),
            _ => return None,
        };
        Some(Config {
            dir,
            max_bytes: numeric_setting(max_bytes, DEFAULT_MAX_BYTES),
            fetch_delay_ms: numeric_setting(fetch_delay_ms, DEFAULT_FETCH_DELAY_MS),
        })
    }
}


/// How an attachment's download was resolved, as recorded in the file log.
#[derive(Debug, Clone, Copy, PartialEq, Eq, Structural)]
pub enum FileStatus {
    /// The file was downloaded and stored.
    Stored,
    /// The file is larger than the cap and was not stored.
    Oversized,
    /// The file is gone upstream for good.
    Gone,
}

/// The text under which a status is recorded.
pub open spec fn status_text(s: FileStatus) -> Seq<char> {
    match s {
        FileStatus::Stored => "stored"@,
        FileStatus::Oversized => "oversized"@,
        FileStatus::Gone => "gone"@,
    }
}

impl FileStatus {
    /// The text under which the status is recorded.
    pub fn as_str(&self) -> (r: &'static str)
        ensures
            r@ == status_text(*self),
    {
        match self {
            FileStatus::Stored => "stored",
            FileStatus::Oversized => "oversized",
            FileStatus::Gone => "gone",
        }
    }
}

/// A row of the attachment file log: the resolution of one attachment.
#[derive(Debug)]
pub struct FileRecord {
    pub attachment_id: i64,
    pub status: FileStatus,
    /// Where the file was stored, relative to the attachment directory.
    pub path: Option<String>,
    /// The size recorded for the file, in bytes.
    pub size: Option<i64>,
    pub content_type: Option<String>,
}

/// What a [`FileRecord`] holds, as mathematical values.
pub struct RecordView {
    pub attachment_id: i64,
    pub status: FileStatus,
    pub path: Option<Seq<char>>,
    pub size: Option<i64>,
    pub content_type: Option<Seq<char>>,
}

impl View for FileRecord {
    type V = RecordView;

    open spec fn view(&self) -> RecordView {
        RecordView {
            attachment_id: self.attachment_id,
            status: self.status,
            path: opt_text(self.path),
            size: self.size,
            content_type: opt_text(self.content_type),
        }
    }
}

fn clone_opt(o: &Option<String>) -> (r: Option<String>)
    ensures
        opt_text(r) == opt_text(*o),
{
    match o {
        None => None,
        Some(t) => Some(t.clone()),
    }
}

/// What the live download path knows of an attachment.
pub struct AttachmentInfo {
    pub id: i64,
    pub filename: String,
    pub url: String,
    /// The size that Discord reports for the file.
    pub size: u32,
    pub content_type: Option<String>,
}

/// Where a download stands.
#[derive(Debug, Clone, Copy, PartialEq, Eq, Structural)]
pub enum Phase {
    Begin,
    AwaitDir,
    AwaitResponse,
    AwaitTemp,
    Streaming,
    AwaitWrite,
    AwaitSync,
    AwaitRename,
    /// Removing the temp file; `true` when the stream overran the cap, which
    /// is then recorded.
    Cleanup(bool),
    /// Writing a row; the download then finishes with this outcome.
    Finishing(bool),
    Done(bool),
}

/// What happened since the last action of a download.
#[derive(Debug, Clone, Copy, PartialEq, Eq, Structural)]
pub enum DownloadEvent {
    Started,
    DirCreated { ok: bool },
    /// The server answered with this HTTP status and `Content-Length`.
    Responded { status: u16, content_length: Option<u64> },
    RequestFailed,
    TempCreated { ok: bool },
    ChunkReceived { len: u64 },
    StreamFailed,
    ChunkWritten { ok: bool },
    StreamEnded,
    Synced { ok: bool },
    Renamed { ok: bool },
    TempRemoved,
    Recorded,
}

/// What a download asks to be done next.
#[derive(Debug)]
pub enum DownloadAction {
    /// Create the attachment's directory.
    CreateDir,
    /// Request the attachment's URL.
    SendRequest,
    /// Create (truncating) the temp file.
    CreateTemp,
    /// Read the next chunk of the response body.
    ReadChunk,
    /// Write the chunk just read to the temp file.
    WriteChunk,
    /// Flush the temp file to disk.
    SyncFile,
    /// Move the temp file to the final name.
    RenameToFinal,
    /// Remove the temp file.
    RemoveTemp,
    /// Write this row to the file log.
    Record(FileRecord),
    /// Stop: `true` when a row was written, `false` on a transient failure
    /// (nothing recorded, so the next boot's drain retries).
    Finish(bool),
}

/// What a [`DownloadAction`] is, as mathematical values.
pub enum ActionView {
    CreateDir,
    SendRequest,
    CreateTemp,
    ReadChunk,
    WriteChunk,
    SyncFile,
    RenameToFinal,
    RemoveTemp,
    Record(RecordView),
    Finish(bool),
}

impl View for DownloadAction {
    type V = ActionView;

    open spec fn view(&self) -> ActionView {
        match self {
            DownloadAction::CreateDir => ActionView::CreateDir,
            DownloadAction::SendRequest => ActionView::SendRequest,
            DownloadAction::CreateTemp => ActionView::CreateTemp,
            DownloadAction::ReadChunk => ActionView::ReadChunk,
            DownloadAction::WriteChunk => ActionView::WriteChunk,
            DownloadAction::SyncFile => ActionView::SyncFile,
            DownloadAction::RenameToFinal => ActionView::RenameToFinal,
            DownloadAction::RemoveTemp => ActionView::RemoveTemp,
            DownloadAction::Record(r) => ActionView::Record(r@),
            DownloadAction::Finish(b) => ActionView::Finish(*b),
        }
    }
}

/// One attachment download, driven step by step: the caller performs each
/// action and reports what happened.
pub struct Download {
    id: i64,
    max_bytes: u64,
    reported_size: u32,
    name: String,
    content_type: Option<String>,
    written: u64,
    phase: Phase,
}

/// What a [`Download`] holds, as mathematical values.
pub struct DownloadView {
    pub id: i64,
    pub max_bytes: u64,
    pub reported_size: u32,
    /// The sanitized file name.
    pub name: Seq<char>,
    pub content_type: Option<Seq<char>>,
    /// The bytes of the body received so far.
    pub written: u64,
    pub phase: Phase,
}

impl View for Download {
    type V = DownloadView;

    closed spec fn view(&self) -> DownloadView {
        DownloadView {
            id: self.id,
            max_bytes: self.max_bytes,
            reported_size: self.reported_size,
            name: self.name@,
            content_type: opt_text(self.content_type),
            written: self.written,
            phase: self.phase,
        }
    }
}

/// The path of the stored file relative to the attachment directory: `{id}/{name}`.
pub open spec fn relative_path(d: DownloadView) -> Seq<char> {
    signed_decimal(d.id as int) + "/"@ + d.name
}

/// The row recording an attachment as too large, with the size that showed it.
pub open spec fn oversized_record(d: DownloadView, size: i64) -> RecordView {
    RecordView {
        attachment_id: d.id,
        status: FileStatus::Oversized,
        path: None,
        size: Some(size),
        content_type: d.content_type,
    }
}

/// The row recording an attachment as gone upstream.
pub open spec fn gone_record(d: DownloadView) -> RecordView {
    RecordView { attachment_id: d.id, status: FileStatus::Gone, path: None, size: None, content_type: d.content_type }
}

/// The row recording a stored attachment.
pub open spec fn stored_record(d: DownloadView) -> RecordView {
    RecordView {
        attachment_id: d.id,
        status: FileStatus::Stored,
        path: Some(relative_path(d)),
        size: Some(d.written as i64),
        content_type: d.content_type,
    }
}

/// The events a download expects in each phase.
pub open spec fn expects(phase: Phase, e: DownloadEvent) -> bool {
    match phase {
        Phase::Begin => e is Started,
        Phase::AwaitDir => e is DirCreated,
        Phase::AwaitResponse => e is Responded || e is RequestFailed,
        Phase::AwaitTemp => e is TempCreated,
        Phase::Streaming => e is ChunkReceived || e is StreamFailed || e is StreamEnded,
        Phase::AwaitWrite => e is ChunkWritten,
        Phase::AwaitSync => e is Synced,
        Phase::AwaitRename => e is Renamed,
        Phase::Cleanup(_) => e is TempRemoved,
        Phase::Finishing(_) => e is Recorded,
        Phase::Done(_) => false,
    }
}

/// The same download in another phase.
pub open spec fn in_phase(d: DownloadView, p: Phase) -> DownloadView {
    DownloadView { phase: p, ..d }
}

/// A transient failure: nothing recorded, the download gives up.
pub open spec fn give_up(d: DownloadView) -> (DownloadView, ActionView) {
    (in_phase(d, Phase::Done(false)), ActionView::Finish(false))
}

/// A failure once the temp file exists: remove it, then give up.
pub open spec fn clean_up(d: DownloadView) -> (DownloadView, ActionView) {
    (in_phase(d, Phase::Cleanup(false)), ActionView::RemoveTemp)
}

/// Whether an HTTP status is a success (2xx).
pub open spec fn is_success(status: u16) -> bool {
    200 <= status <= 299
}

/// Whether an HTTP status is a client error (4xx).
pub open spec fn is_client_error(status: u16) -> bool {
    400 <= status <= 499
}

/// One step of a download: from what happened, the next phase and action.
///  * The size Discord reports is checked first (no network): over the cap,
///    the attachment is recorded oversized with that size.
///  * A 4xx answer (such as 404 or 403) from the (fresh) URL means the file is
///    gone for good and is recorded so; other non-2xx answers, network and
///    disk errors are transient failures that record nothing.
///  * A `Content-Length` over the cap is recorded as oversized with that length.
///  * The body is streamed to a temp file while counting bytes against the cap;
///    an overrun removes the temp file and records the observed size, not the
///    (smaller) claimed one, so that the same cap does not re-admit the row.
///  * Once synced, the temp file is renamed to its final name and recorded as
///    stored under `{id}/{name}` with the number of bytes written.
pub open spec fn step_spec(d: DownloadView, e: DownloadEvent) -> (DownloadView, ActionView) {
    match (d.phase, e) {
        (Phase::Begin, DownloadEvent::Started) => if d.reported_size as u64 > d.max_bytes {
            (
                in_phase(d, Phase::Finishing(true)),
                ActionView::Record(oversized_record(d, d.reported_size as i64)),
            )
        } else {
            (in_phase(d, Phase::AwaitDir), ActionView::CreateDir)
        },
        (Phase::AwaitDir, DownloadEvent::DirCreated { ok }) => if ok {
            (in_phase(d, Phase::AwaitResponse), ActionView::SendRequest)
        } else {
            give_up(d)
        },
        (Phase::AwaitResponse, DownloadEvent::RequestFailed) => give_up(d),
        (Phase::AwaitResponse, DownloadEvent::Responded { status, content_length }) => if is_client_error(
            status,
        ) {
            (in_phase(d, Phase::Finishing(true)), ActionView::Record(gone_record(d)))
        } else if !is_success(status) {
            give_up(d)
        } else if content_length matches Some(len) && len > d.max_bytes {
            (
                in_phase(d, Phase::Finishing(true)),
                ActionView::Record(oversized_record(d, content_length->0 as i64)),
            )
        } else {
            (in_phase(d, Phase::AwaitTemp), ActionView::CreateTemp)
        },
        (Phase::AwaitTemp, DownloadEvent::TempCreated { ok }) => if ok {
            (in_phase(d, Phase::Streaming), ActionView::ReadChunk)
        } else {
            give_up(d)
        },
        (Phase::Streaming, DownloadEvent::ChunkReceived { len }) => {
            let w = (d.written + len) as u64;
            if w > d.max_bytes {
                (DownloadView { phase: Phase::Cleanup(true), written: w, ..d }, ActionView::RemoveTemp)
            } else {
                (DownloadView { phase: Phase::AwaitWrite, written: w, ..d }, ActionView::WriteChunk)
            }
        },
        (Phase::Streaming, DownloadEvent::StreamFailed) => clean_up(d),
        (Phase::Streaming, DownloadEvent::StreamEnded) => (
            in_phase(d, Phase::AwaitSync),
            ActionView::SyncFile,
        ),
        (Phase::AwaitWrite, DownloadEvent::ChunkWritten { ok }) => if ok {
            (in_phase(d, Phase::Streaming), ActionView::ReadChunk)
        } else {
            clean_up(d)
        },
        (Phase::AwaitSync, DownloadEvent::Synced { ok }) => if ok {
            (in_phase(d, Phase::AwaitRename), ActionView::RenameToFinal)
        } else {
            clean_up(d)
        },
        (Phase::AwaitRename, DownloadEvent::Renamed { ok }) => if ok {
            (in_phase(d, Phase::Finishing(true)), ActionView::Record(stored_record(d)))
        } else {
            clean_up(d)
        },
        (Phase::Cleanup(overran), DownloadEvent::TempRemoved) => if overran {
            (
                in_phase(d, Phase::Finishing(true)),
                ActionView::Record(oversized_record(d, d.written as i64)),
            )
        } else {
            give_up(d)
        },
        (Phase::Finishing(outcome), DownloadEvent::Recorded) => (
            in_phase(d, Phase::Done(outcome)),
            ActionView::Finish(outcome),
        ),
        _ => (d, ActionView::Finish(false)),
    }
}

impl Download {
    /// A download of `attachment` under the size cap `max_bytes`, not yet started.
    pub fn new(attachment: &AttachmentInfo, max_bytes: u64) -> (r: Download)
        ensures
            r@ == (DownloadView {
                id: attachment.id,
                max_bytes,
                reported_size: attachment.size,
                name: sanitized_filename(attachment.filename@),
                content_type: opt_text(attachment.content_type),
                written: 0,
                phase: Phase::Begin,
            }),
    {
        Download {
            id: attachment.id,
            max_bytes,
            reported_size: attachment.size,
            name: sanitize_filename(attachment.filename.as_str()),
            content_type: clone_opt(&attachment.content_type),
            written: 0,
            phase: Phase::Begin,
        }
    }

    /// The name of the attachment's directory under the attachment directory: its id.
    pub fn dir_name(&self) -> (r: String)
        ensures
            r@ == signed_decimal(self@.id as int),
    {
        i64_to_decimal(self.id)
    }

    /// The name of the stored file within the attachment's directory.
    pub fn file_name(&self) -> (r: String)
        ensures
            r@ == self@.name,
    {
        self.name.clone()
    }

    /// The name of the temp file, in the same directory so that the final
    /// rename is atomic.
    pub fn temp_name(&self) -> (r: String)
        ensures
            r@ == self@.name + ".part"@,
    {
        let mut t = self.name.clone();
        t.append(".part");
        t
    }

    /// The number of body bytes received so far.
    pub fn written(&self) -> (r: u64)
        ensures
            r == self@.written,
    {
        self.written
    }

    fn record(&self, status: FileStatus, path: Option<String>, size: Option<i64>) -> (r: FileRecord)
        ensures
            r@ == (RecordView {
                attachment_id: self@.id,
                status,
                path: opt_text(path),
                size,
                content_type: self@.content_type,
            }),
    {
        FileRecord { attachment_id: self.id, status, path, size, content_type: clone_opt(&self.content_type) }
    }

    /// Takes one step (see [`step_spec`]).
    pub fn step(&mut self, event: DownloadEvent) -> (r: DownloadAction)
        requires
            expects(old(self)@.phase, event),
            event matches DownloadEvent::ChunkReceived { len } ==> old(self)@.written + len <= u64::MAX,
        ensures
            (final(self)@, r@) == step_spec(old(self)@, event),
    {
        match (self.phase, event) {
            (Phase::Begin, DownloadEvent::Started) => {
                if self.reported_size as u64 > self.max_bytes {
                    self.phase = Phase::Finishing(true);
                    DownloadAction::Record(self.record(FileStatus::Oversized, None, Some(self.reported_size as i64)))
                } else {
                    self.phase = Phase::AwaitDir;
                    DownloadAction::CreateDir
                }
            },
            (Phase::AwaitDir, DownloadEvent::DirCreated { ok }) => {
                if ok {
                    self.phase = Phase::AwaitResponse;
                    DownloadAction::SendRequest
                } else {
                    self.phase = Phase::Done(false);
                    DownloadAction::Finish(false)
                }
            },
            (Phase::AwaitResponse, DownloadEvent::RequestFailed) => {
                self.phase = Phase::Done(false);
                DownloadAction::Finish(false)
            },
            (Phase::AwaitResponse, DownloadEvent::Responded { status, content_length }) => {
                if 400 <= status && status <= 499 {
                    self.phase = Phase::Finishing(true);
                    DownloadAction::Record(self.record(FileStatus::Gone, None, None))
                } else if !(200 <= status && status <= 299) {
                    self.phase = Phase::Done(false);
                    DownloadAction::Finish(false)
                } else {
                    match content_length {
                        Some(len) if len > self.max_bytes => {
                            self.phase = Phase::Finishing(true);
                            DownloadAction::Record(self.record(FileStatus::Oversized, None, Some(len as i64)))
                        },
                        _ => {
                            self.phase = Phase::AwaitTemp;
                            DownloadAction::CreateTemp
                        },
                    }
                }
            },
            (Phase::AwaitTemp, DownloadEvent::TempCreated { ok }) => {
                if ok {
                    self.phase = Phase::Streaming;
                    DownloadAction::ReadChunk
                } else {
                    self.phase = Phase::Done(false);
                    DownloadAction::Finish(false)
                }
            },
            (Phase::Streaming, DownloadEvent::ChunkReceived { len }) => {
                self.written = self.written + len;
                if self.written > self.max_bytes {
                    self.phase = Phase::Cleanup(true);
                } else {
                    self.phase = Phase::AwaitWrite;
                }
                if self.written > self.max_bytes {
                    DownloadAction::RemoveTemp
                } else {
                    DownloadAction::WriteChunk
                }
            },
            (Phase::Streaming, DownloadEvent::StreamFailed) => {
                self.phase = Phase::Cleanup(false);
                DownloadAction::RemoveTemp
            },
            (Phase::Streaming, DownloadEvent::StreamEnded) => {
                self.phase = Phase::AwaitSync;
                DownloadAction::SyncFile
            },
            (Phase::AwaitWrite, DownloadEvent::ChunkWritten { ok }) => {
                if ok {
                    self.phase = Phase::Streaming;
                    DownloadAction::ReadChunk
                } else {
                    self.phase = Phase::Cleanup(false);
                    DownloadAction::RemoveTemp
                }
            },
            (Phase::AwaitSync, DownloadEvent::Synced { ok }) => {
                if ok {
                    self.phase = Phase::AwaitRename;
                    DownloadAction::RenameToFinal
                } else {
                    self.phase = Phase::Cleanup(false);
                    DownloadAction::RemoveTemp
                }
            },
            (Phase::AwaitRename, DownloadEvent::Renamed { ok }) => {
                if ok {
                    let mut path = i64_to_decimal(self.id);
                    path.append("/");
                    path.append(self.name.as_str());
                    self.phase = Phase::Finishing(true);
                    DownloadAction::Record(self.record(FileStatus::Stored, Some(path), Some(self.written as i64)))
                } else {
                    self.phase = Phase::Cleanup(false);
                    DownloadAction::RemoveTemp
                }
            },
            (Phase::Cleanup(overran), DownloadEvent::TempRemoved) => {
                if overran {
                    self.phase = Phase::Finishing(true);
                    DownloadAction::Record(self.record(FileStatus::Oversized, None, Some(self.written as i64)))
                } else {
                    self.phase = Phase::Done(false);
                    DownloadAction::Finish(false)
                }
            },
            (Phase::Finishing(outcome), DownloadEvent::Recorded) => {
                self.phase = Phase::Done(outcome);
                DownloadAction::Finish(outcome)
            },
            _ => DownloadAction::Finish(false),
        }
    }
}


/// What holds of a download between steps: no body byte counted before the
/// stream starts, never more than the cap while the file is kept, and more
/// than the cap exactly when the temp file is removed for an overrun.
pub open spec fn download_ok(d: DownloadView) -> bool {
    match d.phase {
        Phase::Begin | Phase::AwaitDir | Phase::AwaitResponse | Phase::AwaitTemp => d.written == 0,
        Phase::Streaming | Phase::AwaitWrite | Phase::AwaitSync | Phase::AwaitRename => d.written
            <= d.max_bytes,
        Phase::Cleanup(overran) => overran == (d.written > d.max_bytes),
        _ => true,
    }
}

/// The temp file may exist in this phase.
pub open spec fn temp_file_exists(p: Phase) -> bool {
    p is Streaming || p is AwaitWrite || p is AwaitSync || p is AwaitRename
}

/// Every step keeps a download in the state that [`download_ok`] describes.
pub proof fn law_download_stays_ok(d: DownloadView, e: DownloadEvent)
    requires
        download_ok(d),
        expects(d.phase, e),
        e matches DownloadEvent::ChunkReceived { len } ==> d.written + len <= u64::MAX,
    ensures
        download_ok(step_spec(d, e).0),
{
}

/// A stored file is never larger than the cap: the size recorded for it is
/// the number of bytes written, which is at most `max_bytes`.
pub proof fn law_stored_within_cap(d: DownloadView, e: DownloadEvent)
    requires
        download_ok(d),
        expects(d.phase, e),
    ensures
        step_spec(d, e).1 matches ActionView::Record(r) ==> (r.status == FileStatus::Stored ==> {
            &&& d.written <= d.max_bytes
            &&& r.size == Some(d.written as i64)
            &&& r.path == Some(relative_path(d))
        }),
{
}

/// An attachment is recorded oversized only with a size over the cap (what
/// Discord reported, the `Content-Length`, or the bytes actually received),
/// so that the same cap never re-admits it.
pub proof fn law_oversized_above_cap(d: DownloadView, e: DownloadEvent)
    requires
        download_ok(d),
        expects(d.phase, e),
        e matches DownloadEvent::ChunkReceived { len } ==> d.written + len <= u64::MAX,
    ensures
        step_spec(d, e).1 matches ActionView::Record(r) ==> (r.status == FileStatus::Oversized
            ==> exists|n: u64| n > d.max_bytes && r.size == Some(#[trigger] (n as i64))),
{
    if let ActionView::Record(r) = step_spec(d, e).1 {
        if r.status == FileStatus::Oversized {
            match (d.phase, e) {
                (Phase::Begin, _) => {
                    let n = d.reported_size as u64;
                    assert(n > d.max_bytes && r.size == Some(n as i64));
                },
                (Phase::AwaitResponse, DownloadEvent::Responded { status, content_length }) => {
                    let n = content_length->0;
                    assert(n > d.max_bytes && r.size == Some(n as i64));
                },
                _ => {
                    let n = d.written;
                    assert(n > d.max_bytes && r.size == Some(n as i64));
                },
            }
        }
    }
}

/// A client error (4xx) from the attachment's URL resolves the download: it
/// is recorded as gone. Only answers outside 2xx and 4xx give up with nothing
/// recorded.
pub proof fn law_client_errors_are_recorded_gone(d: DownloadView, status: u16, content_length: Option<u64>)
    requires
        d.phase is AwaitResponse,
    ensures
        is_client_error(status) ==> step_spec(d, DownloadEvent::Responded { status, content_length }).1
            == ActionView::Record(gone_record(d)),
        !is_client_error(status) && !is_success(status) ==> step_spec(
            d,
            DownloadEvent::Responded { status, content_length },
        ).1 == ActionView::Finish(false),
{
}

/// Every row a download records, whatever the step, is the attachment's own:
/// it carries the download's attachment id and content type; and no step
/// changes which attachment, file name, cap or content type a download is for.
pub proof fn law_records_carry_the_attachment(d: DownloadView, e: DownloadEvent)
    ensures
        step_spec(d, e).1 matches ActionView::Record(r) ==> r.attachment_id == d.id && r.content_type
            == d.content_type,
        step_spec(d, e).0.id == d.id,
        step_spec(d, e).0.content_type == d.content_type,
        step_spec(d, e).0.name == d.name,
        step_spec(d, e).0.max_bytes == d.max_bytes,
        step_spec(d, e).0.reported_size == d.reported_size,
{
}

/// Whether an event reports a failure with no HTTP answer, or a failed local
/// file operation.
pub open spec fn transient_failure(e: DownloadEvent) -> bool {
    ||| e == DownloadEvent::DirCreated { ok: false }
    ||| e == DownloadEvent::RequestFailed
    ||| e == DownloadEvent::TempCreated { ok: false }
    ||| e == DownloadEvent::StreamFailed
    ||| e == DownloadEvent::ChunkWritten { ok: false }
    ||| e == DownloadEvent::Synced { ok: false }
    ||| e == DownloadEvent::Renamed { ok: false }
}

/// A request that fails with no HTTP answer (a reset connection, a timeout),
/// or a failed directory, temp file, write, sync or rename, records nothing:
/// the download finishes with `false` at once, or after removing its temp
/// file, so the next boot's drain retries the attachment. In particular a
/// failed request while waiting for the answer ends the download at once,
/// unchanged but for its phase.
pub proof fn law_transient_failures_record_nothing(d: DownloadView, e: DownloadEvent)
    requires
        expects(d.phase, e),
        transient_failure(e),
    ensures
        !(step_spec(d, e).1 is Record),
        step_spec(d, e).1 == ActionView::Finish(false) || (step_spec(d, e).1 == ActionView::RemoveTemp
            && step_spec(step_spec(d, e).0, DownloadEvent::TempRemoved).1 == ActionView::Finish(false)),
        d.phase == Phase::AwaitResponse && e == DownloadEvent::RequestFailed ==> step_spec(d, e) == (
        DownloadView { phase: Phase::Done(false), ..d }, ActionView::Finish(false)),
{
}

/// Once the temp file may exist, a download never stops without removing it
/// or publishing it under its final name first.
pub proof fn law_temp_file_never_left_behind(d: DownloadView, e: DownloadEvent)
    requires
        temp_file_exists(d.phase),
        expects(d.phase, e),
    ensures
        !(step_spec(d, e).1 is Finish),
        step_spec(d, e).1 is Record ==> d.phase is AwaitRename,
{
}


/// The drain reports progress once every this many messages.
pub const HEARTBEAT_MESSAGES: u64 = 50;

/// Progress of the boot-time drain: walks messages newest-first with a
/// strictly-descending keyset cursor, so the pass always terminates even when
/// an attachment keeps failing.
pub struct DrainProgress {
    /// Only messages with an id below this are still to be drained.
    pub cursor: i64,
    /// Messages drained so far.
    pub messages: u64,
    /// Attachments resolved so far.
    pub files: u64,
}

impl DrainProgress {
    /// The start of a drain: every message is below the cursor.
    pub fn new() -> (r: DrainProgress)
        ensures
            r.cursor == i64::MAX,
            r.messages == 0,
            r.files == 0,
    {
        DrainProgress { cursor: i64::MAX, messages: 0, files: 0 }
    }

    /// Counts a drained message that resolved `files` attachments; answers
    /// whether a progress line is due.
    pub fn message_drained(&mut self, files: u64) -> (heartbeat: bool)
        requires
            old(self).messages < u64::MAX,
            old(self).files + files <= u64::MAX,
        ensures
            final(self).cursor == old(self).cursor,
            final(self).messages == old(self).messages + 1,
            final(self).files == old(self).files + files,
            heartbeat == (final(self).messages % HEARTBEAT_MESSAGES == 0),
    {
        self.messages = self.messages + 1;
        self.files = self.files + files;
        self.messages % HEARTBEAT_MESSAGES == 0
    }

    /// Moves the cursor past a drained batch: to its smallest message id.
    pub fn batch_drained(&mut self, message_ids: &[i64])
        requires
            message_ids.len() > 0,
        ensures
            final(self).cursor == min_of(message_ids@),
            final(self).messages == old(self).messages,
            final(self).files == old(self).files,
    {
        self.cursor = min_id(message_ids);
    }
}

/// Keyset pagination terminates: when a batch holds only messages below the
/// cursor (what the pending query returns), the next cursor is strictly lower
/// and no message of the batch is above it.
pub proof fn law_drain_cursor_descends(cursor: i64, message_ids: Seq<i64>)
    requires
        message_ids.len() > 0,
        forall|i: int| 0 <= i < message_ids.len() ==> #[trigger] message_ids[i] < cursor,
    ensures
        min_of(message_ids) < cursor,
        forall|i: int| 0 <= i < message_ids.len() ==> min_of(message_ids) <= #[trigger] message_ids[i],
{
    lemma_min_of(message_ids);
}

/// What fetching a message back from Discord gave.
#[derive(Debug, Clone, Copy, PartialEq, Eq, Structural)]
pub enum MessageFetch {
    /// The message, with fresh attachment URLs.
    Found,
    /// The message (or its channel) is deleted upstream.
    NotFound,
    /// A transient failure (rate limit, network, or a 403 that lost channel
    /// access may lift).
    Failed,
}

/// The positions, in order, of the attachments whose id is pending.
pub open spec fn pending_positions(ids: Seq<i64>, pending: Seq<i64>) -> Seq<int>
    decreases ids.len(),
{
    if ids.len() == 0 {
        seq![]
    } else {
        let p = pending_positions(ids.drop_last(), pending);
        if pending.contains(ids.last()) {
            p.push(ids.len() - 1)
        } else {
            p
        }
    }
}

/// What draining one message does.
#[derive(Debug)]
pub enum DrainPlan {
    /// Record each of these rows (the message is gone, so are its pending attachments).
    MarkGone(Vec<FileRecord>),
    /// Nothing now; the next boot retries.
    Skip,
    /// Download the message's attachments at these positions.
    Download(Vec<usize>),
}

impl DrainPlan {
    /// The number of attachments that draining the message resolved (wrote a
    /// row for), given how many of its planned downloads wrote a row: every
    /// row of a deleted message, those downloads, or none after a transient
    /// failure.
    pub fn files_resolved(&self, downloads_recorded: u64) -> (r: u64)
        ensures
            match self {
                DrainPlan::MarkGone(rows) => r == rows.len(),
                DrainPlan::Skip => r == 0,
                DrainPlan::Download(_) => r == downloads_recorded,
            },
    {
        match self {
            DrainPlan::MarkGone(rows) => rows.len() as u64,
            DrainPlan::Skip => 0,
            DrainPlan::Download(_) => downloads_recorded,
        }
    }
}

/// The row recording a pending attachment gone with its message.
pub open spec fn gone_with_message(id: i64) -> RecordView {
    RecordView { attachment_id: id, status: FileStatus::Gone, path: None, size: None, content_type: None }
}

/// Decides how to drain one message from what fetching it gave, the ids of
/// its attachments that are still pending, and the ids of the attachments the
/// fetched message carries: a deleted message marks every pending attachment
/// gone (fresh URLs are unobtainable forever); a transient failure does
/// nothing; otherwise every pending attachment of the message is downloaded,
/// skipping what was already resolved.
pub fn drain_plan(fetch: MessageFetch, pending: &Vec<i64>, attachment_ids: &Vec<i64>) -> (r: DrainPlan)
    ensures
        match fetch {
            MessageFetch::NotFound => r matches DrainPlan::MarkGone(rows) && rows.len() == pending.len()
                && forall|i: int| 0 <= i < pending.len() ==> (#[trigger] rows@[i])@ == gone_with_message(pending@[i]),
            MessageFetch::Failed => r is Skip,
            MessageFetch::Found => r matches DrainPlan::Download(pos) && pos@.map_values(|p: usize| p as int)
                == pending_positions(attachment_ids@, pending@),
        },
{
    match fetch {
        MessageFetch::Failed => DrainPlan::Skip,
        MessageFetch::NotFound => {
            let mut rows: Vec<FileRecord> = Vec::new();
            let mut i: usize = 0;
            while i < pending.len()
                invariant
                    i <= pending.len(),
                    rows.len() == i,
                    forall|k: int| 0 <= k < i ==> (#[trigger] rows@[k])@ == gone_with_message(pending@[k]),
                decreases pending.len() - i,
            {
                rows.push(FileRecord { attachment_id: pending[i], status: FileStatus::Gone, path: None, size: None, content_type: None });
                i = i + 1;
            }
            DrainPlan::MarkGone(rows)
        },
        MessageFetch::Found => {
            let pending_set = id_set(pending);
            let mut pos: Vec<usize> = Vec::new();
            let mut i: usize = 0;
            while i < attachment_ids.len()
                invariant
                    forall|x: i64| #[trigger] pending_set@.contains(x) <==> pending@.contains(x),
                    i <= attachment_ids.len(),
                    pos@.map_values(|p: usize| p as int) == pending_positions(attachment_ids@.take(i as int), pending@),
                decreases attachment_ids.len() - i,
            {
                assert(attachment_ids@.take(i + 1).drop_last() =~= attachment_ids@.take(i as int));
                if pending_set.contains(&attachment_ids[i]) {
                    pos.push(i);
                    assert(pos@.map_values(|p: usize| p as int) =~= pending_positions(attachment_ids@.take(i as int), pending@).push(i as int));
                }
                i = i + 1;
            }
            assert(attachment_ids@.take(attachment_ids.len() as int) =~= attachment_ids@);
            DrainPlan::Download(pos)
        },
    }
}

/// The set of the ids in a list (what collecting them into a `HashSet` gives).
pub fn id_set(ids: &Vec<i64>) -> (r: HashSet<i64>)
    ensures
        forall|x: i64| #[trigger] r@.contains(x) <==> ids@.contains(x),
{
    let mut set: HashSet<i64> = HashSet::new();
    let mut i: usize = 0;
    while i < ids.len()
        invariant
            i <= ids.len(),
            forall|x: i64| #[trigger] set@.contains(x) <==> ids@.take(i as int).contains(x),
        decreases ids.len() - i,
    {
        let ghost before = set@;
        set.insert(ids[i]);
        proof {
            let t = ids@.take(i + 1);
            assert(t =~= ids@.take(i as int).push(ids@[i as int]));
            assert forall|x: i64| #[trigger] set@.contains(x) <==> t.contains(x) by {
                if ids@.take(i as int).contains(x) {
                    let k = choose|k: int| 0 <= k < i && ids@.take(i as int)[k] == x;
                    assert(t[k] == x);
                }
                if t.contains(x) && x != ids@[i as int] {
                    let k = choose|k: int| 0 <= k < i + 1 && t[k] == x;
                    assert(ids@.take(i as int)[k] == x);
                }
                assert(t[i as int] == ids@[i as int]);
            }
        }
        i = i + 1;
    }
    assert(ids@.take(ids.len() as int) =~= ids@);
    set
}

/// Draining a found message downloads exactly its pending attachments: each
/// planned position holds an attachment whose id is pending, positions come in
/// order without repeats, and every attachment whose id is pending is planned.
pub proof fn law_drain_downloads_exactly_pending(ids: Seq<i64>, pending: Seq<i64>)
    ensures
        forall|k: int|
            0 <= k < pending_positions(ids, pending).len() ==> {
                let p = #[trigger] pending_positions(ids, pending)[k];
                0 <= p < ids.len() && pending.contains(ids[p])
            },
        forall|k: int, l: int|
            0 <= k < l < pending_positions(ids, pending).len() ==> (#[trigger] pending_positions(ids, pending)[k])
                < (#[trigger] pending_positions(ids, pending)[l]),
        forall|p: int|
            0 <= p < ids.len() && pending.contains(#[trigger] ids[p]) ==> pending_positions(ids, pending).contains(p),
    decreases ids.len(),
{
    if ids.len() > 0 {
        let t = ids.drop_last();
        law_drain_downloads_exactly_pending(t, pending);
        let q = pending_positions(t, pending);
        let r = pending_positions(ids, pending);
        assert forall|k: int| 0 <= k < q.len() implies 0 <= #[trigger] q[k] < t.len() && ids[q[k]] == t[q[k]] by {}
        assert forall|p: int| 0 <= p < ids.len() && pending.contains(#[trigger] ids[p]) implies r.contains(p) by {
            if p < ids.len() - 1 {
                assert(t[p] == ids[p]);
                assert(q.contains(p));
                let k = choose|k: int| 0 <= k < q.len() && q[k] == p;
                if pending.contains(ids.last()) {
                    assert(r[k] == p);
                }
            } else {
                assert(ids.last() == ids[p]);
                assert(r[r.len() - 1] == p);
            }
        }
    }
}

} // verus!
