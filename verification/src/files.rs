//! Attachments over their own stream.
//!
//! The header frame carries the name, size and BLAKE3 hash, then the bytes
//! follow raw until the stream ends. There is no offline path for a file: the
//! bytes need a live connection.
//!
//! Streams and disks are someone else's business. What is decided here: what may
//! be sent, what is accepted, under which name it is kept, and whether what
//! arrived is what was announced.

use crate::wire::{Frame, MessageId};
use crate::{bytes, crypto, text, wire};
use vstd::prelude::*;

verus! {

/// Bigger than a packet, small enough that the progress bar moves.
pub const CHUNK: usize = 65_536;

/// A ceiling on what one attachment may be.
///
/// The size in the header is chosen by the sender and the hash check only runs
/// once the stream has ended, so without a limit here a peer that announces an
/// enormous size can write until the disk is full before anything rejects it.
pub const MAX_FILE: u64 = 268_435_456;

/// Why an attachment is not sent or not kept.
#[derive(Clone, Copy, Debug, PartialEq, Eq, Structural)]
pub enum FileError {
    /// The path does not name a file.
    NotAFile,
    /// The file has this many bytes.
    TooBig(u64),
    /// The path has no file name.
    NoName,
    /// The stream did not open with an attachment header.
    NoHeader,
    /// The attachment is minted under a key other than the sender's.
    ForeignId,
    /// The peer announced this many bytes.
    Announced(u64),
    /// The peer sent more than this many bytes, which it had announced.
    Overrun(u64),
    /// What arrived is not what was announced.
    Mismatch,
}

impl FileError {
    /// The text of the error. `name` is the path or the display name.
    pub open spec fn text(self, name: Seq<char>) -> Seq<char> {
        match self {
            FileError::NotAFile => name + " is not a file"@,
            FileError::TooBig(n) => name + " is "@ + text::decimal(n as nat)
                + " bytes, over the 268435456-byte limit"@,
            FileError::NoName => "that path has no file name"@,
            FileError::NoHeader => "stream did not open with an attachment header"@,
            FileError::ForeignId => "attachment is minted under a key other than the sender's"@,
            FileError::Announced(n) => "peer announced a "@ + text::decimal(n as nat)
                + "-byte attachment, over the 268435456-byte limit"@,
            FileError::Overrun(n) => "peer sent more than the "@ + text::decimal(n as nat)
                + " bytes it announced"@,
            FileError::Mismatch => name + " did not match the hash it was sent with — discarded"@,
        }
    }

    /// Computes [`FileError::text`].
    pub fn message(&self, name: &str) -> (r: String)
        ensures
            r@ == self.text(name@),
    {
        match self {
            FileError::NotAFile => name.to_owned().concat(" is not a file"),
            FileError::TooBig(n) => name.to_owned().concat(" is ").concat(text::decimal_of(*n).as_str()).concat(
                " bytes, over the 268435456-byte limit",
            ),
            FileError::NoName => "that path has no file name".to_owned(),
            FileError::NoHeader => "stream did not open with an attachment header".to_owned(),
            FileError::ForeignId => "attachment is minted under a key other than the sender's".to_owned(),
            FileError::Announced(n) => "peer announced a ".to_owned().concat(
                text::decimal_of(*n).as_str(),
            ).concat("-byte attachment, over the 268435456-byte limit"),
            FileError::Overrun(n) => "peer sent more than the ".to_owned().concat(
                text::decimal_of(*n).as_str(),
            ).concat(" bytes it announced"),
            FileError::Mismatch => name.to_owned().concat(
                " did not match the hash it was sent with — discarded",
            ),
        }
    }
}

/// Where the last segment of a path begins.
pub open spec fn segment_start(s: Seq<char>) -> int
    decreases s.len(),
{
    if s.len() == 0 || s.last() == '/' {
        s.len() as int
    } else {
        segment_start(s.drop_last())
    }
}

/// The file name of a path: its last segment, where empty and `.` segments
/// behind do not count and `..` is none.
pub open spec fn file_name(s: Seq<char>) -> Option<Seq<char>>
    decreases s.len(),
{
    let start = segment_start(s);
    let segment = s.skip(start);
    if segment == ""@ || segment == "."@ {
        if 0 < start <= s.len() {
            file_name(s.take(start - 1))
        } else {
            None
        }
    } else if segment == ".."@ {
        None
    } else {
        Some(segment)
    }
}

/// Computes [`segment_start`].
fn find_segment(s: &[char], end: usize) -> (r: usize)
    requires
        end <= s@.len(),
    ensures
        r <= end,
        r == segment_start(s@.take(end as int)),
{
    let mut i: usize = end;
    while i > 0 && s[i - 1] != '/'
        invariant
            i <= end <= s@.len(),
            segment_start(s@.take(i as int)) == segment_start(s@.take(end as int)),
        decreases i,
    {
        assert(s@.take(i as int).drop_last() =~= s@.take(i - 1));
        i = i - 1;
    }
    i
}

/// Computes [`file_name`].
pub fn base_name(path: &str) -> (r: Option<String>)
    ensures
        match file_name(path@) {
            Some(name) => r is Some && r->0@ == name,
            None => r is None,
        },
{
    let chars = text::chars_of(path);
    let mut end: usize = chars.len();
    assert(chars@.take(end as int) =~= path@);
    loop
        invariant
            end <= chars@.len(),
            file_name(chars@.take(end as int)) == file_name(path@),
        decreases end,
    {
        let start = find_segment(chars.as_slice(), end);
        let segment = text::string_of(vstd::slice::slice_subrange(chars.as_slice(), start, end));
        assert(segment@ =~= chars@.take(end as int).skip(start as int));
        if text::same(segment.as_str(), "") || text::same(segment.as_str(), ".") {
            if start == 0 {
                return None;
            }
            assert(chars@.take(end as int).take(start - 1) =~= chars@.take(start - 1));
            end = start - 1;
        } else if text::same(segment.as_str(), "..") {
            return None;
        } else {
            return Some(segment);
        }
    }
}

/// Whether a character has the Alphabetic property or is numeric.
pub uninterp spec fn alphanumeric(c: char) -> bool;

/// `char::is_alphanumeric` tells letters and numbers.
pub assume_specification[ char::is_alphanumeric ](c: char) -> (r: bool)
    ensures
        r == alphanumeric(c),
;

/// Whether a character may stand in a file name: letters and numbers, the
/// blank, and three marks.
pub open spec fn plain(c: char) -> bool {
    if (c as u32) < 128 {
        ||| 'a' <= c <= 'z'
        ||| 'A' <= c <= 'Z'
        ||| '0' <= c <= '9'
        ||| c == ' ' || c == '.' || c == '_' || c == '-'
    } else {
        alphanumeric(c)
    }
}

/// Decides [`plain`].
fn is_plain(c: char) -> (r: bool)
    ensures
        r == plain(c),
{
    if (c as u32) < 128 {
        ('a' <= c && c <= 'z') || ('A' <= c && c <= 'Z') || ('0' <= c && c <= '9') || c == ' ' || c == '.' || c
            == '_' || c == '-'
    } else {
        c.is_alphanumeric()
    }
}

/// Every other character replaced by an underscore.
pub open spec fn cleaned(s: Seq<char>) -> Seq<char> {
    s.map_values(|c: char| if plain(c) { c } else { '_' })
}

/// Whether a character is trimmed from the ends of a file name.
pub open spec fn dot_or_blank(c: char) -> bool {
    c == '.' || c == ' '
}

/// A string without the dots and blanks in front.
pub open spec fn strip_start(s: Seq<char>) -> Seq<char>
    decreases s.len(),
{
    if s.len() > 0 && dot_or_blank(s[0]) {
        strip_start(s.skip(1))
    } else {
        s
    }
}

/// A string without the dots and blanks behind.
pub open spec fn strip_end(s: Seq<char>) -> Seq<char>
    decreases s.len(),
{
    if s.len() > 0 && dot_or_blank(s.last()) {
        strip_end(s.drop_last())
    } else {
        s
    }
}

/// The name that an attachment is kept under.
pub open spec fn kept_name(name: Seq<char>) -> Seq<char> {
    let base = match file_name(name) {
        Some(base) => base,
        None => Seq::empty(),
    };
    let bare = strip_end(strip_start(cleaned(base)));
    if bare.len() == 0 {
        "attachment"@
    } else {
        bare
    }
}

/// A peer chooses the display name, never the path. Everything but the final
/// component is dropped, and anything left that could still climb out of the
/// directory is replaced.
pub fn safe_name(name: &str) -> (r: String)
    ensures
        r@ == kept_name(name@),
{
    let base = match base_name(name) {
        Some(base) => base,
        None => String::new(),
    };
    let mut chars = text::chars_of(base.as_str());
    let ghost before = chars@;
    let mut i: usize = 0;
    while i < chars.len()
        invariant
            i <= chars@.len(),
            chars@.len() == before.len(),
            forall|j: int| 0 <= j < i ==> chars@[j] == cleaned(before)[j],
            forall|j: int| i <= j < chars@.len() ==> chars@[j] == before[j],
        decreases chars@.len() - i,
    {
        if !is_plain(chars[i]) {
            chars[i] = '_';
        }
        i = i + 1;
    }
    assert(chars@ =~= cleaned(before));
    let mut start: usize = 0;
    assert(chars@.skip(0) =~= chars@);
    while start < chars.len() && (chars[start] == '.' || chars[start] == ' ')
        invariant
            start <= chars@.len(),
            strip_start(chars@.skip(start as int)) == strip_start(chars@),
        decreases chars@.len() - start,
    {
        assert(chars@.skip(start as int).skip(1) =~= chars@.skip(start + 1));
        start = start + 1;
    }
    let mut end: usize = chars.len();
    assert(chars@.subrange(start as int, end as int) =~= chars@.skip(start as int));
    while start < end && (chars[end - 1] == '.' || chars[end - 1] == ' ')
        invariant
            start <= end <= chars@.len(),
            strip_end(chars@.subrange(start as int, end as int)) == strip_end(strip_start(chars@)),
        decreases end,
    {
        assert(chars@.subrange(start as int, end as int).drop_last() =~= chars@.subrange(
            start as int,
            end - 1,
        ));
        end = end - 1;
    }
    if start == end {
        "attachment".to_owned()
    } else {
        text::string_of(vstd::slice::slice_subrange(chars.as_slice(), start, end))
    }
}

proof fn lemma_strip_start(s: Seq<char>)
    ensures
        strip_start(s).len() > 0 ==> !dot_or_blank(strip_start(s)[0]),
        forall|i: int|
            0 <= i < strip_start(s).len() ==> exists|j: int|
                0 <= j < s.len() && s[j] == #[trigger] strip_start(s)[i],
    decreases s.len(),
{
    if s.len() > 0 && dot_or_blank(s[0]) {
        lemma_strip_start(s.skip(1));
        assert forall|i: int| 0 <= i < strip_start(s).len() implies exists|j: int|
            0 <= j < s.len() && s[j] == #[trigger] strip_start(s)[i] by {
            let t = s.skip(1);
            let j = choose|j: int| 0 <= j < t.len() && t[j] == strip_start(t)[i];
            assert(s[j + 1] == strip_start(s)[i]);
        }
    } else {
        assert forall|i: int| 0 <= i < strip_start(s).len() implies exists|j: int|
            0 <= j < s.len() && s[j] == #[trigger] strip_start(s)[i] by {
            assert(s[i] == strip_start(s)[i]);
        }
    }
}

proof fn lemma_strip_end(s: Seq<char>)
    ensures
        strip_end(s).len() <= s.len(),
        strip_end(s) == s.take(strip_end(s).len() as int),
        strip_end(s).len() > 0 ==> !dot_or_blank(strip_end(s).last()),
    decreases s.len(),
{
    if s.len() > 0 && dot_or_blank(s.last()) {
        lemma_strip_end(s.drop_last());
        assert(strip_end(s) =~= s.take(strip_end(s).len() as int));
    } else {
        assert(strip_end(s) =~= s.take(strip_end(s).len() as int));
    }
}

/// A peer cannot choose where its file lands: whatever the display name, the
/// name it is kept under is not empty, holds no separator of any kind, and
/// neither begins nor ends with a dot or a blank, so it is neither hidden nor a
/// way up.
pub proof fn law_kept_name_is_safe(name: Seq<char>)
    ensures
        kept_name(name).len() > 0,
        forall|i: int| 0 <= i < kept_name(name).len() ==> plain(#[trigger] kept_name(name)[i]),
        forall|i: int|
            0 <= i < kept_name(name).len() ==> (#[trigger] kept_name(name)[i]) != '/' && kept_name(name)[i] != '\\'
                && kept_name(name)[i] as u32 != 0,
        !dot_or_blank(kept_name(name)[0]),
        !dot_or_blank(kept_name(name).last()),
{
    reveal_strlit("attachment");
    let base = match file_name(name) {
        Some(base) => base,
        None => Seq::empty(),
    };
    let c = cleaned(base);
    let s = strip_start(c);
    let e = strip_end(s);
    lemma_strip_start(c);
    lemma_strip_end(s);
    if e.len() > 0 {
        assert(e[0] == s[0]);
        assert forall|i: int| 0 <= i < e.len() implies plain(#[trigger] e[i]) by {
            assert(e[i] == s[i]);
            let j = choose|j: int| 0 <= j < c.len() && c[j] == s[i];
            assert(c[j] == (if plain(base[j]) { base[j] } else { '_' }));
        }
    }
}

proof fn lemma_one_segment(s: Seq<char>)
    requires
        forall|i: int| 0 <= i < s.len() ==> (#[trigger] s[i]) != '/',
    ensures
        segment_start(s) == 0,
    decreases s.len(),
{
    if s.len() > 0 {
        assert(s[s.len() - 1] != '/');
        lemma_one_segment(s.drop_last());
    }
}

/// A name that is safe to keep is kept as it is.
pub proof fn law_kept_names_stay(name: Seq<char>)
    ensures
        kept_name(kept_name(name)) == kept_name(name),
{
    let k = kept_name(name);
    law_kept_name_is_safe(name);
    lemma_one_segment(k);
    reveal_strlit("");
    reveal_strlit(".");
    reveal_strlit("..");
    assert(k.skip(0) =~= k);
    assert("."@[0] == '.');
    assert(".."@[0] == '.');
    assert(file_name(k) == Some(k));
    assert(cleaned(k) =~= k);
}

/// BLAKE3 of a byte string that comes in pieces.
pub struct Digest {
    hasher: blake3::Hasher,
}

impl View for Digest {
    type V = Seq<u8>;

    /// The bytes taken in.
    closed spec fn view(&self) -> Seq<u8> {
        crypto::absorbed(self.hasher)
    }
}

impl Digest {
    /// Nothing taken in.
    pub fn new() -> (r: Digest)
        ensures
            r@ == Seq::<u8>::empty(),
    {
        Digest { hasher: crypto::hasher() }
    }

    /// Takes in another piece.
    pub fn update(&mut self, piece: &[u8])
        ensures
            final(self)@ == old(self)@ + piece@,
    {
        crypto::absorb(&mut self.hasher, piece);
    }

    /// The hash of all pieces.
    pub fn finish(&self) -> (r: [u8; 32])
        ensures
            r@ == crypto::blake3_digest(self@),
    {
        crypto::digest(&self.hasher)
    }
}

/// Why a file is not sent; `None` where it is.
pub open spec fn sending_fault(path: Seq<char>, is_file: bool, len: u64) -> Option<FileError> {
    if !is_file {
        Some(FileError::NotAFile)
    } else if len > MAX_FILE {
        Some(FileError::TooBig(len))
    } else if file_name(path) is None {
        Some(FileError::NoName)
    } else {
        None
    }
}

/// The display name of a file that may be sent.
pub fn outgoing_name(path: &str, is_file: bool, len: u64) -> (r: Result<String, FileError>)
    ensures
        match sending_fault(path@, is_file, len) {
            Some(e) => r is Err && r->Err_0 == e,
            None => r is Ok && Some(r->Ok_0@) == file_name(path@),
        },
{
    if !is_file {
        return Err(FileError::NotAFile);
    }
    if len > MAX_FILE {
        return Err(FileError::TooBig(len));
    }
    match base_name(path) {
        Some(name) => Ok(name),
        None => Err(FileError::NoName),
    }
}

/// An attachment on its way out.
pub struct Outgoing {
    pub id: MessageId,
    pub size: u64,
    pub sent: u64,
}

impl Outgoing {
    /// The header of an attachment, and its progress at the start.
    pub fn start(id: MessageId, name: &str, size: u64, hash: [u8; 32]) -> (r: (Frame, Outgoing))
        ensures
            r.0@ == (wire::FrameView::File { id, name: name@, size, hash }),
            r.1 == (Outgoing { id, size, sent: 0 }),
    {
        (Frame::File { id, name: name.to_owned(), size, hash }, Outgoing { id, size, sent: 0 })
    }

    /// Another `n` bytes went out. Returns how many have, and of how many.
    pub fn chunk(&mut self, n: usize) -> (r: (u64, u64))
        requires
            old(self).sent + n <= u64::MAX,
        ensures
            *final(self) == (Outgoing { sent: (old(self).sent + n) as u64, ..*old(self) }),
            r == (final(self).sent, old(self).size),
    {
        self.sent = self.sent + n as u64;
        (self.sent, self.size)
    }
}

/// Why an attachment is not accepted; `None` where it is.
pub open spec fn accepting_fault(peer: [u8; 32], header: Option<wire::FrameView>) -> Option<FileError> {
    match header {
        Some(wire::FrameView::File { id, size, .. }) => if id.sender != peer {
            Some(FileError::ForeignId)
        } else if size > MAX_FILE {
            Some(FileError::Announced(size))
        } else {
            None
        },
        _ => Some(FileError::NoHeader),
    }
}

/// An attachment on its way in.
pub struct Incoming {
    id: MessageId,
    name: String,
    size: u64,
    hash: [u8; 32],
    got: u64,
    digest: Digest,
}

impl Incoming {
    /// The message that the attachment hangs off.
    pub closed spec fn id(&self) -> MessageId {
        self.id
    }

    /// The display name.
    pub closed spec fn name(&self) -> Seq<char> {
        self.name@
    }

    /// The number of bytes announced.
    pub closed spec fn size(&self) -> u64 {
        self.size
    }

    /// The hash announced.
    pub closed spec fn hash(&self) -> [u8; 32] {
        self.hash
    }

    /// The bytes that have come in.
    pub closed spec fn received(&self) -> Seq<u8> {
        self.digest@
    }

    /// Whether no more has come in than was announced, and no more was
    /// announced than the limit.
    pub closed spec fn wf(&self) -> bool {
        &&& self.got == self.digest@.len()
        &&& self.got <= self.size <= MAX_FILE
    }

    /// No more is ever taken in than was announced, and no more is announced
    /// than the limit.
    pub proof fn law_incoming_is_bounded(&self)
        requires
            self.wf(),
        ensures
            self.received().len() <= self.size() <= MAX_FILE,
    {
    }

    /// Accepts an attachment by its header. Same rule as every other op: minted
    /// under the key that the connection authenticated. The size is checked
    /// before a byte is written, not after.
    pub fn accept(peer: &[u8; 32], header: Option<&Frame>) -> (r: Result<Incoming, FileError>)
        ensures
            match accepting_fault(*peer, (match header {
                Some(f) => Some(f@),
                None => None,
            })) {
                Some(e) => r is Err && r->Err_0 == e,
                None => {
                    &&& r is Ok
                    &&& r->Ok_0.wf()
                    &&& header->0@ == (wire::FrameView::File {
                        id: r->Ok_0.id(),
                        name: r->Ok_0.name(),
                        size: r->Ok_0.size(),
                        hash: r->Ok_0.hash(),
                    })
                    &&& r->Ok_0.received() == Seq::<u8>::empty()
                },
            },
    {
        match header {
            Some(Frame::File { id, name, size, hash }) => {
                if !bytes::same32(&id.sender, peer) {
                    return Err(FileError::ForeignId);
                }
                if *size > MAX_FILE {
                    return Err(FileError::Announced(*size));
                }
                Ok(
                    Incoming {
                        id: *id,
                        name: name.clone(),
                        size: *size,
                        hash: *hash,
                        got: 0,
                        digest: Digest::new(),
                    },
                )
            },
            _ => Err(FileError::NoHeader),
        }
    }

    /// The name of the file on disk: the message id, a dash, and the safe form
    /// of the display name.
    pub fn disk_name(&self) -> (r: String)
        ensures
            r@ == self.id().text() + "-"@ + kept_name(self.name()),
    {
        self.id.to_string().concat("-").concat(safe_name(self.name.as_str()).as_str())
    }

    /// Takes in the next bytes of the stream, to be written behind the others.
    /// Returns how many have come in, and of how many. Bytes beyond what was
    /// announced are refused, and the file is to be discarded.
    pub fn chunk(&mut self, piece: &[u8]) -> (r: Result<(u64, u64), FileError>)
        requires
            old(self).wf(),
        ensures
            final(self).wf(),
            final(self).id() == old(self).id(),
            final(self).name() == old(self).name(),
            final(self).size() == old(self).size(),
            final(self).hash() == old(self).hash(),
            if old(self).received().len() + piece@.len() > old(self).size() {
                &&& r is Err && r->Err_0 == FileError::Overrun(old(self).size())
                &&& final(self).received() == old(self).received()
            } else {
                &&& r is Ok && r->Ok_0 == (final(self).received().len() as u64, old(self).size())
                &&& final(self).received() == old(self).received() + piece@
            },
    {
        let n: u64 = piece.len() as u64;
        if n > self.size - self.got {
            return Err(FileError::Overrun(self.size));
        }
        self.got = self.got + n;
        self.digest.update(piece);
        Ok((self.got, self.size))
    }

    /// Judges the whole, once the stream has ended: every byte that was
    /// announced has arrived, and their hash is the one announced.
    pub fn finish(&self) -> (r: Result<u64, FileError>)
        requires
            self.wf(),
        ensures
            if self.received().len() == self.size() && crypto::blake3_digest(self.received()) == self.hash()@ {
                r is Ok && r->Ok_0 == self.size()
            } else {
                r is Err && r->Err_0 == FileError::Mismatch
            },
    {
        let digest = self.digest.finish();
        if self.got != self.size || !bytes::same32(&digest, &self.hash) {
            proof {
                if digest@ == self.hash@ {
                    bytes::lemma_array_eq(digest, self.hash);
                }
            }
            return Err(FileError::Mismatch);
        }
        Ok(self.got)
    }
}

/// What may be sent is accepted: the header of any file that the sender's limits
/// let through, under an id of the peer's own, has no fault for the receiver.
pub proof fn law_what_may_be_sent_is_accepted(
    path: Seq<char>,
    len: u64,
    id: MessageId,
    name: Seq<char>,
    hash: [u8; 32],
)
    requires
        sending_fault(path, true, len) is None,
    ensures
        accepting_fault(id.sender, Some(wire::FrameView::File { id, name, size: len, hash })) is None,
{
}

/// Files of up to 256 MiB are sent and accepted, and no others: a header is
/// accepted just where it is one, its id is the peer's own, and the size is
/// within the limit, whatever the name and the hash.
pub proof fn law_the_limit_is_the_same_at_both_ends(
    peer: [u8; 32],
    id: MessageId,
    name: Seq<char>,
    size: u64,
    hash: [u8; 32],
    path: Seq<char>,
)
    ensures
        accepting_fault(peer, Some(wire::FrameView::File { id, name, size, hash })) == (if id.sender != peer {
            Some(FileError::ForeignId)
        } else if size <= 256 * 1024 * 1024 {
            None
        } else {
            Some(FileError::Announced(size))
        }),
        sending_fault(path, true, size) is None <==> size <= 256 * 1024 * 1024 && file_name(path) is Some,
        sending_fault(path, false, size) == Some(FileError::NotAFile),
        size > 256 * 1024 * 1024 ==> sending_fault(path, true, size) == Some(FileError::TooBig(size)),
{
}

/// The file name of a path is what stands behind the last slash, however long
/// either is.
pub proof fn law_file_names_are_last_segments(dir: Seq<char>, name: Seq<char>)
    requires
        forall|i: int| 0 <= i < name.len() ==> (#[trigger] name[i]) != '/',
        name.len() > 0,
        name != "."@,
        name != ".."@,
    ensures
        file_name(name) == Some(name),
        file_name(dir + seq!['/'] + name) == Some(name),
{
    reveal_strlit("");
    lemma_one_segment(name);
    assert(name.skip(0) =~= name);
    let path = dir + seq!['/'] + name;
    lemma_last_segment(dir, name);
    assert(path.skip(segment_start(path)) =~= name);
}

proof fn lemma_last_segment(dir: Seq<char>, name: Seq<char>)
    requires
        forall|i: int| 0 <= i < name.len() ==> (#[trigger] name[i]) != '/',
    ensures
        segment_start(dir + seq!['/'] + name) == dir.len() + 1,
    decreases name.len(),
{
    let path = dir + seq!['/'] + name;
    if name.len() > 0 {
        let init = name.drop_last();
        assert(name[name.len() - 1] != '/');
        assert(path.last() == name.last());
        assert forall|i: int| 0 <= i < init.len() implies (#[trigger] init[i]) != '/' by {
            assert(init[i] == name[i]);
        }
        lemma_last_segment(dir, init);
        assert(path.drop_last() =~= dir + seq!['/'] + init);
    } else {
        assert(path.last() == '/');
    }
}

/// An ordinary name is kept as it is, however long and wherever it was said to
/// lie: letters, digits, blanks, dots, dashes and underscores, with no dot or
/// blank at either end.
pub proof fn law_ordinary_names_are_kept(dir: Seq<char>, name: Seq<char>)
    requires
        name.len() > 0,
        forall|i: int|
            0 <= i < name.len() ==> 'a' <= (#[trigger] name[i]) <= 'z' || 'A' <= name[i] <= 'Z' || '0' <= name[i]
                <= '9' || name[i] == ' ' || name[i] == '.' || name[i] == '-' || name[i] == '_',
        name[0] != '.' && name[0] != ' ',
        name.last() != '.' && name.last() != ' ',
    ensures
        kept_name(name) == name,
        kept_name(dir + seq!['/'] + name) == name,
{
    reveal_strlit(".");
    reveal_strlit("..");
    assert(name != "."@ && name != ".."@) by {
        if name == "."@ || name == ".."@ {
            assert(name[0] == '.');
        }
    }
    law_file_names_are_last_segments(dir, name);
    assert(cleaned(name) =~= name);
    assert(strip_start(name) == name);
    assert(strip_end(name) == name);
}

/// Other characters of a name are replaced one by one by underscores, and the
/// rest of the name stays.
pub proof fn law_odd_characters_are_replaced(name: Seq<char>, i: int)
    requires
        0 <= i < name.len(),
    ensures
        cleaned(name).len() == name.len(),
        (name[i] as u32) < 128 ==> cleaned(name)[i] == (if 'a' <= name[i] <= 'z' || 'A' <= name[i] <= 'Z' || '0'
            <= name[i] <= '9' || name[i] == ' ' || name[i] == '.' || name[i] == '-' || name[i] == '_' {
            name[i]
        } else {
            '_'
        }),
        (name[i] as u32) >= 128 ==> cleaned(name)[i] == (if alphanumeric(name[i]) {
            name[i]
        } else {
            '_'
        }),
{
}

/// Dots and blanks at either end of a name go, and of a name that is nothing else
/// nothing is kept but that it is an attachment.
pub proof fn law_dots_and_blanks_go(front: Seq<char>, name: Seq<char>, back: Seq<char>)
    requires
        forall|i: int| 0 <= i < front.len() ==> (#[trigger] front[i]) == '.' || front[i] == ' ',
        forall|i: int| 0 <= i < back.len() ==> (#[trigger] back[i]) == '.' || back[i] == ' ',
        name.len() > 0 ==> name[0] != '.' && name[0] != ' ' && name.last() != '.' && name.last() != ' ',
    ensures
        strip_end(strip_start(front + name + back)) == name,
        strip_end(strip_start(front)).len() == 0,
{
    let none = Seq::<char>::empty();
    lemma_front_goes(front, name + back);
    assert(front + name + back =~= front + (name + back));
    lemma_front_goes(front, none);
    assert(front + none =~= front);
    if name.len() > 0 {
        lemma_back_goes(name, back);
    } else {
        assert(name + back =~= back);
        lemma_front_goes(back, none);
        assert(back + none =~= back);
        assert(strip_start(name + back) =~= name);
    }
}

proof fn lemma_front_goes(front: Seq<char>, rest: Seq<char>)
    requires
        forall|i: int| 0 <= i < front.len() ==> (#[trigger] front[i]) == '.' || front[i] == ' ',
    ensures
        strip_start(front + rest) == strip_start(rest),
    decreases front.len(),
{
    if front.len() > 0 {
        let tail = front.skip(1);
        assert forall|i: int| 0 <= i < tail.len() implies (#[trigger] tail[i]) == '.' || tail[i] == ' ' by {
            assert(tail[i] == front[i + 1]);
        }
        lemma_front_goes(tail, rest);
        assert((front + rest)[0] == front[0]);
        assert((front + rest).skip(1) =~= tail + rest);
    } else {
        assert(front + rest =~= rest);
    }
}

proof fn lemma_back_goes(name: Seq<char>, back: Seq<char>)
    requires
        name.len() > 0,
        name[0] != '.' && name[0] != ' ' && name.last() != '.' && name.last() != ' ',
        forall|i: int| 0 <= i < back.len() ==> (#[trigger] back[i]) == '.' || back[i] == ' ',
    ensures
        strip_end(strip_start(name + back)) == name,
    decreases back.len(),
{
    let s = name + back;
    assert(s[0] == name[0]);
    assert(strip_start(s) == s);
    if back.len() > 0 {
        let less = back.drop_last();
        assert forall|i: int| 0 <= i < less.len() implies (#[trigger] less[i]) == '.' || less[i] == ' ' by {
            assert(less[i] == back[i]);
        }
        lemma_back_goes(name, less);
        assert(s.drop_last() =~= name + less);
        assert(s.last() == back.last());
        assert((name + less)[0] == name[0]);
        assert(strip_start(name + less) == name + less);
    } else {
        assert(s =~= name);
    }
}

} // verus!
