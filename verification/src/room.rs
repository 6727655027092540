//! Rooms as a signed, hash-chained membership log.
//!
//! The hub stores the log and verifies nothing; clients verify all of it. The
//! hub can *withhold* the log, or refuse to serve it, but it cannot forge an
//! invite or a kick, because every entry is signed by an admin and names the
//! hash of the entry before it.
//!
//! Membership is whatever replaying the chain says it is. There is no other
//! source of truth, and no server opinion to disagree with.

use crate::keys::SigningKey;
use crate::{bytes, codec, crypto, text};
use vstd::prelude::*;

verus! {

/// A room's identity is the hash of the entry that created it, so it cannot be
/// claimed, renamed onto, or collided with.
pub type RoomId = [u8; 32];

/// What an entry does to the room.
#[derive(Debug, PartialEq, Eq)]
pub enum RoomOp {
    Create { name: String },
    Invite { member: [u8; 32] },
    Kick { member: [u8; 32] },
}

/// What an entry does, as mathematical values.
#[verifier::ext_equal]
pub enum OpView {
    Create { name: Seq<char> },
    Invite { member: [u8; 32] },
    Kick { member: [u8; 32] },
}

/// One entry of a room's log.
#[derive(Debug, PartialEq, Eq)]
pub struct RoomEntry {
    /// Hash of the entry before this one; zeros for the `Create`.
    pub prev: [u8; 32],
    /// Must be an admin *as of the entry before this one*.
    pub author: [u8; 32],
    pub ts_ms: u64,
    pub op: RoomOp,
    /// Ed25519 by `author`, 64 bytes.
    pub signature: Vec<u8>,
}

/// An entry as mathematical values.
#[verifier::ext_equal]
pub struct EntryView {
    pub prev: [u8; 32],
    pub author: [u8; 32],
    pub ts_ms: u64,
    pub op: OpView,
    pub signature: Seq<u8>,
}

impl View for RoomOp {
    type V = OpView;

    open spec fn view(&self) -> OpView {
        match self {
            RoomOp::Create { name } => OpView::Create { name: name@ },
            RoomOp::Invite { member } => OpView::Invite { member: *member },
            RoomOp::Kick { member } => OpView::Kick { member: *member },
        }
    }
}

impl View for RoomEntry {
    type V = EntryView;

    open spec fn view(&self) -> EntryView {
        EntryView {
            prev: self.prev,
            author: self.author,
            ts_ms: self.ts_ms,
            op: self.op@,
            signature: self.signature@,
        }
    }
}

impl Clone for RoomOp {
    fn clone(&self) -> (r: Self)
        ensures
            r@ == self@,
    {
        match self {
            RoomOp::Create { name } => RoomOp::Create { name: name.clone() },
            RoomOp::Invite { member } => RoomOp::Invite { member: *member },
            RoomOp::Kick { member } => RoomOp::Kick { member: *member },
        }
    }
}

impl Clone for RoomEntry {
    fn clone(&self) -> (r: Self)
        ensures
            r@ == self@,
    {
        RoomEntry {
            prev: self.prev,
            author: self.author,
            ts_ms: self.ts_ms,
            op: self.op.clone(),
            signature: self.signature.clone(),
        }
    }
}

/// A log as mathematical values.
pub open spec fn log_view(log: Seq<RoomEntry>) -> Seq<EntryView> {
    log.map_values(|e: RoomEntry| e@)
}

/// Copies a log.
pub fn clone_log(log: &[RoomEntry]) -> (r: Vec<RoomEntry>)
    ensures
        log_view(r@) == log_view(log@),
{
    let mut out: Vec<RoomEntry> = Vec::new();
    let mut i: usize = 0;
    while i < log.len()
        invariant
            i <= log@.len(),
            log_view(out@) == log_view(log@.take(i as int)),
        decreases log@.len() - i,
    {
        out.push(log[i].clone());
        proof {
            assert(log_view(out@) =~= log_view(log@.take(i as int)).push(log@[i as int]@));
            assert(log_view(log@.take(i + 1)) =~= log_view(log@.take(i as int)).push(log@[i as int]@));
        }
        i = i + 1;
    }
    assert(log@.take(i as int) =~= log@);
    out
}

impl OpView {
    /// The bytes of an op: its kind, then its one field.
    pub open spec fn encoded(self) -> Seq<u8> {
        match self {
            OpView::Create { name } => codec::varint(0) + codec::string(name),
            OpView::Invite { member } => codec::varint(1) + member@,
            OpView::Kick { member } => codec::varint(2) + member@,
        }
    }

    /// Whether the op's lengths fit in a machine's address space.
    pub open spec fn fits(self) -> bool {
        self matches OpView::Create { name } ==> vstd::utf8::encode_utf8(name).len() <= usize::MAX
    }
}

/// Reads an op.
pub open spec fn read_op(b: Seq<u8>) -> Option<(OpView, Seq<u8>)> {
    match codec::read_u32(b) {
        Some((kind, rest)) => if kind == 0 {
            match codec::read_string(rest) {
                Some((name, rest)) => Some((OpView::Create { name }, rest)),
                None => None,
            }
        } else if kind == 1 || kind == 2 {
            match codec::read_array::<32>(rest) {
                Some((member, rest)) => Some(
                    (if kind == 1 { OpView::Invite { member } } else { OpView::Kick { member } }, rest),
                ),
                None => None,
            }
        } else {
            None
        },
        None => None,
    }
}

/// An op is read back.
pub proof fn lemma_op_roundtrip(op: OpView, rest: Seq<u8>)
    requires
        op.fits(),
    ensures
        read_op(op.encoded() + rest) == Some((op, rest)),
{
    match op {
        OpView::Create { name } => {
            assert(op.encoded() + rest =~= codec::varint(0) + (codec::string(name) + rest));
            codec::lemma_u32_roundtrip(0, codec::string(name) + rest);
            codec::lemma_string_roundtrip(name, rest);
        },
        OpView::Invite { member } => {
            assert(op.encoded() + rest =~= codec::varint(1) + (member@ + rest));
            codec::lemma_u32_roundtrip(1, member@ + rest);
            codec::lemma_array_roundtrip(member, rest);
        },
        OpView::Kick { member } => {
            assert(op.encoded() + rest =~= codec::varint(2) + (member@ + rest));
            codec::lemma_u32_roundtrip(2, member@ + rest);
            codec::lemma_array_roundtrip(member, rest);
        },
    }
}

impl EntryView {
    /// What the author signs.
    pub open spec fn transcript(self) -> Seq<u8> {
        vstd::utf8::encode_utf8("wicara room entry v1"@) + self.prev@ + self.author@ + bytes::le64(self.ts_ms)
            + self.op.encoded()
    }

    /// The hash that the next entry names. It covers the signature as well as
    /// the content, so an entry cannot be re-signed into the same position with
    /// a different key.
    pub open spec fn digest(self) -> Seq<u8> {
        crypto::blake3_digest(self.transcript() + self.signature)
    }

    /// Whether the author signed this entry.
    pub open spec fn is_signed(self) -> bool {
        &&& self.signature.len() == 64
        &&& crypto::ed25519_key_valid(self.author@)
        &&& crypto::ed25519_accepts(self.author@, self.transcript(), self.signature)
    }

    /// Why the signature of entry number `n` is refused; `None` where the author
    /// signed it.
    pub open spec fn signature_fault(self, n: usize) -> Option<RoomError> {
        if self.signature.len() != 64 {
            Some(RoomError::SignatureLength(n))
        } else if !crypto::ed25519_key_valid(self.author@) {
            Some(RoomError::AuthorInvalid(n))
        } else if !self.is_signed() {
            Some(RoomError::Forged(n))
        } else {
            None
        }
    }

    /// The bytes of an entry.
    pub open spec fn encoded(self) -> Seq<u8> {
        self.prev@ + self.author@ + codec::varint(self.ts_ms as nat) + self.op.encoded() + codec::blob(
            self.signature,
        )
    }

    /// Whether the entry's lengths fit in a machine's address space.
    pub open spec fn fits(self) -> bool {
        self.op.fits() && self.signature.len() <= usize::MAX
    }
}

/// Reads an entry.
pub open spec fn read_entry(b: Seq<u8>) -> Option<(EntryView, Seq<u8>)> {
    match codec::read_array::<32>(b) {
        Some((prev, rest)) => match codec::read_array::<32>(rest) {
            Some((author, rest)) => match codec::read_u64(rest) {
                Some((ts_ms, rest)) => match read_op(rest) {
                    Some((op, rest)) => match codec::read_blob(rest) {
                        Some((signature, rest)) => Some(
                            (EntryView { prev, author, ts_ms: ts_ms as u64, op, signature }, rest),
                        ),
                        None => None,
                    },
                    None => None,
                },
                None => None,
            },
            None => None,
        },
        None => None,
    }
}

/// An entry is read back.
pub proof fn lemma_entry_roundtrip(e: EntryView, rest: Seq<u8>)
    requires
        e.fits(),
    ensures
        read_entry(e.encoded() + rest) == Some((e, rest)),
{
    let r4 = codec::blob(e.signature) + rest;
    let r3 = e.op.encoded() + r4;
    let r2 = codec::varint(e.ts_ms as nat) + r3;
    let r1 = e.author@ + r2;
    assert(e.encoded() + rest =~= e.prev@ + r1);
    codec::lemma_array_roundtrip(e.prev, r1);
    codec::lemma_array_roundtrip(e.author, r2);
    codec::lemma_u64_roundtrip(e.ts_ms, r3);
    lemma_op_roundtrip(e.op, r4);
    codec::lemma_blob_roundtrip(e.signature, rest);
}

/// Why a log is not a room. The number is that of the entry at fault.
#[derive(Clone, Copy, Debug, PartialEq, Eq, Structural)]
pub enum RoomError {
    SignatureLength(usize),
    AuthorInvalid(usize),
    Forged(usize),
    Empty,
    NotGenesis,
    NotCreate,
    NotFollowing(usize),
    NotAdmin(usize),
    SecondCreate(usize),
    KicksFounder(usize),
}

/// "room log entry " and the number of the entry.
pub open spec fn entry_label(n: usize) -> Seq<char> {
    "room log entry "@ + text::decimal(n as nat)
}

impl RoomError {
    /// The number of the entry at fault, counting from zero; `None` where the
    /// log has none.
    pub open spec fn entry(self) -> Option<usize> {
        match self {
            RoomError::Empty => None,
            RoomError::NotGenesis | RoomError::NotCreate => Some(0),
            RoomError::SignatureLength(n) => Some(n),
            RoomError::AuthorInvalid(n) => Some(n),
            RoomError::Forged(n) => Some(n),
            RoomError::NotFollowing(n) => Some(n),
            RoomError::NotAdmin(n) => Some(n),
            RoomError::SecondCreate(n) => Some(n),
            RoomError::KicksFounder(n) => Some(n),
        }
    }

    /// The text of the error.
    pub open spec fn text(self) -> Seq<char> {
        match self {
            RoomError::SignatureLength(n) => entry_label(n) + ": room entry signature is not 64 bytes"@,
            RoomError::AuthorInvalid(n) => entry_label(n) + ": room entry author is not a valid Ed25519 key"@,
            RoomError::Forged(n) => entry_label(n) + ": room entry is not signed by the author it names"@,
            RoomError::Empty => "room log is empty"@,
            RoomError::NotGenesis => "room log does not start at a create"@,
            RoomError::NotCreate => "first room entry is not a create"@,
            RoomError::NotFollowing(n) => entry_label(n) + " does not follow the one before it"@,
            RoomError::NotAdmin(n) => entry_label(n) + " was written by someone who is not an admin"@,
            RoomError::SecondCreate(n) => entry_label(n) + " creates a second room"@,
            RoomError::KicksFounder(n) => entry_label(n) + " kicks the founder"@,
        }
    }

    /// Computes [`RoomError::text`].
    pub fn message(&self) -> (r: String)
        ensures
            r@ == self.text(),
    {
        match self {
            RoomError::SignatureLength(n) => label(*n).concat(": room entry signature is not 64 bytes"),
            RoomError::AuthorInvalid(n) => label(*n).concat(": room entry author is not a valid Ed25519 key"),
            RoomError::Forged(n) => label(*n).concat(": room entry is not signed by the author it names"),
            RoomError::Empty => "room log is empty".to_owned(),
            RoomError::NotGenesis => "room log does not start at a create".to_owned(),
            RoomError::NotCreate => "first room entry is not a create".to_owned(),
            RoomError::NotFollowing(n) => label(*n).concat(" does not follow the one before it"),
            RoomError::NotAdmin(n) => label(*n).concat(" was written by someone who is not an admin"),
            RoomError::SecondCreate(n) => label(*n).concat(" creates a second room"),
            RoomError::KicksFounder(n) => label(*n).concat(" kicks the founder"),
        }
    }
}

/// Computes [`entry_label`].
fn label(n: usize) -> (r: String)
    ensures
        r@ == entry_label(n),
{
    "room log entry ".to_owned().concat(text::decimal_of(n as u64).as_str())
}

/// Computes [`EntryView::transcript`].
fn transcript(prev: &[u8; 32], author: &[u8; 32], ts_ms: u64, op: &RoomOp) -> (t: Vec<u8>)
    ensures
        t@ == vstd::utf8::encode_utf8("wicara room entry v1"@) + prev@ + author@ + bytes::le64(ts_ms)
            + op@.encoded(),
{
    let mut t: Vec<u8> = vstd::slice::slice_to_vec("wicara room entry v1".as_bytes());
    t.extend_from_slice(prev);
    t.extend_from_slice(author);
    t.extend_from_slice(&vstd::bytes::u64_to_le_bytes(ts_ms));
    t.extend_from_slice(&op.encode());
    t
}

impl RoomOp {
    /// Computes [`OpView::encoded`].
    pub fn encode(&self) -> (r: Vec<u8>)
        ensures
            r@ == self@.encoded(),
    {
        match self {
            RoomOp::Create { name } => {
                let mut out = codec::write_u64(0);
                out.extend_from_slice(&codec::write_string(name.as_str()));
                out
            },
            RoomOp::Invite { member } => {
                let mut out = codec::write_u64(1);
                out.extend_from_slice(member);
                out
            },
            RoomOp::Kick { member } => {
                let mut out = codec::write_u64(2);
                out.extend_from_slice(member);
                out
            },
        }
    }

    /// Computes [`read_op`].
    pub(crate) fn take(b: &[u8]) -> (r: Option<(RoomOp, &[u8])>)
        ensures
            r is Some <==> read_op(b@) is Some,
            r is Some ==> read_op(b@) == Some(((r->0).0@, (r->0).1@)),
    {
        let (kind, rest) = match codec::take_u32(b) {
            Some(x) => x,
            None => return None,
        };
        if kind == 0 {
            match codec::take_string(rest) {
                Some((name, rest)) => Some((RoomOp::Create { name }, rest)),
                None => None,
            }
        } else if kind == 1 {
            match codec::take_array::<32>(rest) {
                Some((member, rest)) => Some((RoomOp::Invite { member }, rest)),
                None => None,
            }
        } else if kind == 2 {
            match codec::take_array::<32>(rest) {
                Some((member, rest)) => Some((RoomOp::Kick { member }, rest)),
                None => None,
            }
        } else {
            None
        }
    }
}

impl RoomEntry {
    /// Signs an entry. The signature holds if it commits to a point other than
    /// the neutral one.
    pub fn new(author: &SigningKey, prev: [u8; 32], ts_ms: u64, op: RoomOp) -> (r: RoomEntry)
        ensures
            r.prev == prev,
            r.author@ == author.public(),
            r.ts_ms == ts_ms,
            r.op == op,
            r.signature@ == crypto::ed25519_signature(author@, r@.transcript()),
            crypto::committed(r.signature@) ==> r@.is_signed(),
    {
        let author_key = author.verifying_key().to_bytes();
        let signature = author.sign(&transcript(&prev, &author_key, ts_ms, &op));
        RoomEntry { prev, author: author_key, ts_ms, op, signature }
    }

    /// Computes [`EntryView::digest`].
    pub fn hash(&self) -> (r: [u8; 32])
        ensures
            r@ == self@.digest(),
    {
        let mut h = crypto::hasher();
        crypto::absorb(&mut h, &transcript(&self.prev, &self.author, self.ts_ms, &self.op));
        crypto::absorb(&mut h, &self.signature);
        assert(crypto::absorbed(h) =~= self@.transcript() + self.signature@);
        crypto::digest(&h)
    }

    /// Decides [`EntryView::signature_fault`].
    fn verify_signature(&self, n: usize) -> (r: Result<(), RoomError>)
        ensures
            match self@.signature_fault(n) {
                None => r is Ok,
                Some(e) => r is Err && r->Err_0 == e,
            },
    {
        if self.signature.len() != 64 {
            return Err(RoomError::SignatureLength(n));
        }
        if !crypto::key_valid(&self.author) {
            return Err(RoomError::AuthorInvalid(n));
        }
        let transcript = transcript(&self.prev, &self.author, self.ts_ms, &self.op);
        if !crypto::accepts(&self.author, &transcript, &self.signature) {
            return Err(RoomError::Forged(n));
        }
        Ok(())
    }

    /// Computes [`EntryView::encoded`].
    pub fn encode(&self) -> (r: Vec<u8>)
        ensures
            r@ == self@.encoded(),
    {
        let mut out: Vec<u8> = vstd::slice::slice_to_vec(&self.prev);
        out.extend_from_slice(&self.author);
        out.extend_from_slice(&codec::write_u64(self.ts_ms));
        out.extend_from_slice(&self.op.encode());
        out.extend_from_slice(&codec::write_blob(&self.signature));
        out
    }

    /// Computes [`read_entry`].
    pub(crate) fn take(b: &[u8]) -> (r: Option<(RoomEntry, &[u8])>)
        ensures
            r is Some <==> read_entry(b@) is Some,
            r is Some ==> read_entry(b@) == Some(((r->0).0@, (r->0).1@)),
    {
        let (prev, rest) = match codec::take_array::<32>(b) {
            Some(x) => x,
            None => return None,
        };
        let (author, rest) = match codec::take_array::<32>(rest) {
            Some(x) => x,
            None => return None,
        };
        let (ts_ms, rest) = match codec::take_u64(rest) {
            Some(x) => x,
            None => return None,
        };
        let (op, rest) = match RoomOp::take(rest) {
            Some(x) => x,
            None => return None,
        };
        let (signature, rest) = match codec::take_blob(rest) {
            Some(x) => x,
            None => return None,
        };
        Some((RoomEntry { prev, author, ts_ms, op, signature }, rest))
    }
}

/// A room as the chain says it stands.
#[derive(Debug, PartialEq, Eq)]
pub struct Room {
    pub id: RoomId,
    pub name: String,
    pub founder: [u8; 32],
    /// In ascending order, none twice.
    pub members: Vec<[u8; 32]>,
    /// Hash to put in the next entry's `prev`.
    pub head: [u8; 32],
    pub length: usize,
}

/// A room as mathematical values.
#[verifier::ext_equal]
pub struct RoomState {
    pub id: Seq<u8>,
    pub name: Seq<char>,
    pub founder: [u8; 32],
    pub members: Set<[u8; 32]>,
    pub head: Seq<u8>,
    pub length: nat,
}

impl View for Room {
    type V = RoomState;

    open spec fn view(&self) -> RoomState {
        RoomState {
            id: self.id@,
            name: self.name@,
            founder: self.founder,
            members: self.members@.to_set(),
            head: self.head@,
            length: self.length as nat,
        }
    }
}

/// The room that a create makes, if the entry is one.
pub open spec fn founded(create: EntryView) -> Result<RoomState, RoomError> {
    if !bytes::all_zero(create.prev@) {
        Err(RoomError::NotGenesis)
    } else if create.signature_fault(0) is Some {
        Err(create.signature_fault(0)->0)
    } else {
        match create.op {
            OpView::Create { name } => Ok(
                RoomState {
                    id: create.digest(),
                    name,
                    founder: create.author,
                    members: set![create.author],
                    head: create.digest(),
                    length: 1,
                },
            ),
            _ => Err(RoomError::NotCreate),
        }
    }
}

/// What entry number `n` makes of a room.
pub open spec fn step(room: RoomState, entry: EntryView, n: usize) -> Result<RoomState, RoomError> {
    if entry.prev@ != room.head {
        Err(RoomError::NotFollowing(n))
    } else if entry.signature_fault(n) is Some {
        Err(entry.signature_fault(n)->0)
    } else if entry.author != room.founder {
        Err(RoomError::NotAdmin(n))
    } else {
        let after = RoomState { head: entry.digest(), length: room.length + 1, ..room };
        match entry.op {
            OpView::Create { .. } => Err(RoomError::SecondCreate(n)),
            OpView::Invite { member } => Ok(RoomState { members: room.members.insert(member), ..after }),
            OpView::Kick { member } => if member == room.founder {
                Err(RoomError::KicksFounder(n))
            } else {
                Ok(RoomState { members: room.members.remove(member), ..after })
            },
        }
    }
}

/// The room that a log describes, or the fault of the first entry that does not
/// hold up.
pub open spec fn replay(log: Seq<EntryView>) -> Result<RoomState, RoomError>
    decreases log.len(),
{
    if log.len() == 0 {
        Err(RoomError::Empty)
    } else if log.len() == 1 {
        founded(log[0])
    } else {
        match replay(log.drop_last()) {
            Ok(room) => step(room, log.last(), (log.len() - 1) as usize),
            Err(e) => Err(e),
        }
    }
}

/// Byte-lexicographic order, decided at the first byte that differs.
fn key_before(a: &[u8; 32], b: &[u8; 32]) -> (r: bool)
    ensures
        r == precedes(a@, b@, 0),
{
    let mut i: usize = 0;
    while i < 32
        invariant
            i <= 32,
            precedes(a@, b@, 0) == precedes(a@, b@, i as int),
        decreases 32 - i,
    {
        if a[i] != b[i] {
            return a[i] < b[i];
        }
        i = i + 1;
    }
    false
}

/// Whether `a` comes before `b`, looking at bytes `i` and on.
pub open spec fn precedes(a: Seq<u8>, b: Seq<u8>, i: int) -> bool
    decreases 32 - i,
{
    if i >= 32 {
        false
    } else if a[i] != b[i] {
        a[i] < b[i]
    } else {
        precedes(a, b, i + 1)
    }
}

proof fn lemma_precedes_trans(a: Seq<u8>, b: Seq<u8>, c: Seq<u8>, i: int)
    requires
        precedes(a, b, i),
        precedes(b, c, i),
        0 <= i,
    ensures
        precedes(a, c, i),
    decreases 32 - i,
{
    if i < 32 && a[i] == b[i] && b[i] == c[i] {
        lemma_precedes_trans(a, b, c, i + 1);
    }
}

proof fn lemma_precedes_irreflexive(a: Seq<u8>, i: int)
    ensures
        !precedes(a, a, i),
    decreases 32 - i,
{
    if i < 32 {
        lemma_precedes_irreflexive(a, i + 1);
    }
}

proof fn lemma_precedes_total(a: [u8; 32], b: [u8; 32], i: int)
    requires
        0 <= i <= 32,
        forall|j: int| 0 <= j < i ==> a@[j] == b@[j],
        !precedes(a@, b@, i),
        !precedes(b@, a@, i),
    ensures
        a == b,
    decreases 32 - i,
{
    if i < 32 {
        lemma_precedes_total(a, b, i + 1);
    } else {
        assert(a@ =~= b@);
        bytes::lemma_array_eq(a, b);
    }
}

/// Whether the keys are in ascending order, none twice.
pub open spec fn ascending(keys: Seq<[u8; 32]>) -> bool {
    forall|i: int, j: int| 0 <= i < j < keys.len() ==> precedes(#[trigger] keys[i]@, #[trigger] keys[j]@, 0)
}

/// Ascending keys are none twice.
pub proof fn lemma_ascending_distinct(keys: Seq<[u8; 32]>)
    requires
        ascending(keys),
    ensures
        keys.no_duplicates(),
{
    assert forall|i: int, j: int| 0 <= i < keys.len() && 0 <= j < keys.len() && i != j implies keys[i] != keys[j] by {
        lemma_precedes_irreflexive(keys[i]@, 0);
        if i < j {
            assert(precedes(keys[i]@, keys[j]@, 0));
        } else {
            assert(precedes(keys[j]@, keys[i]@, 0));
        }
    }
}

/// Where `key` is, or where it belongs, in ascending keys.
fn place(keys: &Vec<[u8; 32]>, key: &[u8; 32]) -> (r: (usize, bool))
    requires
        ascending(keys@),
    ensures
        r.0 <= keys@.len(),
        r.1 <==> keys@.contains(*key),
        r.1 ==> r.0 < keys@.len() && keys@[r.0 as int] == *key,
        forall|i: int| 0 <= i < r.0 ==> precedes(#[trigger] keys@[i]@, key@, 0),
        !r.1 ==> forall|i: int| r.0 <= i < keys@.len() ==> precedes(key@, #[trigger] keys@[i]@, 0),
{
    let mut i: usize = 0;
    while i < keys.len() && key_before(&keys[i], key)
        invariant
            i <= keys@.len(),
            ascending(keys@),
            forall|j: int| 0 <= j < i ==> precedes(#[trigger] keys@[j]@, key@, 0),
        decreases keys@.len() - i,
    {
        i = i + 1;
    }
    proof {
        assert forall|j: int| 0 <= j < i implies #[trigger] keys@[j] != *key by {
            assert(precedes(keys@[j]@, key@, 0));
            lemma_precedes_irreflexive(key@, 0);
        }
    }
    if i < keys.len() && !key_before(key, &keys[i]) {
        proof {
            lemma_precedes_total(keys@[i as int], *key, 0);
        }
        return (i, true);
    }
    proof {
        assert forall|j: int| i <= j < keys@.len() implies precedes(key@, #[trigger] keys@[j]@, 0) && keys@[j]
            != *key by {
            if i < j {
                assert(precedes(keys@[i as int]@, keys@[j]@, 0));
                lemma_precedes_trans(key@, keys@[i as int]@, keys@[j]@, 0);
            }
            lemma_precedes_irreflexive(key@, 0);
        }
    }
    (i, false)
}

impl Room {
    /// Whether the members are kept in order.
    pub open spec fn wf(&self) -> bool {
        ascending(self.members@)
    }

    /// The founder is the only admin.
    pub fn is_admin(&self, who: &[u8; 32]) -> (r: bool)
        ensures
            r == (self.founder == *who),
    {
        bytes::same32(&self.founder, who)
    }

    /// Whether `who` is a member.
    pub fn is_member(&self, who: &[u8; 32]) -> (r: bool)
        requires
            self.wf(),
        ensures
            r == self@.members.contains(*who),
    {
        place(&self.members, who).1
    }

    /// Adds a member, who may be one already.
    fn enrol(&mut self, member: &[u8; 32])
        requires
            old(self).wf(),
        ensures
            final(self).wf(),
            final(self)@ == (RoomState { members: old(self)@.members.insert(*member), ..old(self)@ }),
    {
        let ghost before = self.members@;
        let (at, found) = place(&self.members, member);
        if !found {
            self.members.insert(at, *member);
        }
        proof {
            let after = self.members@;
            assert(after.to_set() =~= before.to_set().insert(*member)) by {
                assert forall|k: [u8; 32]| after.contains(k) == (before.contains(k) || k == *member) by {
                    if before.contains(k) {
                        let i = before.index_of(k);
                        if !found {
                            assert(after[if i < at { i } else { i + 1 }] == k);
                        }
                    }
                    if k == *member {
                        assert(after[at as int] == k);
                    }
                    if after.contains(k) && !found {
                        let i = after.index_of(k);
                        if i != at {
                            assert(before[if i < at { i } else { i - 1 }] == k);
                        }
                    }
                }
            }
            if !found {
                assert forall|i: int, j: int| 0 <= i < j < after.len() implies precedes(
                    #[trigger] after[i]@,
                    #[trigger] after[j]@,
                    0,
                ) by {
                    let x = if i < at { i } else { i - 1 };
                    let y = if j < at { j } else { j - 1 };
                    if i != at && j != at {
                        assert(precedes(before[x]@, before[y]@, 0));
                    } else if i == at {
                        assert(precedes(member@, before[y]@, 0));
                    } else {
                        assert(precedes(before[x]@, member@, 0));
                    }
                }
            }
        }
    }

    /// Removes a member, who may be none.
    fn expel(&mut self, member: &[u8; 32])
        requires
            old(self).wf(),
        ensures
            final(self).wf(),
            final(self)@ == (RoomState { members: old(self)@.members.remove(*member), ..old(self)@ }),
    {
        let ghost before = self.members@;
        let (at, found) = place(&self.members, member);
        if found {
            self.members.remove(at);
        }
        proof {
            let after = self.members@;
            assert(after.to_set() =~= before.to_set().remove(*member)) by {
                assert forall|k: [u8; 32]| after.contains(k) == (before.contains(k) && k != *member) by {
                    if before.contains(k) && k != *member && found {
                        let i = before.index_of(k);
                        assert(after[if i < at { i } else { i - 1 }] == k);
                    }
                    if after.contains(k) && found {
                        let i = after.index_of(k);
                        let x = if i < at { i } else { i + 1 };
                        assert(before[x] == k);
                        if x < at {
                            assert(precedes(before[x]@, before[at as int]@, 0));
                        } else {
                            assert(precedes(before[at as int]@, before[x]@, 0));
                        }
                        lemma_precedes_irreflexive(member@, 0);
                    }
                }
            }
            if found {
                assert forall|i: int, j: int| 0 <= i < j < after.len() implies precedes(
                    #[trigger] after[i]@,
                    #[trigger] after[j]@,
                    0,
                ) by {
                    let x = if i < at { i } else { i + 1 };
                    let y = if j < at { j } else { j + 1 };
                    assert(precedes(before[x]@, before[y]@, 0));
                }
            }
        }
    }
}

/// Replays a log from scratch and returns the room it describes, or an error
/// naming the first entry that does not hold up.
///
/// Called on everything the hub hands back, every time. Verification is cheap
/// and a room log is short; trusting a cached result would be trusting the hub.
pub fn verify_log(entries: &[RoomEntry]) -> (r: Result<Room, RoomError>)
    ensures
        match replay(log_view(entries@)) {
            Ok(room) => r is Ok && r->Ok_0.wf() && r->Ok_0@ == room,
            Err(e) => r is Err && r->Err_0 == e,
        },
{
    if entries.len() == 0 {
        return Err(RoomError::Empty);
    }
    let ghost log = log_view(entries@);
    let create = &entries[0];
    assert(log.take(1)[0] == create@);
    proof {
        lemma_fault_persists(log, 1);
    }
    if !bytes::is_zero(&create.prev) {
        return Err(RoomError::NotGenesis);
    }
    match create.verify_signature(0) {
        Ok(_) => {},
        Err(e) => return Err(e),
    }
    let name = match &create.op {
        RoomOp::Create { name } => name.clone(),
        _ => return Err(RoomError::NotCreate),
    };
    let id = create.hash();
    let mut members: Vec<[u8; 32]> = Vec::new();
    members.push(create.author);
    let mut room = Room { id, name, founder: create.author, members, head: id, length: 1 };
    proof {
        assert(members@.to_set() =~= set![create.author]) by {
            assert(members@[0] == create.author);
        }
        assert(replay(log.take(1)) == Ok::<RoomState, RoomError>(room@));
    }
    let mut n: usize = 1;
    while n < entries.len()
        invariant
            1 <= n <= entries@.len(),
            log == log_view(entries@),
            room.wf(),
            room.length == n,
            replay(log.take(n as int)) == Ok::<RoomState, RoomError>(room@),
        decreases entries@.len() - n,
    {
        let entry = &entries[n];
        proof {
            let next = log.take(n + 1);
            assert(next.drop_last() =~= log.take(n as int));
            assert(next.last() == entry@);
            assert(replay(next) == step(room@, entry@, n));
            lemma_fault_persists(log, n + 1);
        }
        if !bytes::same32(&entry.prev, &room.head) {
            proof {
                if entry.prev@ == room.head@ {
                    bytes::lemma_array_eq(entry.prev, room.head);
                }
            }
            return Err(RoomError::NotFollowing(n));
        }
        match entry.verify_signature(n) {
            Ok(_) => {},
            Err(e) => return Err(e),
        }
        if !room.is_admin(&entry.author) {
            return Err(RoomError::NotAdmin(n));
        }
        match &entry.op {
            RoomOp::Create { .. } => return Err(RoomError::SecondCreate(n)),
            RoomOp::Invite { member } => {
                room.enrol(member);
            },
            RoomOp::Kick { member } => {
                if bytes::same32(member, &room.founder) {
                    return Err(RoomError::KicksFounder(n));
                }
                room.expel(member);
            },
        }
        room.head = entry.hash();
        room.length = room.length + 1;
        n = n + 1;
    }
    assert(log.take(n as int) =~= log);
    Ok(room)
}

/// A log with a faulty beginning is faulty in the same way: what comes after
/// the first bad entry changes nothing.
pub proof fn lemma_fault_persists(log: Seq<EntryView>, n: int)
    requires
        1 <= n <= log.len(),
    ensures
        replay(log.take(n)) is Err ==> replay(log) == replay(log.take(n)),
    decreases log.len() - n,
{
    if n < log.len() {
        let next = log.take(n + 1);
        assert(next.drop_last() =~= log.take(n));
        lemma_fault_persists(log, n + 1);
    } else {
        assert(log.take(n) =~= log);
    }
}

/// A log that holds up does so at every length: each beginning of it is a room
/// with the same identity, name and founder. The room's identity does not
/// change when its membership does.
pub proof fn law_identity_is_stable(log: Seq<EntryView>, n: int)
    requires
        replay(log) is Ok,
        1 <= n <= log.len(),
    ensures
        replay(log.take(n)) is Ok,
        replay(log.take(n))->Ok_0.id == replay(log)->Ok_0.id,
        replay(log.take(n))->Ok_0.name == replay(log)->Ok_0.name,
        replay(log.take(n))->Ok_0.founder == replay(log)->Ok_0.founder,
        replay(log)->Ok_0.id == log[0].digest(),
        replay(log)->Ok_0.founder == log[0].author,
    decreases log.len(),
{
    if n == log.len() {
        assert(log.take(n) =~= log);
        if n > 1 {
            law_identity_is_stable(log.drop_last(), 1);
        }
    } else {
        law_identity_is_stable(log.drop_last(), n);
        assert(log.drop_last().take(n) =~= log.take(n));
    }
}

/// Nobody but the founder can write in a room, and every entry is chained to
/// the one before it: in a log that holds up, each entry carries a valid
/// signature of the founder, each but the first names the hash of its
/// predecessor, and only the first creates. The hub cannot forge an invite or a
/// kick.
pub proof fn law_only_the_founder_writes(log: Seq<EntryView>, i: int)
    requires
        replay(log) is Ok,
        0 <= i < log.len(),
    ensures
        log[i].author == replay(log)->Ok_0.founder,
        log[i].is_signed(),
        i == 0 ==> bytes::all_zero(log[i].prev@) && log[i].op is Create,
        i > 0 ==> log[i].prev@ == log[i - 1].digest() && !(log[i].op is Create),
        replay(log)->Ok_0.head == log.last().digest(),
        replay(log)->Ok_0.length == log.len(),
    decreases log.len(),
{
    if log.len() > 1 {
        let init = log.drop_last();
        law_identity_is_stable(log, 1);
        if i < log.len() - 1 {
            law_only_the_founder_writes(init, i);
            if i > 0 {
                assert(init[i - 1] == log[i - 1]);
            }
        } else {
            law_only_the_founder_writes(init, 0);
            assert(init.last() == log[i - 1]);
        }
    }
}

/// The founder is a member of every room and cannot be kicked, not even by the
/// founder.
pub proof fn law_founder_stays(log: Seq<EntryView>)
    requires
        replay(log) is Ok,
    ensures
        replay(log)->Ok_0.members.contains(replay(log)->Ok_0.founder),
        forall|i: int|
            0 <= i < log.len() ==> (#[trigger] log[i]).op != (OpView::Kick { member: replay(log)->Ok_0.founder }),
    decreases log.len(),
{
    if log.len() > 1 {
        let init = log.drop_last();
        law_founder_stays(init);
        law_identity_is_stable(log, log.len() - 1);
        assert(log.take(log.len() - 1) =~= init);
        assert forall|i: int| 0 <= i < log.len() implies (#[trigger] log[i]).op != (OpView::Kick {
            member: replay(log)->Ok_0.founder,
        }) by {
            if i < log.len() - 1 {
                assert(log[i] == init[i]);
            }
        }
    }
}

/// Whether `who` was invited by entry `i` and not kicked after it.
pub open spec fn invited_and_not_kicked_since(log: Seq<EntryView>, who: [u8; 32], i: int) -> bool {
    &&& 0 <= i < log.len()
    &&& log[i].op == (OpView::Invite { member: who })
    &&& forall|j: int| i < j < log.len() ==> (#[trigger] log[j]).op != (OpView::Kick { member: who })
}

/// Membership is what the chain says: the founder, and everyone who was invited
/// and not kicked since.
pub proof fn law_membership(log: Seq<EntryView>, who: [u8; 32])
    requires
        replay(log) is Ok,
    ensures
        replay(log)->Ok_0.members.contains(who) <==> who == replay(log)->Ok_0.founder || exists|i: int|
            invited_and_not_kicked_since(log, who, i),
    decreases log.len(),
{
    let room = replay(log)->Ok_0;
    if log.len() == 1 {
        assert(forall|i: int| !invited_and_not_kicked_since(log, who, i));
    } else {
        let init = log.drop_last();
        let n = log.len() - 1;
        law_membership(init, who);
        law_founder_stays(log);
        law_identity_is_stable(log, n);
        assert(log.take(n) =~= init);
        let last = log.last();
        if last.op == (OpView::Invite { member: who }) {
            assert(invited_and_not_kicked_since(log, who, n));
        } else if last.op == (OpView::Kick { member: who }) {
            assert forall|i: int| !invited_and_not_kicked_since(log, who, i) by {
                if 0 <= i < n {
                    assert(log[n].op == (OpView::Kick { member: who }));
                }
            }
        } else {
            assert forall|i: int| invited_and_not_kicked_since(log, who, i) == invited_and_not_kicked_since(
                init,
                who,
                i,
            ) by {
                if invited_and_not_kicked_since(init, who, i) {
                    assert forall|j: int| i < j < log.len() implies (#[trigger] log[j]).op != (OpView::Kick {
                        member: who,
                    }) by {
                        if j < n {
                            assert(init[j] == log[j]);
                        }
                    }
                    assert(log[i] == init[i]);
                }
                if invited_and_not_kicked_since(log, who, i) {
                    assert(i != n);
                    assert(log[i] == init[i]);
                    assert forall|j: int| i < j < init.len() implies (#[trigger] init[j]).op
                        != (OpView::Kick { member: who }) by {
                        assert(init[j] == log[j]);
                    }
                }
            }
            if exists|i: int| invited_and_not_kicked_since(init, who, i) {
                let i = choose|i: int| invited_and_not_kicked_since(init, who, i);
                assert(invited_and_not_kicked_since(log, who, i));
            }
        }
    }
}

/// An error names the first entry that does not hold up: what goes before it is
/// a room, and with it there is none.
pub proof fn law_faults_name_the_first_bad_entry(log: Seq<EntryView>)
    requires
        0 < log.len() <= usize::MAX,
        replay(log) is Err,
    ensures
        ({
            let e = replay(log)->Err_0;
            &&& e.entry() matches Some(n) && n < log.len()
            &&& e.entry()->0 > 0 ==> replay(log.take(e.entry()->0 as int)) is Ok
            &&& replay(log.take(e.entry()->0 + 1)) == Err::<RoomState, RoomError>(e)
        }),
    decreases log.len(),
{
    let init = log.drop_last();
    assert(log.take(log.len() as int) =~= log);
    assert(log.take(log.len() - 1) =~= init);
    if log.len() > 1 && replay(init) is Err {
        law_faults_name_the_first_bad_entry(init);
        let n = replay(init)->Err_0.entry()->0;
        assert(init.take(n as int) =~= log.take(n as int));
        assert(init.take(n + 1) =~= log.take(n + 1));
    }
}

/// A log never becomes a room again by what is put behind it: once a beginning
/// is at fault, the whole is, for the same reason.
pub proof fn law_faults_are_final(log: Seq<EntryView>, more: Seq<EntryView>)
    requires
        log.len() > 0,
        replay(log) is Err,
    ensures
        replay(log + more) == replay(log),
{
    assert((log + more).take(log.len() as int) =~= log);
    lemma_fault_persists(log + more, log.len() as int);
}

/// A log that begins with a create and goes on with invitations and kicks of
/// others, each signed by the founder and naming the one before it, is taken,
/// however long. The room has the name and the founder of the create.
pub proof fn law_honest_logs_are_taken(log: Seq<EntryView>, name: Seq<char>)
    requires
        log.len() > 0,
        log[0].op == (OpView::Create { name }),
        forall|i: int| 0 <= i < 32 ==> (#[trigger] log[0].prev@[i]) == 0,
        forall|i: int|
            0 <= i < log.len() ==> (#[trigger] log[i]).author == log[0].author && log[i].signature.len() == 64
                && crypto::ed25519_key_valid(log[i].author@) && crypto::ed25519_accepts(
                log[i].author@,
                log[i].transcript(),
                log[i].signature,
            ),
        forall|i: int|
            0 < i < log.len() ==> (#[trigger] log[i]).prev@ == log[i - 1].digest() && !(log[i].op is Create)
                && log[i].op != (OpView::Kick { member: log[0].author }),
    ensures
        replay(log) is Ok,
        replay(log)->Ok_0.name == name,
        replay(log)->Ok_0.founder == log[0].author,
        replay(log)->Ok_0.id == log[0].digest(),
        replay(log)->Ok_0.head == log.last().digest(),
        replay(log)->Ok_0.length == log.len(),
    decreases log.len(),
{
    reveal_with_fuel(replay, 2);
    assert(log[0].author == log[0].author);
    if log.len() > 1 {
        let init = log.drop_last();
        let n = log.len() - 1;
        assert forall|i: int| 0 <= i < init.len() implies (#[trigger] init[i]).author == init[0].author
            && init[i].signature.len() == 64 && crypto::ed25519_key_valid(init[i].author@)
            && crypto::ed25519_accepts(init[i].author@, init[i].transcript(), init[i].signature) by {
            assert(init[i] == log[i]);
        }
        assert forall|i: int| 0 < i < init.len() implies (#[trigger] init[i]).prev@ == init[i - 1].digest() && !(
        init[i].op is Create) && init[i].op != (OpView::Kick { member: init[0].author }) by {
            assert(init[i] == log[i]);
        }
        law_honest_logs_are_taken(init, name);
        assert(log[n].author == log[0].author);
        assert(log[n].prev@ == log[n - 1].digest());
        assert(init.last() == log[n - 1]);
    }
}

/// One more entry is taken just where it names the last one, is signed by the
/// founder, and neither creates a room nor kicks the founder. An invitation adds
/// its member, a kick takes its member away, and nobody else comes or goes.
pub proof fn law_entries_do_what_they_say(log: Seq<EntryView>, e: EntryView, who: [u8; 32])
    requires
        replay(log) is Ok,
        log.len() < usize::MAX,
    ensures
        ({
            let room = replay(log)->Ok_0;
            let n = log.len() as usize;
            let after = replay(log.push(e));
            let signed = e.signature.len() == 64 && crypto::ed25519_key_valid(e.author@) && crypto::ed25519_accepts(
                e.author@,
                e.transcript(),
                e.signature,
            );
            &&& after is Ok <==> e.prev@ == log.last().digest() && signed && e.author == room.founder && !(
            e.op is Create) && e.op != (OpView::Kick { member: room.founder })
            &&& e.prev@ != log.last().digest() ==> after == Err::<RoomState, RoomError>(RoomError::NotFollowing(n))
            &&& e.prev@ == log.last().digest() && signed && e.author != room.founder ==> after == Err::<
                RoomState,
                RoomError,
            >(RoomError::NotAdmin(n))
            &&& after is Ok ==> {
                let next = after->Ok_0;
                &&& next.members.contains(who) <==> e.op == (OpView::Invite { member: who }) || (room.members.contains(
                    who,
                ) && e.op != (OpView::Kick { member: who }))
                &&& next.head == e.digest()
                &&& next.length == log.len() + 1
                &&& next.id == room.id && next.name == room.name && next.founder == room.founder
            }
        }),
{
    assert(log.push(e).drop_last() =~= log);
    law_only_the_founder_writes(log, log.len() - 1);
    match e.op {
        OpView::Kick { member } => {
            assert(e.op == (OpView::Kick { member: who }) ==> member == who);
        },
        OpView::Invite { member } => {
            assert(e.op == (OpView::Invite { member: who }) ==> member == who);
        },
        _ => {},
    }
}

/// A signature covers all of an entry: entries with the same transcript are by
/// the same author, at the same time, behind the same entry, and do the same.
pub proof fn law_signatures_cover_the_entry(a: EntryView, b: EntryView)
    requires
        a.op.fits(),
        b.op.fits(),
        a.transcript() == b.transcript(),
    ensures
        a.prev == b.prev,
        a.author == b.author,
        a.ts_ms == b.ts_ms,
        a.op == b.op,
{
    let head = vstd::utf8::encode_utf8("wicara room entry v1"@);
    let n = head.len() as int;
    let (ta, tb) = (a.transcript(), b.transcript());
    vstd::bytes::lemma_auto_spec_u64_to_from_le_bytes();
    assert(ta.subrange(n, n + 32) =~= a.prev@);
    assert(tb.subrange(n, n + 32) =~= b.prev@);
    bytes::lemma_array_eq(a.prev, b.prev);
    assert(ta.subrange(n + 32, n + 64) =~= a.author@);
    assert(tb.subrange(n + 32, n + 64) =~= b.author@);
    bytes::lemma_array_eq(a.author, b.author);
    assert(ta.subrange(n + 64, n + 72) =~= bytes::le64(a.ts_ms));
    assert(tb.subrange(n + 64, n + 72) =~= bytes::le64(b.ts_ms));
    assert(ta.skip(n + 72) =~= a.op.encoded());
    assert(tb.skip(n + 72) =~= b.op.encoded());
    lemma_op_roundtrip(a.op, Seq::empty());
    lemma_op_roundtrip(b.op, Seq::empty());
}

} // verus!
