//! Object capabilities over native directory handles: which names and records count, which opened
//! object is the expected one, and what a handle costs. The calls themselves are made elsewhere.
use vstd::prelude::*;
use vstd::slice::slice_subrange;

use crate::domain::index;
use crate::domain::index::{is_component, MAX_COMPONENT_BYTES};
use crate::runtime::memory::{ByteBudget, Reservation};
use crate::scheduler::{HandleBudget, HandlePermit};
use crate::text::same_bytes;

verus! {

/// The attribute bit of a record's own error, as in the system's `sys/attr.h`.
pub const ATTR_CMN_ERROR: u32 = 0x2000_0000;

/// The attribute bit of a name, as in the system's `sys/attr.h`.
pub const ATTR_CMN_NAME: u32 = 0x0000_0001;

/// The error of a damaged record: an input/output error.
pub const EIO: i32 = 5;

/// The bits of a mode that tell the kind of an object, and those of a directory.
pub const S_IFMT: u32 = 0o170000;

pub const S_IFDIR: u32 = 0o040000;

/// How many bytes one read of a directory brings at most.
pub const BUFFER_BYTES: usize = 16384;

/// What an open handle is charged.
pub const HANDLE_BYTES: usize = 2048;

/// The shortest record: its length, five attribute sets, an error and a name reference.
pub const RECORD_BYTES: usize = 36;

/// Why a native object was not reached.
#[derive(Debug, Clone, Copy, PartialEq, Eq, Structural)]
pub enum BoundaryError {
    /// The system's own error, by its number.
    Native(i32),
    InvalidComponent,
    Revoked,
    ResourceLimit,
    ChangedObject,
    MountBoundary,
}

/// Which object a handle refers to.
#[derive(Debug, Clone, Copy, PartialEq, Eq, Structural)]
pub struct Identity {
    pub device: i32,
    pub inode: u64,
    pub generation: u32,
    pub birth_sec: i64,
    pub birth_nsec: i64,
}

/// Which file system an object is on.
#[derive(Debug)]
pub struct Mount {
    pub fsid: (i32, i32),
    pub point: Vec<u8>,
}

/// What tells a mount from another.
#[verifier::ext_equal]
pub struct MountView {
    pub fsid: (i32, i32),
    pub point: Seq<u8>,
}

impl View for Mount {
    type V = MountView;

    open spec fn view(&self) -> MountView {
        MountView { fsid: self.fsid, point: self.point@ }
    }
}

/// What access comes to.
pub open spec fn checked(revoked: bool) -> Result<(), BoundaryError> {
    if revoked {
        Err(BoundaryError::Revoked)
    } else {
        Ok(())
    }
}

/// Whether access was revoked.
pub fn check(revoked: bool) -> (result: Result<(), BoundaryError>)
    ensures
        result == checked(revoked),
{
    if revoked {
        Err(BoundaryError::Revoked)
    } else {
        Ok(())
    }
}

/// Charges one more handle: a permit, and its memory. What was charged is given back when the
/// memory is not there.
pub fn reserve(revoked: bool, handles: &mut HandleBudget, memory: &mut ByteBudget) -> (
result: Result<(HandlePermit, Reservation), BoundaryError>)
    requires
        old(handles).wf(),
        old(memory).wf(),
    ensures
        final(handles).wf(),
        final(memory).wf(),
        result is Err ==> final(handles)@.used == old(handles)@.used && final(memory)@ == old(
            memory,
        )@,
        if revoked {
            result is Err && result->Err_0 is Revoked && final(handles)@ == old(handles)@
        } else if old(handles)@.used >= old(handles)@.limit || !old(memory)@.affords(
            HANDLE_BYTES as nat,
        ) {
            result is Err && result->Err_0 is ResourceLimit
        } else {
            &&& result is Ok
            &&& final(handles)@ == old(handles)@.reserved(1)
            &&& final(handles).granted(&result->Ok_0.0)
            &&& final(memory)@ == old(memory)@.reserved(HANDLE_BYTES as nat)
            &&& final(memory).holds(&result->Ok_0.1)
            &&& result->Ok_0.1.size() == HANDLE_BYTES
        },
{
    if revoked {
        return Err(BoundaryError::Revoked);
    }
    let permit = match handles.acquire() {
        Ok(permit) => permit,
        Err(_) => {
            return Err(BoundaryError::ResourceLimit);
        },
    };
    match memory.reserve(HANDLE_BYTES) {
        Ok(reservation) => Ok((permit, reservation)),
        Err(_) => {
            handles.release(permit);
            Err(BoundaryError::ResourceLimit)
        },
    }
}

/// Charges a handle for the buffer of a cursor as well.
pub fn charge_buffer(revoked: bool, reservation: &mut Reservation, memory: &mut ByteBudget) -> (
result: Result<(), BoundaryError>)
    requires
        old(memory).wf(),
        old(memory).holds(old(reservation)),
    ensures
        final(memory).wf(),
        final(memory).holds(final(reservation)),
        final(reservation).id() == old(reservation).id(),
        ({
            let bytes = (HANDLE_BYTES + BUFFER_BYTES) as nat;
            if revoked {
                &&& result == Err::<(), BoundaryError>(BoundaryError::Revoked)
                &&& final(memory)@ == old(memory)@
                &&& final(reservation).size() == old(reservation).size()
            } else if old(memory)@.fits(old(reservation).size(), bytes) {
                &&& result is Ok
                &&& final(memory)@ == old(memory)@.resized(old(reservation).id(), bytes)
                &&& final(reservation).size() == bytes
            } else {
                &&& result == Err::<(), BoundaryError>(BoundaryError::ResourceLimit)
                &&& final(memory)@ == old(memory)@
                &&& final(reservation).size() == old(reservation).size()
            }
        }),
{
    if revoked {
        return Err(BoundaryError::Revoked);
    }
    match reservation.resize(memory, HANDLE_BYTES + BUFFER_BYTES) {
        Ok(_) => Ok(()),
        Err(_) => Err(BoundaryError::ResourceLimit),
    }
}

/// A component that a directory can be opened under.
pub open spec fn opens_under(name: Seq<u8>) -> bool {
    name.len() > 0 && index::component_allowed(name, MAX_COMPONENT_BYTES as nat)
}

/// What opening a directory under a raw name comes to, before it is tried.
pub open spec fn named(name: Seq<u8>) -> Result<(), BoundaryError> {
    if opens_under(name) {
        Ok(())
    } else {
        Err(BoundaryError::InvalidComponent)
    }
}

/// Whether a directory can be opened under a raw name.
pub fn component(name: &[u8]) -> (result: Result<(), BoundaryError>)
    ensures
        result == named(name@),
{
    if name.len() == 0 || !is_component(name, MAX_COMPONENT_BYTES) {
        Err(BoundaryError::InvalidComponent)
    } else {
        Ok(())
    }
}

/// What opening an observed child comes to, before it is tried.
pub open spec fn openable(same_parent: bool, mode: u32) -> Result<(), BoundaryError> {
    if same_parent && mode & S_IFMT == S_IFDIR {
        Ok(())
    } else {
        Err(BoundaryError::ChangedObject)
    }
}

/// Whether an observed child can be opened as a directory: it was observed through the same parent,
/// and it was a directory.
pub fn may_open(same_parent: bool, mode: u32) -> (result: Result<(), BoundaryError>)
    ensures
        result == openable(same_parent, mode),
{
    if !same_parent || mode & S_IFMT != S_IFDIR {
        Err(BoundaryError::ChangedObject)
    } else {
        Ok(())
    }
}

/// What a call of the system comes to.
pub open spec fn call_judged(revoked: bool, error: Option<i32>) -> Result<(), BoundaryError> {
    if revoked {
        Err(BoundaryError::Revoked)
    } else {
        match error {
            Some(error) => Err(BoundaryError::Native(error)),
            None => Ok(()),
        }
    }
}

/// What an opened object is judged by. Neither errors nor successes of a call that was under way
/// while access was revoked are told.
pub fn judge_call(revoked: bool, error: Option<i32>) -> (result: Result<(), BoundaryError>)
    ensures
        result == call_judged(revoked, error),
{
    if revoked {
        return Err(BoundaryError::Revoked);
    }
    match error {
        Some(error) => Err(BoundaryError::Native(error)),
        None => Ok(()),
    }
}

/// What an opened object comes to, by the one that was expected.
pub open spec fn identity_judged(expected: Option<Identity>, found: Identity) -> Result<
    (),
    BoundaryError,
> {
    if expected is None || expected->0 == found {
        Ok(())
    } else {
        Err(BoundaryError::ChangedObject)
    }
}

/// Whether an opened object is the expected one.
pub fn judge_identity(expected: Option<Identity>, found: Identity) -> (result: Result<
    (),
    BoundaryError,
>)
    ensures
        result == identity_judged(expected, found),
{
    match expected {
        Some(expected) => {
            if expected == found {
                Ok(())
            } else {
                Err(BoundaryError::ChangedObject)
            }
        },
        None => Ok(()),
    }
}

/// What an opened object comes to, by the mount of its parent.
pub open spec fn mount_judged(own: MountView, found: MountView) -> Result<(), BoundaryError> {
    if own == found {
        Ok(())
    } else {
        Err(BoundaryError::MountBoundary)
    }
}

/// Whether an opened object is on the mount of its parent.
pub fn judge_mount(own: &Mount, found: &Mount) -> (result: Result<(), BoundaryError>)
    ensures
        result == mount_judged(own@, found@),
{
    if own.fsid.0 == found.fsid.0 && own.fsid.1 == found.fsid.1 && same_bytes(
        own.point.as_slice(),
        found.point.as_slice(),
    ) {
        Ok(())
    } else {
        Err(BoundaryError::MountBoundary)
    }
}

/// Four bytes as a number, the least significant first or last.
pub open spec fn word(bytes: Seq<u8>, at: int, little: bool) -> u32 {
    let (a, b, c, d) = (bytes[at], bytes[at + 1], bytes[at + 2], bytes[at + 3]);
    if little {
        (a + b * 256 + c * 65536 + d * 16777216) as u32
    } else {
        (d + c * 256 + b * 65536 + a * 16777216) as u32
    }
}

fn read_word(bytes: &[u8], at: usize, little: bool) -> (result: Result<u32, BoundaryError>)
    ensures
        at + 4 <= bytes@.len() ==> result == Ok::<u32, BoundaryError>(
            word(bytes@, at as int, little),
        ),
        at + 4 > bytes@.len() ==> result == Err::<u32, BoundaryError>(BoundaryError::Native(EIO)),
{
    if bytes.len() < 4 || at > bytes.len() - 4 {
        return Err(BoundaryError::Native(EIO));
    }
    let a: u64 = bytes[at] as u64;
    let b: u64 = bytes[at + 1] as u64;
    let c: u64 = bytes[at + 2] as u64;
    let d: u64 = bytes[at + 3] as u64;
    let value: u64 = if little {
        a + b * 256 + c * 65536 + d * 16777216
    } else {
        d + c * 256 + b * 65536 + a * 16777216
    };
    Ok(value as u32)
}

/// The same 32 bits as a signed number.
pub open spec fn signed(value: u32) -> int {
    if value < 0x8000_0000 {
        value as int
    } else {
        value - 0x1_0000_0000
    }
}

fn as_signed(value: u32) -> (result: i32)
    ensures
        result == signed(value),
{
    if value < 0x8000_0000 {
        value as i32
    } else {
        (value as i64 - 0x1_0000_0000) as i32
    }
}

/// What a record holds: its length, and the name or the error of the entry. A damaged record
/// holds nothing.
#[verifier::ext_equal]
pub struct RecordView {
    pub length: nat,
    pub name: Result<Seq<u8>, i32>,
}

/// What the record at an offset of a buffer holds.
pub open spec fn record_at(bytes: Seq<u8>, offset: nat, little: bool) -> Option<RecordView> {
    if offset + 4 > bytes.len() {
        None
    } else {
        let record = bytes.skip(offset as int);
        let length = word(record, 0, little) as nat;
        if length < RECORD_BYTES || length % 8 != 0 || length > record.len() {
            None
        } else {
            let returned = word(record, 4, little);
            let error = word(record, 24, little);
            let start = 28 + signed(word(record, 28, little));
            let size = word(record, 32, little) as int;
            if returned & ATTR_CMN_ERROR != 0 && error != 0 {
                Some(RecordView { length, name: Err(signed(error) as i32) })
            } else if returned & ATTR_CMN_NAME == 0 {
                None
            } else if start < RECORD_BYTES || size < 1 || start + size > length || record[start
                + size - 1] != 0 {
                None
            } else {
                Some(RecordView { length, name: Ok(record.subrange(start, start + size - 1)) })
            }
        }
    }
}

/// Reads the record at an offset of a buffer, in a byte order.
pub fn parse_ordered(bytes: &[u8], offset: usize, little: bool) -> (result: Result<
    (usize, Result<&[u8], BoundaryError>),
    BoundaryError,
>)
    ensures
        match record_at(bytes@, offset as nat, little) {
            None => result is Err && result->Err_0 == BoundaryError::Native(EIO),
            Some(record) => {
                &&& result is Ok
                &&& result->Ok_0.0 == record.length
                &&& match record.name {
                    Ok(name) => result->Ok_0.1 is Ok && result->Ok_0.1->Ok_0@ == name,
                    Err(error) => result->Ok_0.1 is Err && result->Ok_0.1->Err_0
                        == BoundaryError::Native(error),
                }
            },
        },
{
    if bytes.len() < 4 || offset > bytes.len() - 4 {
        return Err(BoundaryError::Native(EIO));
    }
    let record = slice_subrange(bytes, offset, bytes.len());
    assert(record@ =~= bytes@.skip(offset as int));
    let length: u32 = match read_word(record, 0, little) {
        Ok(length) => length,
        Err(error) => {
            return Err(error);
        },
    };
    if (length as u64) < 36 || length % 8 != 0 || length as u64 > record.len() as u64 {
        return Err(BoundaryError::Native(EIO));
    }
    let length: usize = length as usize;
    let (returned, error, shift, size): (u32, u32, u32, u32) = match (
        read_word(record, 4, little),
        read_word(record, 24, little),
        read_word(record, 28, little),
        read_word(record, 32, little),
    ) {
        (Ok(returned), Ok(error), Ok(shift), Ok(size)) => (returned, error, shift, size),
        _ => {
            return Err(BoundaryError::Native(EIO));
        },
    };
    if returned & ATTR_CMN_ERROR != 0 && error != 0 {
        return Ok((length, Err(BoundaryError::Native(as_signed(error)))));
    }
    if returned & ATTR_CMN_NAME == 0 {
        return Err(BoundaryError::Native(EIO));
    }
    let start: i64 = 28 + as_signed(shift) as i64;
    let end: i64 = start + size as i64;
    if start < 36 || size < 1 || end as i128 > length as i128 {
        return Err(BoundaryError::Native(EIO));
    }
    let first: usize = start as usize;
    let last: usize = (end - 1) as usize;
    if record[last] != 0 {
        return Err(BoundaryError::Native(EIO));
    }
    let name = slice_subrange(record, first, last);
    assert(name@ =~= record@.subrange(start as int, start + size - 1));
    Ok((length, Ok(name)))
}

/// `u32::from_ne_bytes`: four bytes as a number in the machine's byte order, which is one of the
/// two orders. Which of them is left unsaid.
#[verifier::external_body]
fn native_word(bytes: [u8; 4]) -> (value: u32)
    ensures
        value == word(bytes@, 0, true) || value == word(bytes@, 0, false),
{
    u32::from_ne_bytes(bytes)
}

/// Whether the machine's byte order is this one: a word whose first byte is one and whose others
/// are zero reads as one exactly where the least significant byte comes first.
pub closed spec fn is_order(little: bool) -> bool {
    exists|bytes: [u8; 4], value: u32|
        {
            &&& bytes@ == seq![1u8, 0, 0, 0]
            &&& #[trigger] call_ensures(native_word, (bytes,), value)
            &&& little == (value == 1)
        }
}

/// Whether the machine puts the least significant byte first.
pub fn is_little_endian() -> (little: bool)
    ensures
        is_order(little),
{
    let bytes: [u8; 4] = [1, 0, 0, 0];
    let value: u32 = native_word(bytes);
    assert(bytes@ =~= seq![1u8, 0, 0, 0]);
    assert(call_ensures(native_word, (bytes,), value));
    value == 1
}

/// Reads the record at an offset of a buffer that the system filled.
pub fn parse_name(bytes: &[u8], offset: usize) -> (result: Result<
    (usize, Result<&[u8], BoundaryError>),
    BoundaryError,
>)
    ensures
        exists|little: bool|
            is_order(little) && match #[trigger] record_at(bytes@, offset as nat, little) {
                None => result is Err && result->Err_0 == BoundaryError::Native(EIO),
                Some(record) => {
                    &&& result is Ok
                    &&& result->Ok_0.0 == record.length
                    &&& match record.name {
                        Ok(name) => result->Ok_0.1 is Ok && result->Ok_0.1->Ok_0@ == name,
                        Err(error) => result->Ok_0.1 is Err && result->Ok_0.1->Err_0
                            == BoundaryError::Native(error),
                    }
                },
            },
{
    let little = is_little_endian();
    parse_ordered(bytes, offset, little)
}

/// A name lies within its record, behind the fixed part, and holds no more than the record says.
pub proof fn names_lie_within_their_records(bytes: Seq<u8>, offset: nat, little: bool)
    ensures
        match record_at(bytes, offset, little) {
            Some(record) => {
                &&& RECORD_BYTES <= record.length
                &&& offset + record.length <= bytes.len()
                &&& record.name is Ok ==> record.name->Ok_0.len() + RECORD_BYTES < record.length
            },
            None => true,
        },
{
}

/// What is read of a directory: the records of the last read, and how many of them are left.
pub struct CursorState {
    buffer: Vec<u8>,
    offset: usize,
    remaining: usize,
    ended: bool,
}

/// What is left of the last read, and whether there can be another.
#[verifier::ext_equal]
pub struct CursorView {
    pub buffer: Seq<u8>,
    pub offset: nat,
    pub remaining: nat,
    pub ended: bool,
}

impl View for CursorState {
    type V = CursorView;

    closed spec fn view(&self) -> CursorView {
        CursorView {
            buffer: self.buffer@,
            offset: self.offset as nat,
            remaining: self.remaining as nat,
            ended: self.ended,
        }
    }
}

/// What comes next: another read, nothing of note, a name, the end, or a failure.
pub enum Advance {
    Fill,
    Skipped,
    Name(Vec<u8>),
    End,
    Failed(BoundaryError),
}

/// What comes next, by what it shows.
#[verifier::ext_equal]
pub enum AdvanceView {
    Fill,
    Skipped,
    Name(Seq<u8>),
    End,
    Failed(BoundaryError),
}

impl View for Advance {
    type V = AdvanceView;

    open spec fn view(&self) -> AdvanceView {
        match self {
            Advance::Fill => AdvanceView::Fill,
            Advance::Skipped => AdvanceView::Skipped,
            Advance::Name(name) => AdvanceView::Name(name@),
            Advance::End => AdvanceView::End,
            Advance::Failed(error) => AdvanceView::Failed(*error),
        }
    }
}

/// A directory's own entry or its parent's.
pub open spec fn is_dot(name: Seq<u8>) -> bool {
    name == seq![46u8] || name == seq![46u8, 46u8]
}

impl CursorView {
    /// What comes next.
    pub open spec fn advance(self, revoked: bool, little: bool) -> AdvanceView {
        if revoked {
            AdvanceView::Failed(BoundaryError::Revoked)
        } else if self.remaining == 0 {
            if self.ended {
                AdvanceView::End
            } else {
                AdvanceView::Fill
            }
        } else {
            match record_at(self.buffer, self.offset, little) {
                None => AdvanceView::Failed(BoundaryError::Native(EIO)),
                Some(record) => match record.name {
                    Err(error) => AdvanceView::Failed(BoundaryError::Native(error)),
                    Ok(name) => if is_dot(name) {
                        AdvanceView::Skipped
                    } else if !opens_under(name) {
                        AdvanceView::Failed(BoundaryError::InvalidComponent)
                    } else {
                        AdvanceView::Name(name)
                    },
                },
            }
        }
    }

    /// The cursor afterwards. A record that was read is behind it, whatever it held; a damaged one
    /// ends the reading.
    pub open spec fn advanced(self, revoked: bool, little: bool) -> CursorView {
        if revoked || self.remaining == 0 {
            self
        } else {
            match record_at(self.buffer, self.offset, little) {
                None => CursorView { remaining: 0, ended: true, ..self },
                Some(record) => CursorView {
                    offset: self.offset + record.length,
                    remaining: (self.remaining - 1) as nat,
                    ..self
                },
            }
        }
    }

    /// What another read comes to. A read that failed has no trustworthy continuation.
    pub open spec fn fill(self, revoked: bool, count: Result<nat, i32>) -> Result<
        bool,
        BoundaryError,
    > {
        if revoked {
            Err(BoundaryError::Revoked)
        } else {
            match count {
                Err(error) => Err(BoundaryError::Native(error)),
                Ok(count) => Ok(count > 0),
            }
        }
    }

    /// The cursor after another read.
    pub open spec fn filled(
        self,
        revoked: bool,
        count: Result<nat, i32>,
        buffer: Seq<u8>,
    ) -> CursorView {
        if revoked {
            CursorView { buffer, ..self }
        } else {
            match count {
                Err(_) => CursorView { buffer, ended: true, ..self },
                Ok(count) => CursorView {
                    buffer,
                    offset: 0,
                    remaining: count,
                    ended: self.ended || count == 0,
                },
            }
        }
    }
}

impl CursorState {
    /// Nothing was read.
    pub fn new() -> (cursor: Self)
        ensures
            cursor@ == (CursorView {
                buffer: Seq::empty(),
                offset: 0,
                remaining: 0,
                ended: false,
            }),
    {
        let cursor = CursorState { buffer: Vec::new(), offset: 0, remaining: 0, ended: false };
        assert(cursor@.buffer =~= Seq::<u8>::empty());
        cursor
    }

    /// What comes next, in a byte order.
    pub fn advance_ordered(&mut self, revoked: bool, little: bool) -> (advance: Advance)
        ensures
            advance@ == old(self)@.advance(revoked, little),
            final(self)@ == old(self)@.advanced(revoked, little),
    {
        if revoked {
            return Advance::Failed(BoundaryError::Revoked);
        }
        if self.remaining == 0 {
            return if self.ended {
                Advance::End
            } else {
                Advance::Fill
            };
        }
        let size: usize = self.buffer.len();
        let parsed = parse_ordered(self.buffer.as_slice(), self.offset, little);
        proof {
            names_lie_within_their_records(self.buffer@, self.offset as nat, little);
        }
        let (length, found): (usize, Result<Vec<u8>, BoundaryError>) = match parsed {
            Err(error) => {
                self.remaining = 0;
                self.ended = true;
                return Advance::Failed(error);
            },
            Ok((length, Ok(name))) => (length, Ok(bytes_of(name))),
            Ok((length, Err(error))) => (length, Err(error)),
        };
        assert(self.offset + length <= size);
        self.offset = self.offset + length;
        self.remaining = self.remaining - 1;
        match found {
            Err(error) => Advance::Failed(error),
            Ok(name) => {
                if is_dot_name(name.as_slice()) {
                    Advance::Skipped
                } else {
                    match component(name.as_slice()) {
                        Ok(_) => Advance::Name(name),
                        Err(error) => Advance::Failed(error),
                    }
                }
            },
        }
    }

    /// What comes next.
    pub fn advance(&mut self, revoked: bool) -> (advance: Advance)
        ensures
            exists|little: bool|
                {
                    &&& is_order(little)
                    &&& advance@ == #[trigger] old(self)@.advance(revoked, little)
                    &&& final(self)@ == old(self)@.advanced(revoked, little)
                },
    {
        let little = is_little_endian();
        self.advance_ordered(revoked, little)
    }

    /// Takes another read: how many records it brought, or the system's error. The answer is
    /// whether there is anything to go on with.
    pub fn fill(&mut self, revoked: bool, count: Result<usize, i32>, buffer: Vec<u8>) -> (
    result: Result<bool, BoundaryError>)
        ensures
            ({
                let shown: Result<nat, i32> = match count {
                    Ok(count) => Ok(count as nat),
                    Err(error) => Err(error),
                };
                &&& result == old(self)@.fill(revoked, shown)
                &&& final(self)@ == old(self)@.filled(revoked, shown, buffer@)
            }),
    {
        self.buffer = buffer;
        if revoked {
            return Err(BoundaryError::Revoked);
        }
        match count {
            Err(error) => {
                self.ended = true;
                Err(BoundaryError::Native(error))
            },
            Ok(count) => {
                self.remaining = count;
                self.offset = 0;
                if count == 0 {
                    self.ended = true;
                }
                Ok(count > 0)
            },
        }
    }
}

fn bytes_of(name: &[u8]) -> (bytes: Vec<u8>)
    ensures
        bytes@ == name@,
{
    let mut bytes: Vec<u8> = Vec::new();
    bytes.extend_from_slice(name);
    assert(bytes@ =~= name@);
    bytes
}

fn is_dot_name(name: &[u8]) -> (dot: bool)
    ensures
        dot == is_dot(name@),
{
    if name.len() == 1 && name[0] == 46 {
        assert(name@ =~= seq![46u8]);
        return true;
    }
    if name.len() == 2 && name[0] == 46 && name[1] == 46 {
        assert(name@ =~= seq![46u8, 46u8]);
        return true;
    }
    false
}

/// A name that is not allowed is rejected alone: the records behind it are still read.
pub proof fn a_bad_name_leaves_its_siblings(cursor: CursorView, little: bool)
    requires
        cursor.remaining > 0,
        cursor.advance(false, little) == AdvanceView::Failed(BoundaryError::InvalidComponent),
    ensures
        cursor.advanced(false, little).remaining == cursor.remaining - 1,
        cursor.advanced(false, little).offset > cursor.offset,
        cursor.advanced(false, little).ended == cursor.ended,
        cursor.advanced(false, little).buffer == cursor.buffer,
{
}

/// After a damaged record or a failed read there is nothing more.
pub proof fn damage_ends_the_reading(
    cursor: CursorView,
    little: bool,
    error: i32,
    buffer: Seq<u8>,
)
    requires
        cursor.remaining > 0 ==> record_at(cursor.buffer, cursor.offset, little) is None,
    ensures
        cursor.remaining > 0 ==> cursor.advanced(false, little).advance(false, little)
            == AdvanceView::End,
        cursor.remaining == 0 ==> cursor.filled(false, Err(error), buffer).advance(false, little)
            == AdvanceView::End,
{
}

/// Nothing is told once access was revoked, and nothing of it is lost.
pub proof fn revocation_tells_nothing(cursor: CursorView, little: bool)
    ensures
        cursor.advance(true, little) == AdvanceView::Failed(BoundaryError::Revoked),
        cursor.advanced(true, little) == cursor,
{
}

} // verus!
