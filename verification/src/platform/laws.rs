//! What reading a native directory tells of the records that the system wrote.
use vstd::prelude::*;

use crate::platform::macos;
use crate::platform::macos::{AdvanceView, BoundaryError, CursorView, Identity, MountView};

verus! {

/// The byte of a number that counts 256 to the power of `i`.
pub open spec fn digit(value: nat, i: nat) -> u8
    decreases i,
{
    if i == 0 {
        (value % 256) as u8
    } else {
        digit(value / 256, (i - 1) as nat)
    }
}

/// Whether a 32-bit number was written at a place of a buffer: its four bytes stand there, the
/// least significant first or last.
pub open spec fn written(bytes: Seq<u8>, at: int, value: u32, little: bool) -> bool {
    &&& 0 <= at
    &&& at + 4 <= bytes.len()
    &&& forall|i: nat|
        i < 4 ==> bytes[at + (if little {
            i as int
        } else {
            3 - i
        })] == #[trigger] digit(value as nat, i)
}

/// The fixed part of a record: its length, the attributes that it brings, the error of its entry,
/// and where its name lies: how far behind the reference, and how long with the byte that ends it.
pub struct Fixed {
    pub length: u32,
    pub returned: u32,
    pub error: u32,
    pub shift: u32,
    pub size: u32,
}

/// Whether a record begins at a place of a buffer with this fixed part.
pub open spec fn begins_with(bytes: Seq<u8>, offset: int, fixed: Fixed, little: bool) -> bool {
    &&& written(bytes, offset, fixed.length, little)
    &&& written(bytes, offset + 4, fixed.returned, little)
    &&& written(bytes, offset + 24, fixed.error, little)
    &&& written(bytes, offset + 28, fixed.shift, little)
    &&& written(bytes, offset + 32, fixed.size, little)
}

/// Whether a record is whole: it has room for its fixed part, ends at a multiple of eight, and lies
/// within the buffer.
pub open spec fn is_whole(bytes: Seq<u8>, offset: int, fixed: Fixed) -> bool {
    &&& 36 <= fixed.length
    &&& fixed.length % 8 == 0
    &&& offset + fixed.length <= bytes.len()
}

/// Where the name of a record begins, counted from the record. The reference stands at 28, and the
/// distance from it may be negative.
pub open spec fn name_start(fixed: Fixed) -> int {
    if fixed.shift < 0x8000_0000 {
        28 + fixed.shift
    } else {
        28 + fixed.shift - 0x1_0000_0000
    }
}

/// Whether a record holds this name: it lies behind the fixed part and within the record, and ends
/// with a zero byte.
pub open spec fn holds_name(bytes: Seq<u8>, offset: int, fixed: Fixed, name: Seq<u8>) -> bool {
    let start = name_start(fixed);
    &&& fixed.returned & 1 != 0
    &&& fixed.size == name.len() + 1
    &&& 36 <= start
    &&& start + fixed.size <= fixed.length
    &&& forall|i: int| 0 <= i < name.len() ==> bytes[offset + start + i] == #[trigger] name[i]
    &&& bytes[offset + start + name.len()] == 0
}

/// A name that stands for an entry below a directory: it has between 1 and 765 bytes, none of them
/// a zero or a slash, and is neither one dot nor two.
pub open spec fn is_ordinary(name: Seq<u8>) -> bool {
    &&& 1 <= name.len() <= 765
    &&& forall|i: int| 0 <= i < name.len() ==> #[trigger] name[i] != 0 && name[i] != 47
    &&& !(name.len() == 1 && name[0] == 46)
    &&& !(name.len() == 2 && name[0] == 46 && name[1] == 46)
}

/// One dot or two: the directory itself or its parent.
pub open spec fn is_dots(name: Seq<u8>) -> bool {
    ||| name.len() == 1 && name[0] == 46
    ||| name.len() == 2 && name[0] == 46 && name[1] == 46
}

proof fn lemma_digits(value: u32)
    ensures
        digit(value as nat, 0) == value % 256,
        digit(value as nat, 1) == (value / 256) % 256,
        digit(value as nat, 2) == (value / 65536) % 256,
        digit(value as nat, 3) == value / 16777216,
        value == digit(value as nat, 0) + digit(value as nat, 1) * 256 + digit(value as nat, 2)
            * 65536 + digit(value as nat, 3) * 16777216,
{
    reveal_with_fuel(digit, 4);
    let v = value as nat;
    assert(v / 256 / 256 == v / 65536) by (nonlinear_arith);
    assert(v / 256 / 256 / 256 == v / 16777216) by (nonlinear_arith);
    assert(v / 16777216 < 256);
}

proof fn lemma_written(bytes: Seq<u8>, offset: int, at: int, value: u32, little: bool)
    requires
        0 <= offset,
        0 <= at,
        written(bytes, offset + at, value, little),
    ensures
        macos::word(bytes.skip(offset), at, little) == value,
{
    lemma_digits(value);
    let record = bytes.skip(offset);
    assert(digit(value as nat, 0) == record[at + (if little {
        0int
    } else {
        3
    })]);
    assert(digit(value as nat, 1) == record[at + (if little {
        1int
    } else {
        2
    })]);
    assert(digit(value as nat, 2) == record[at + (if little {
        2int
    } else {
        1
    })]);
    assert(digit(value as nat, 3) == record[at + (if little {
        3int
    } else {
        0
    })]);
}

/// What is read of a record is what was written in it. A whole record with a name brings the name,
/// whatever it is made of, as long as it stands for an entry below the directory; one dot and two
/// are passed over, and nothing else is; any other name is refused alone. A record with an error
/// brings that error. Either way the next record is read where this one ends. A record that is not
/// whole, or that brings neither, is damaged: reading ends with it.
pub proof fn records_are_read_as_written(
    cursor: CursorView,
    fixed: Fixed,
    name: Seq<u8>,
    little: bool,
)
    requires
        cursor.remaining > 0,
        begins_with(cursor.buffer, cursor.offset as int, fixed, little),
    ensures
        ({
            let offset = cursor.offset as int;
            let came = cursor.advance(false, little);
            let after = cursor.advanced(false, little);
            let whole = is_whole(cursor.buffer, offset, fixed);
            let failed = fixed.returned & 0x2000_0000 != 0 && fixed.error != 0;
            &&& whole ==> {
                &&& failed ==> came == AdvanceView::Failed(
                    BoundaryError::Native(
                        if fixed.error < 0x8000_0000 {
                            fixed.error as i32
                        } else {
                            (fixed.error - 0x1_0000_0000) as i32
                        },
                    ),
                )
                &&& !failed && holds_name(cursor.buffer, offset, fixed, name) ==> {
                    &&& is_ordinary(name) ==> came == AdvanceView::Name(name)
                    &&& is_dots(name) ==> came == AdvanceView::Skipped
                    &&& !is_ordinary(name) && !is_dots(name) ==> came == AdvanceView::Failed(
                        BoundaryError::InvalidComponent,
                    )
                }
                &&& failed || holds_name(cursor.buffer, offset, fixed, name) ==> after == (
                CursorView {
                    offset: cursor.offset + fixed.length as nat,
                    remaining: (cursor.remaining - 1) as nat,
                    ..cursor
                })
            }
            &&& !whole || !failed && !(exists|other: Seq<u8>|
                holds_name(cursor.buffer, offset, fixed, other)) ==> {
                &&& came == AdvanceView::Failed(BoundaryError::Native(5))
                &&& after == (CursorView { remaining: 0, ended: true, ..cursor })
            }
        }),
{
    let bytes = cursor.buffer;
    let offset = cursor.offset as int;
    let record = bytes.skip(offset);
    lemma_written(bytes, offset, 0, fixed.length, little);
    lemma_written(bytes, offset, 4, fixed.returned, little);
    lemma_written(bytes, offset, 24, fixed.error, little);
    lemma_written(bytes, offset, 28, fixed.shift, little);
    lemma_written(bytes, offset, 32, fixed.size, little);
    let start = name_start(fixed);
    assert(macos::signed(fixed.shift) == start - 28);
    let read = macos::record_at(bytes, cursor.offset, little);
    if is_whole(bytes, offset, fixed) && !(fixed.returned & 0x2000_0000 != 0 && fixed.error != 0) {
        if holds_name(bytes, offset, fixed, name) {
            let found = record.subrange(start, start + fixed.size - 1);
            assert(found =~= name) by {
                assert forall|i: int| 0 <= i < name.len() implies found[i] == name[i] by {
                    assert(bytes[offset + start + i] == name[i]);
                }
            }
            assert(record[start + fixed.size - 1] == bytes[offset + start + name.len()]);
            lemma_names(name);
        }
        if read is Some {
            let found = record.subrange(start, start + fixed.size - 1);
            assert(holds_name(bytes, offset, fixed, found));
        }
    }
}

/// Which names a directory can be opened under, and which are passed over.
pub proof fn lemma_names(name: Seq<u8>)
    ensures
        macos::is_dot(name) <==> is_dots(name),
        macos::opens_under(name) <==> is_ordinary(name),
{
    assert(name.len() == 1 && name[0] == 46 ==> name =~= seq![46u8]);
    assert(name.len() == 2 && name[0] == 46 && name[1] == 46 ==> name =~= seq![46u8, 46u8]);
    if exists|i: int| 0 <= i < name.len() && (#[trigger] name[i] == 0 || name[i] == 47) {
        let i = choose|i: int| 0 <= i < name.len() && (#[trigger] name[i] == 0 || name[i] == 47);
        assert(name.contains(name[i]));
    }
    if name.contains(0u8) {
        let i = choose|i: int| 0 <= i < name.len() && name[i] == 0u8;
        assert(name[i] == 0);
    }
    if name.contains(47u8) {
        let i = choose|i: int| 0 <= i < name.len() && name[i] == 47u8;
        assert(name[i] == 47);
    }
}

/// A buffer without room for a whole record is damaged where one is due.
pub proof fn a_short_buffer_is_damaged(cursor: CursorView, little: bool)
    requires
        cursor.remaining > 0,
        cursor.offset + 36 > cursor.buffer.len(),
    ensures
        cursor.advance(false, little) == AdvanceView::Failed(BoundaryError::Native(5)),
        cursor.advanced(false, little) == (CursorView { remaining: 0, ended: true, ..cursor }),
{
}

/// Whether records with these names stand in a buffer one after the other.
pub open spec fn packed(bytes: Seq<u8>, offset: int, names: Seq<Seq<u8>>, little: bool) -> bool
    decreases names.len(),
{
    names.len() == 0 || exists|fixed: Fixed|
        {
            &&& #[trigger] begins_with(bytes, offset, fixed, little)
            &&& is_whole(bytes, offset, fixed)
            &&& fixed.returned & 0x2000_0000 == 0 || fixed.error == 0
            &&& holds_name(bytes, offset, fixed, names[0])
            &&& packed(bytes, offset + fixed.length, names.drop_first(), little)
        }
}

/// The names that advancing `n` times brings.
pub open spec fn brought(cursor: CursorView, little: bool, n: nat) -> Seq<Seq<u8>>
    decreases n,
{
    if n == 0 {
        Seq::empty()
    } else {
        let rest = brought(cursor.advanced(false, little), little, (n - 1) as nat);
        match cursor.advance(false, little) {
            AdvanceView::Name(name) => seq![name] + rest,
            _ => rest,
        }
    }
}

/// The cursor after advancing `n` times.
pub open spec fn passed(cursor: CursorView, little: bool, n: nat) -> CursorView
    decreases n,
{
    if n == 0 {
        cursor
    } else {
        passed(cursor.advanced(false, little), little, (n - 1) as nat)
    }
}

/// The names without one dot and two dots.
pub open spec fn without_dots(names: Seq<Seq<u8>>) -> Seq<Seq<u8>>
    decreases names.len(),
{
    if names.len() == 0 {
        names
    } else if is_dots(names[0]) {
        without_dots(names.drop_first())
    } else {
        seq![names[0]] + without_dots(names.drop_first())
    }
}

proof fn lemma_brought(cursor: CursorView, names: Seq<Seq<u8>>, little: bool)
    requires
        cursor.remaining == names.len(),
        packed(cursor.buffer, cursor.offset as int, names, little),
        forall|i: int|
            0 <= i < names.len() ==> is_ordinary(#[trigger] names[i]) || is_dots(names[i]),
    ensures
        brought(cursor, little, names.len()) == without_dots(names),
        passed(cursor, little, names.len()).remaining == 0,
        passed(cursor, little, names.len()).ended == cursor.ended,
    decreases names.len(),
{
    if names.len() > 0 {
        let offset = cursor.offset as int;
        let fixed = choose|fixed: Fixed|
            {
                &&& #[trigger] begins_with(cursor.buffer, offset, fixed, little)
                &&& is_whole(cursor.buffer, offset, fixed)
                &&& fixed.returned & 0x2000_0000 == 0 || fixed.error == 0
                &&& holds_name(cursor.buffer, offset, fixed, names[0])
                &&& packed(cursor.buffer, offset + fixed.length, names.drop_first(), little)
            };
        records_are_read_as_written(cursor, fixed, names[0], little);
        assert(is_ordinary(names[0]) || is_dots(names[0]));
        let rest = names.drop_first();
        assert forall|i: int| 0 <= i < rest.len() implies is_ordinary(#[trigger] rest[i])
            || is_dots(rest[i]) by {
            assert(rest[i] == names[i + 1]);
        }
        lemma_brought(cursor.advanced(false, little), rest, little);
    }
}

/// Reading a directory brings every name that the system wrote, once and in order, but for one dot
/// and two; then the system is asked again. Only a read that brings nothing ends the directory.
pub proof fn every_name_is_read_once(
    cursor: CursorView,
    buffer: Seq<u8>,
    names: Seq<Seq<u8>>,
    little: bool,
)
    requires
        !cursor.ended,
        packed(buffer, 0, names, little),
        forall|i: int|
            0 <= i < names.len() ==> is_ordinary(#[trigger] names[i]) || is_dots(names[i]),
    ensures
        ({
            let full = cursor.filled(false, Ok(names.len()), buffer);
            let read = passed(full, little, names.len());
            &&& cursor.fill(false, Ok(names.len())) == Ok::<bool, BoundaryError>(names.len() > 0)
            &&& brought(full, little, names.len()) == without_dots(names)
            &&& names.len() > 0 ==> read.advance(false, little) == AdvanceView::Fill
            &&& names.len() == 0 ==> read.advance(false, little) == AdvanceView::End
        }),
{
    lemma_brought(cursor.filled(false, Ok(names.len()), buffer), names, little);
}

/// An opened object is taken for the expected one exactly where device, inode, generation and birth
/// are the same: one that differs in any of them was changed.
pub proof fn another_object_is_noticed(expected: Identity, found: Identity)
    ensures
        macos::identity_judged(Some(expected), found) is Ok <==> expected.device == found.device
            && expected.inode == found.inode && expected.generation == found.generation
            && expected.birth_sec == found.birth_sec && expected.birth_nsec == found.birth_nsec,
        macos::identity_judged(Some(expected), found) is Err ==> macos::identity_judged(
            Some(expected),
            found,
        )->Err_0 == BoundaryError::ChangedObject,
        macos::identity_judged(None, found) is Ok,
{
}

/// A directory on another mount than its parent is a boundary: the file system and the place at
/// which it is mounted both have to be the same.
pub proof fn another_mount_is_noticed(own: MountView, found: MountView)
    ensures
        macos::mount_judged(own, found) is Ok <==> own.fsid.0 == found.fsid.0 && own.fsid.1
            == found.fsid.1 && own.point == found.point,
        macos::mount_judged(own, found) is Err ==> macos::mount_judged(own, found)->Err_0
            == BoundaryError::MountBoundary,
{
}

/// Once access was revoked nothing is told but that: neither a success nor an error of a call. Else
/// an error of the system is told as it is.
pub proof fn revoked_access_tells_nothing(error: i32)
    ensures
        macos::checked(true) == Err::<(), BoundaryError>(BoundaryError::Revoked),
        macos::checked(false) is Ok,
        macos::call_judged(true, Some(error)) == Err::<(), BoundaryError>(BoundaryError::Revoked),
        macos::call_judged(true, None) == Err::<(), BoundaryError>(BoundaryError::Revoked),
        macos::call_judged(false, Some(error)) == Err::<(), BoundaryError>(
            BoundaryError::Native(error),
        ),
        macos::call_judged(false, None) is Ok,
{
}

/// A child is opened only through the parent that it was observed through, only where its mode says
/// that it is a directory, and only under an ordinary name.
pub proof fn only_directories_are_opened(same_parent: bool, mode: u32, name: Seq<u8>)
    ensures
        macos::openable(same_parent, mode) is Ok <==> same_parent && mode & 0o170000 == 0o040000,
        macos::openable(same_parent, mode) is Err ==> macos::openable(same_parent, mode)->Err_0
            == BoundaryError::ChangedObject,
        macos::named(name) is Ok <==> is_ordinary(name),
        macos::named(name) is Err ==> macos::named(name)->Err_0 == BoundaryError::InvalidComponent,
{
    lemma_names(name);
}

} // verus!
