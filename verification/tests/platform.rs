use directory_ui_viewer::platform::macos::{
    charge_buffer, check, component, is_little_endian, judge_call, judge_identity, judge_mount,
    may_open, parse_name, parse_ordered, reserve, Advance, BoundaryError, CursorState, Identity,
    Mount, ATTR_CMN_ERROR, ATTR_CMN_NAME, BUFFER_BYTES, EIO, HANDLE_BYTES,
};
use directory_ui_viewer::runtime::memory::ByteBudget;
use directory_ui_viewer::scheduler::HandleBudget;

fn put(b: &mut [u8], i: usize, v: u32) {
    b[i..i + 4].copy_from_slice(&v.to_ne_bytes())
}

/// A record of 48 bytes that holds a name.
fn record(name: &[u8]) -> Vec<u8> {
    let mut b = vec![0u8; 48];
    put(&mut b, 0, 48);
    put(&mut b, 4, ATTR_CMN_NAME | ATTR_CMN_ERROR);
    put(&mut b, 28, 8);
    put(&mut b, 32, name.len() as u32 + 1);
    b[36..36 + name.len()].copy_from_slice(name);
    b
}

#[test]
fn parser_checks_record_name_offsets_and_error_rows() {
    let mut b = [0u8; 48];
    put(&mut b, 0, 48);
    put(&mut b, 4, ATTR_CMN_NAME | ATTR_CMN_ERROR);
    put(&mut b, 28, 8);
    put(&mut b, 32, 5);
    b[36..41].copy_from_slice(b"test\0");
    assert_eq!(parse_name(&b, 0).unwrap().1.unwrap(), b"test");
    for (i, v) in [
        (0, 0),
        (0, 49),
        (0, 32),
        (28, u32::MAX),
        (28, 100),
        (32, 0),
        (32, 100),
        (4, 0),
    ] {
        let mut invalid = b;
        put(&mut invalid, i, v);
        assert!(parse_name(&invalid, 0).is_err());
    }
    let mut invalid = b;
    invalid[40] = 1;
    assert!(parse_name(&invalid, 0).is_err());
    for offset in [1, 47, 48, usize::MAX] {
        assert!(parse_name(&b, offset).is_err())
    }
    put(&mut b, 24, libc::EACCES as u32);
    assert!(
        matches!(parse_name(&b, 0).unwrap().1, Err(BoundaryError::Native(e)) if e == libc::EACCES)
    );
}

#[test]
fn both_byte_orders_are_read() {
    for little in [true, false] {
        let word = |v: u32| if little { v.to_le_bytes() } else { v.to_be_bytes() };
        let mut b = vec![0u8; 40];
        b[0..4].copy_from_slice(&word(40));
        b[4..8].copy_from_slice(&word(ATTR_CMN_NAME));
        b[28..32].copy_from_slice(&word(8));
        b[32..36].copy_from_slice(&word(3));
        b[36..38].copy_from_slice(b"ab");
        let (length, name) = parse_ordered(&b, 0, little).unwrap();
        assert_eq!((length, name.unwrap()), (40, &b"ab"[..]));
        assert!(parse_ordered(&b, 0, !little).is_err());
        b[24..28].copy_from_slice(&word(-2_i32 as u32));
        b[4..8].copy_from_slice(&word(ATTR_CMN_ERROR));
        let (_, name) = parse_ordered(&b, 0, little).unwrap();
        assert_eq!(name, Err(BoundaryError::Native(-2)));
    }
    assert_eq!(is_little_endian(), 1_u32.to_ne_bytes()[0] == 1);
}

#[test]
fn the_constants_are_those_of_the_system() {
    assert_eq!(EIO, libc::EIO);
}

#[test]
fn a_cursor_skips_dots_rejects_names_alone_and_ends() {
    let mut cursor = CursorState::new();
    assert!(matches!(cursor.advance(false), Advance::Fill));
    let mut buffer = Vec::new();
    for name in [&b"."[..], b"..", b"good", b"a/b", b"last"] {
        buffer.extend(record(name));
    }
    assert_eq!(cursor.fill(false, Ok(5), buffer), Ok(true));
    assert!(matches!(cursor.advance(true), Advance::Failed(BoundaryError::Revoked)));
    assert!(matches!(cursor.advance(false), Advance::Skipped));
    assert!(matches!(cursor.advance(false), Advance::Skipped));
    assert!(matches!(cursor.advance(false), Advance::Name(name) if name == b"good"));
    assert!(matches!(cursor.advance(false), Advance::Failed(BoundaryError::InvalidComponent)));
    assert!(matches!(cursor.advance(false), Advance::Name(name) if name == b"last"));
    assert!(matches!(cursor.advance(false), Advance::Fill));
    assert_eq!(cursor.fill(true, Ok(5), vec![]), Err(BoundaryError::Revoked));
    assert_eq!(cursor.fill(false, Ok(0), vec![]), Ok(false));
    assert!(matches!(cursor.advance(false), Advance::End));
}

#[test]
fn a_damaged_record_or_a_failed_read_ends_the_cursor() {
    let mut cursor = CursorState::new();
    assert_eq!(cursor.fill(false, Ok(2), vec![0; 48]), Ok(true));
    assert!(matches!(cursor.advance(false), Advance::Failed(BoundaryError::Native(e)) if e == EIO));
    assert!(matches!(cursor.advance(false), Advance::End));
    let mut cursor = CursorState::new();
    assert_eq!(cursor.fill(false, Err(13), vec![]), Err(BoundaryError::Native(13)));
    assert!(matches!(cursor.advance(false), Advance::End));
}

#[test]
fn an_entry_with_its_own_error_leaves_its_siblings() {
    let mut cursor = CursorState::new();
    let mut denied = record(b"denied");
    put(&mut denied, 24, 13);
    denied.extend(record(b"next"));
    cursor.fill(false, Ok(2), denied).unwrap();
    assert!(matches!(cursor.advance(false), Advance::Failed(BoundaryError::Native(13))));
    assert!(matches!(cursor.advance(false), Advance::Name(name) if name == b"next"));
}

#[test]
fn handles_are_charged_and_given_back() {
    let mut handles = HandleBudget::new(2);
    let mut memory = ByteBudget::new(HANDLE_BYTES + HANDLE_BYTES / 2);
    assert_eq!(reserve(true, &mut handles, &mut memory).err(), Some(BoundaryError::Revoked));
    let (permit, mut reservation) = reserve(false, &mut handles, &mut memory).ok().unwrap();
    assert_eq!((handles.open(), memory.used()), (1, HANDLE_BYTES));
    assert_eq!(
        reserve(false, &mut handles, &mut memory).err(),
        Some(BoundaryError::ResourceLimit)
    );
    assert_eq!((handles.open(), memory.used()), (1, HANDLE_BYTES));
    assert_eq!(
        charge_buffer(false, &mut reservation, &mut memory),
        Err(BoundaryError::ResourceLimit)
    );
    assert_eq!(
        charge_buffer(true, &mut reservation, &mut memory),
        Err(BoundaryError::Revoked)
    );
    assert_eq!(memory.used(), HANDLE_BYTES);
    handles.release(permit);
    assert_eq!(handles.open(), 0);
    let mut memory = ByteBudget::new(HANDLE_BYTES + BUFFER_BYTES);
    let (_permit, mut reservation) = reserve(false, &mut handles, &mut memory).ok().unwrap();
    assert_eq!(charge_buffer(false, &mut reservation, &mut memory), Ok(()));
    assert_eq!(memory.used(), 18432);
}

#[test]
fn opened_objects_are_judged() {
    assert_eq!(check(false), Ok(()));
    assert_eq!(check(true), Err(BoundaryError::Revoked));
    assert_eq!(judge_call(true, Some(2)), Err(BoundaryError::Revoked));
    assert_eq!(judge_call(false, Some(2)), Err(BoundaryError::Native(2)));
    assert_eq!(judge_call(false, None), Ok(()));
    let seen =
        Identity { device: 1, inode: 2, generation: 3, birth_sec: 4, birth_nsec: 5 };
    assert_eq!(judge_identity(None, seen), Ok(()));
    assert_eq!(judge_identity(Some(seen), seen), Ok(()));
    let other = Identity { generation: 4, ..seen };
    assert_eq!(judge_identity(Some(other), seen), Err(BoundaryError::ChangedObject));
    let mount = |fsid, point: &[u8]| Mount { fsid, point: point.to_vec() };
    assert_eq!(judge_mount(&mount((1, 2), b"/"), &mount((1, 2), b"/")), Ok(()));
    for found in [mount((1, 3), b"/"), mount((2, 2), b"/"), mount((1, 2), b"/x")] {
        assert_eq!(
            judge_mount(&mount((1, 2), b"/"), &found),
            Err(BoundaryError::MountBoundary)
        );
    }
    assert_eq!(may_open(true, libc::S_IFDIR as u32 | 0o755), Ok(()));
    assert_eq!(may_open(false, libc::S_IFDIR as u32), Err(BoundaryError::ChangedObject));
    assert_eq!(may_open(true, libc::S_IFREG as u32), Err(BoundaryError::ChangedObject));
}

#[test]
fn components_are_single_names() {
    for name in [&b""[..], b".", b"..", b"a/b", b"a\0b"] {
        assert_eq!(component(name), Err(BoundaryError::InvalidComponent));
    }
    assert_eq!(component(b"a"), Ok(()));
    assert_eq!(component(&[b'x'; 765]), Ok(()));
    assert_eq!(component(&[b'x'; 766]), Err(BoundaryError::InvalidComponent));
}
