// Offsets and sizes that do not fit are refused, never followed.

use scroll::ctx::StrCtx;
use scroll::{Error, Gread, Gwrite, Leb128, Pread, Pwrite, TryOffsetWith, Uleb128, BE, LE};

#[test]
fn read_at_the_end_is_a_bad_offset() {
    let bytes = [1u8, 2, 3, 4];
    assert!(matches!(bytes.pread_with::<u8>(4, LE), Err(Error::BadOffset(4))));
    assert!(matches!(bytes.pread_with::<u32>(4, LE), Err(Error::BadOffset(4))));
    assert!(matches!(bytes.pread_with::<u64>(1000, BE), Err(Error::BadOffset(1000))));
    assert!(matches!(
        bytes.pread_with::<u8>(usize::MAX, BE),
        Err(Error::BadOffset(usize::MAX))
    ));
    assert!(matches!(
        bytes.pread_with::<&str>(4, StrCtx::Length(0)),
        Err(Error::BadOffset(4))
    ));
    assert!(matches!(
        bytes.pread_with::<Uleb128>(7, Leb128),
        Err(Error::BadOffset(7))
    ));
    let empty: [u8; 0] = [];
    assert!(matches!(empty.pread_with::<u8>(0, LE), Err(Error::BadOffset(0))));
}

#[test]
fn read_over_the_end_is_too_big() {
    let bytes = [1u8, 2, 3, 4];
    assert!(matches!(
        bytes.pread_with::<u32>(1, LE),
        Err(Error::TooBig { size: 4, len: 3 })
    ));
    assert!(matches!(
        bytes.pread_with::<u16>(3, BE),
        Err(Error::TooBig { size: 2, len: 1 })
    ));
    assert!(matches!(
        bytes.pread_with::<i64>(0, BE),
        Err(Error::TooBig { size: 8, len: 4 })
    ));
    assert!(matches!(
        bytes.pread_with::<&str>(2, StrCtx::Length(3)),
        Err(Error::TooBig { size: 3, len: 2 })
    ));
    assert!(matches!(
        bytes.pread_with::<&[u8]>(0, StrCtx::Length(usize::MAX)),
        Err(Error::TooBig { size: usize::MAX, len: 4 })
    ));
    assert_eq!(bytes.pread_with::<u32>(0, BE).unwrap(), 0x01020304);
    assert_eq!(bytes.pread_with::<u16>(2, BE).unwrap(), 0x0304);
}

#[test]
fn write_at_the_end_is_a_bad_offset() {
    let mut bytes = [1u8, 2, 3, 4];
    assert!(matches!(bytes.pwrite_with::<u8>(9, 4, LE), Err(Error::BadOffset(4))));
    assert!(matches!(bytes.pwrite_with::<u32>(9, 100, LE), Err(Error::BadOffset(100))));
    assert!(matches!(
        bytes.pwrite_with::<u8>(9, usize::MAX, LE),
        Err(Error::BadOffset(usize::MAX))
    ));
    assert_eq!(bytes, [1, 2, 3, 4]);
}

#[test]
fn write_over_the_end_is_too_big() {
    let mut bytes = [1u8, 2, 3, 4];
    assert!(matches!(
        bytes.pwrite_with::<u32>(0xffffffff, 1, LE),
        Err(Error::TooBig { size: 4, len: 3 })
    ));
    assert!(matches!(
        bytes.pwrite_with::<u16>(0xffff, 3, BE),
        Err(Error::TooBig { size: 2, len: 1 })
    ));
    assert!(matches!(
        bytes.pwrite_with::<&str>("hello", 1, LE),
        Err(Error::TooBig { size: 5, len: 3 })
    ));
    assert_eq!(bytes, [1, 2, 3, 4]);
}

#[test]
fn cursor_reads_and_writes_are_checked_too() {
    let mut bytes = [1u8, 2, 3, 4];
    let mut offset = 4;
    assert!(matches!(
        Gread::gread_with::<u8>(&bytes[..], &mut offset, LE),
        Err(Error::BadOffset(4))
    ));
    assert_eq!(offset, 4);
    offset = 2;
    assert!(matches!(
        Gread::gread_with::<u32>(&bytes[..], &mut offset, LE),
        Err(Error::TooBig { size: 4, len: 2 })
    ));
    assert_eq!(offset, 2);
    assert!(matches!(
        Gwrite::gwrite_with::<u32>(&mut bytes[..], 7, &mut offset, LE),
        Err(Error::TooBig { size: 4, len: 2 })
    ));
    assert_eq!(offset, 2);
    offset = 17;
    assert!(matches!(
        Gwrite::gwrite_with::<u8>(&mut bytes[..], 7, &mut offset, LE),
        Err(Error::BadOffset(17))
    ));
    assert_eq!(offset, 17);
    assert_eq!(bytes, [1, 2, 3, 4]);
}

#[test]
fn try_offset_names_the_range() {
    let bytes = [0u8; 8];
    assert_eq!(
        <[u8] as TryOffsetWith<scroll::Endian>>::try_offset::<u32>(&bytes, 0, &LE).unwrap(),
        4
    );
    assert_eq!(
        <[u8] as TryOffsetWith<scroll::Endian>>::try_offset::<u32>(&bytes, 4, &LE).unwrap(),
        4
    );
    assert_eq!(
        <[u8] as TryOffsetWith<scroll::Endian>>::try_offset::<u64>(&bytes, 0, &BE).unwrap(),
        8
    );
    match <[u8] as TryOffsetWith<scroll::Endian>>::try_offset::<u32>(&bytes, 5, &LE) {
        Err(Error::BadRange { range, size }) => {
            assert_eq!(range, 5..9);
            assert_eq!(size, 8);
        }
        _ => panic!("four bytes do not fit at offset 5 of 8"),
    }
    match <[u8] as TryOffsetWith<scroll::Endian>>::try_offset::<u16>(&bytes, 100, &LE) {
        Err(Error::BadRange { range, size }) => {
            assert_eq!(range, 100..102);
            assert_eq!(size, 8);
        }
        _ => panic!("offset 100 lies behind 8 bytes"),
    }
    match <[u8] as TryOffsetWith<scroll::Endian>>::try_offset::<u64>(&bytes, usize::MAX - 1, &LE) {
        Err(Error::BadRange { range, size }) => {
            assert_eq!(range, (usize::MAX - 1)..usize::MAX);
            assert_eq!(size, 8);
        }
        _ => panic!("an offset at the end of the address space fits nothing"),
    }
}
