// Integers of fixed width under a byte order.

use scroll::ctx::{FromCtx, IntoCtx, SizeWith, TryFromCtx, TryIntoCtx};
use scroll::{Cread, Cwrite, Endian, Error, Pread, Pwrite, BE, LE};

#[test]
fn u16_bytes_are_canonical() {
    let mut le = [0u8; 2];
    let mut be = [0u8; 2];
    assert_eq!(le.pwrite_with::<u16>(0xbeef, 0, LE).unwrap(), 2);
    assert_eq!(be.pwrite_with::<u16>(0xbeef, 0, BE).unwrap(), 2);
    assert_eq!(le, [0xef, 0xbe]);
    assert_eq!(be, [0xbe, 0xef]);
    assert_eq!(le, 0xbeefu16.to_le_bytes());
    assert_eq!(be, 0xbeefu16.to_be_bytes());
}

#[test]
fn u32_bytes_are_canonical() {
    let mut le = [0u8; 4];
    let mut be = [0u8; 4];
    le.pwrite_with::<u32>(0xdeadbeef, 0, LE).unwrap();
    be.pwrite_with::<u32>(0xdeadbeef, 0, BE).unwrap();
    assert_eq!(le, [0xef, 0xbe, 0xad, 0xde]);
    assert_eq!(be, [0xde, 0xad, 0xbe, 0xef]);
}

#[test]
fn u64_bytes_are_canonical() {
    let v = 0x0102030405060708u64;
    let mut le = [0u8; 8];
    let mut be = [0u8; 8];
    le.pwrite_with::<u64>(v, 0, LE).unwrap();
    be.pwrite_with::<u64>(v, 0, BE).unwrap();
    assert_eq!(le, [8, 7, 6, 5, 4, 3, 2, 1]);
    assert_eq!(be, [1, 2, 3, 4, 5, 6, 7, 8]);
}

#[test]
fn signed_bytes_are_twos_complement() {
    let mut buf = [0u8; 8];
    buf.pwrite_with::<i8>(-1, 0, LE).unwrap();
    assert_eq!(buf[0], 0xff);
    buf.pwrite_with::<i8>(i8::MIN, 0, BE).unwrap();
    assert_eq!(buf[0], 0x80);
    buf.pwrite_with::<i16>(-2, 0, LE).unwrap();
    assert_eq!(&buf[..2], &[0xfe, 0xff]);
    buf.pwrite_with::<i16>(i16::MIN, 0, BE).unwrap();
    assert_eq!(&buf[..2], &[0x80, 0x00]);
    buf.pwrite_with::<i32>(-3000, 0, LE).unwrap();
    assert_eq!(&buf[..4], &(-3000i32).to_le_bytes());
    buf.pwrite_with::<i32>(-1213213232, 0, BE).unwrap();
    assert_eq!(&buf[..4], &(-1213213232i32).to_be_bytes());
    buf.pwrite_with::<i64>(-1213213211111, 0, LE).unwrap();
    assert_eq!(buf, (-1213213211111i64).to_le_bytes());
    buf.pwrite_with::<i64>(i64::MIN, 0, BE).unwrap();
    assert_eq!(buf, [0x80, 0, 0, 0, 0, 0, 0, 0]);
}

#[test]
fn pread_with_be() {
    let bytes: [u8; 2] = [0x7e, 0xef];
    let b = &bytes[..];
    let byte: u16 = b.pread_with(0, BE).unwrap();
    assert_eq!(0x7eef, byte);
    let bytes: [u8; 2] = [0xde, 0xad];
    let dead: u16 = bytes.pread_with(0, BE).unwrap();
    assert_eq!(0xdead, dead);
}

#[test]
fn pread_with_le() {
    let bytes: [u8; 2] = [0x7e, 0xef];
    let v: u16 = bytes.pread_with(0, LE).unwrap();
    assert_eq!(0xef7e, v);
    let bytes = [0xf, 0xe, 0xe, 0xb, 0xd, 0xa, 0xe, 0xd];
    assert_eq!(bytes.pread_with::<u16>(0, LE).unwrap(), 0xe0f);
    assert_eq!(bytes.pread_with::<u32>(0, LE).unwrap(), 0xb0e0e0f);
    assert_eq!(bytes.pread_with::<u64>(0, LE).unwrap(), 0xd0e0a0d0b0e0e0f);
    assert_eq!(bytes.pread_with::<i64>(0, LE).unwrap(), 940700423303335439);
}

#[test]
fn signed_reads() {
    assert_eq!([0xffu8].pread_with::<i8>(0, LE).unwrap(), -1);
    assert_eq!([0x80u8].pread_with::<i8>(0, BE).unwrap(), i8::MIN);
    assert_eq!([0x7fu8].pread_with::<i8>(0, BE).unwrap(), i8::MAX);
    assert_eq!([0xfeu8, 0xff].pread_with::<i16>(0, LE).unwrap(), -2);
    assert_eq!([0x80u8, 0x00].pread_with::<i16>(0, BE).unwrap(), i16::MIN);
    assert_eq!([0xffu8; 4].pread_with::<i32>(0, BE).unwrap(), -1);
    assert_eq!([0x80u8, 0, 0, 0].pread_with::<i32>(0, BE).unwrap(), i32::MIN);
    assert_eq!([0xffu8; 8].pread_with::<i64>(0, LE).unwrap(), -1);
    assert_eq!(
        [0x80u8, 0, 0, 0, 0, 0, 0, 0].pread_with::<i64>(0, BE).unwrap(),
        i64::MIN
    );
    assert_eq!(
        [0x7fu8, 0xff, 0xff, 0xff, 0xff, 0xff, 0xff, 0xff]
            .pread_with::<i64>(0, BE)
            .unwrap(),
        i64::MAX
    );
}

#[test]
fn pwrite_and_pread_roundtrip_u8() {
    for v in [0u8, 1, 0x7f, 0x80, 0xff] {
        for e in [LE, BE] {
            let mut b = [0u8; 3];
            assert_eq!(b.pwrite_with::<u8>(v, 1, e).unwrap(), 1);
            assert_eq!(b.pread_with::<u8>(1, e).unwrap(), v);
            assert_eq!(b, [0, v, 0]);
        }
    }
}

#[test]
fn pwrite_and_pread_roundtrip_i8() {
    for v in [0i8, 1, -1, i8::MIN, i8::MAX] {
        for e in [LE, BE] {
            let mut b = [0u8; 3];
            assert_eq!(b.pwrite_with::<i8>(v, 1, e).unwrap(), 1);
            assert_eq!(b.pread_with::<i8>(1, e).unwrap(), v);
        }
    }
}

#[test]
fn pwrite_and_pread_roundtrip_u16() {
    for v in [0u16, 1, 0xbeef, 0x00ff, 0xff00, u16::MAX] {
        for e in [LE, BE] {
            let mut b = [0u8; 8];
            assert_eq!(b.pwrite_with::<u16>(v, 0, e).unwrap(), 2);
            assert_eq!(b.pread_with::<u16>(0, e).unwrap(), v);
        }
    }
}

#[test]
fn pwrite_and_pread_roundtrip_i16() {
    for v in [0i16, 0x7eef, -1, -3000, i16::MIN, i16::MAX] {
        for e in [LE, BE] {
            let mut b = [0u8; 8];
            assert_eq!(b.pwrite_with::<i16>(v, 3, e).unwrap(), 2);
            assert_eq!(b.pread_with::<i16>(3, e).unwrap(), v);
        }
    }
}

#[test]
fn pwrite_and_pread_roundtrip_u32() {
    for v in [0u32, 1, 0xbeefbeef, 0x80000000, u32::MAX] {
        for e in [LE, BE] {
            let mut b = [0u8; 8];
            assert_eq!(b.pwrite_with::<u32>(v, 0, e).unwrap(), 4);
            assert_eq!(b.pread_with::<u32>(0, e).unwrap(), v);
        }
    }
}

#[test]
fn pwrite_and_pread_roundtrip_i32() {
    for v in [0i32, 0x7eefbeef, -1, -1213213232, -3000, i32::MIN, i32::MAX] {
        for e in [LE, BE] {
            let mut b = [0u8; 8];
            assert_eq!(b.pwrite_with::<i32>(v, 4, e).unwrap(), 4);
            assert_eq!(b.pread_with::<i32>(4, e).unwrap(), v);
        }
    }
}

#[test]
fn pwrite_and_pread_roundtrip_u64() {
    for v in [0u64, 1, 0xbeefbeef7eef7eef, 1 << 63, u64::MAX] {
        for e in [LE, BE] {
            let mut b = [0u8; 8];
            assert_eq!(b.pwrite_with::<u64>(v, 0, e).unwrap(), 8);
            assert_eq!(b.pread_with::<u64>(0, e).unwrap(), v);
        }
    }
}

#[test]
fn pwrite_and_pread_roundtrip_i64() {
    for v in [
        0i64,
        0x7eefbeef7eef7eef,
        -1,
        -1213213211111,
        -3000,
        i64::MIN,
        i64::MAX,
    ] {
        for e in [LE, BE] {
            let mut b = [0u8; 8];
            assert_eq!(b.pwrite_with::<i64>(v, 0, e).unwrap(), 8);
            assert_eq!(b.pread_with::<i64>(0, e).unwrap(), v);
        }
    }
}

#[test]
fn pwrite_and_pread_roundtrip_usize() {
    let width = std::mem::size_of::<usize>();
    for v in [0usize, 1, 0xb0b, usize::MAX, usize::MAX / 3] {
        for e in [LE, BE] {
            let mut b = [0u8; 16];
            assert_eq!(b.pwrite_with::<usize>(v, 2, e).unwrap(), width);
            assert_eq!(b.pread_with::<usize>(2, e).unwrap(), v);
        }
    }
    let mut b = [0u8; 16];
    b.pwrite_with::<usize>(0x0102, 0, LE).unwrap();
    assert_eq!(&b[..width], &0x0102usize.to_le_bytes());
    b.pwrite_with::<usize>(0x0102, 0, BE).unwrap();
    assert_eq!(&b[..width], &0x0102usize.to_be_bytes());
}

#[test]
fn write_leaves_the_other_bytes() {
    let mut b = [0xaau8; 8];
    b.pwrite_with::<u16>(0x0102, 3, BE).unwrap();
    assert_eq!(b, [0xaa, 0xaa, 0xaa, 0x01, 0x02, 0xaa, 0xaa, 0xaa]);
    b.cwrite_with::<u32>(0x03040506, 4, LE);
    assert_eq!(b, [0xaa, 0xaa, 0xaa, 0x01, 0x06, 0x05, 0x04, 0x03]);
}

#[test]
fn encode_too_small() {
    let mut dst = [0x11u8, 0x22];
    let r = dst.pwrite_with::<u32>(0xdeadbeef, 0, LE);
    assert!(matches!(r, Err(Error::TooBig { size: 4, len: 2 })));
    assert_eq!(dst, [0x11, 0x22]);
    let r = 0xdeadbeefu32.try_into_ctx(&mut dst[..], BE);
    assert!(matches!(r, Err(Error::TooBig { size: 4, len: 2 })));
    assert_eq!(dst, [0x11, 0x22]);
    let r = (-5i64).try_into_ctx(&mut dst[..], BE);
    assert!(matches!(r, Err(Error::TooBig { size: 8, len: 2 })));
    assert_eq!(dst, [0x11, 0x22]);
}

#[test]
fn decode_too_small() {
    let src = [1u8, 2, 3];
    assert!(matches!(
        u32::try_from_ctx(&src, LE),
        Err(Error::TooBig { size: 4, len: 3 })
    ));
    assert!(matches!(
        i64::try_from_ctx(&src, BE),
        Err(Error::TooBig { size: 8, len: 3 })
    ));
    assert!(matches!(
        u16::try_from_ctx(&src[..1], BE),
        Err(Error::TooBig { size: 2, len: 1 })
    ));
    assert!(matches!(
        u8::try_from_ctx(&src[..0], BE),
        Err(Error::TooBig { size: 1, len: 0 })
    ));
    let width = std::mem::size_of::<usize>();
    match usize::try_from_ctx(&src, LE) {
        Err(Error::TooBig { size, len }) => {
            assert_eq!(size, width);
            assert_eq!(len, 3);
        }
        _ => panic!("a machine word does not fit three bytes"),
    }
}

#[test]
fn try_from_ctx_reports_the_size() {
    let src = [0x01u8, 0x02, 0x03, 0x04, 0x05, 0x06, 0x07, 0x08, 0x09];
    assert_eq!(u8::try_from_ctx(&src, LE).unwrap(), (1, 1));
    assert_eq!(u16::try_from_ctx(&src, LE).unwrap(), (0x0201, 2));
    assert_eq!(u32::try_from_ctx(&src, BE).unwrap(), (0x01020304, 4));
    assert_eq!(u64::try_from_ctx(&src, BE).unwrap(), (0x0102030405060708, 8));
    assert_eq!(i16::try_from_ctx(&src, BE).unwrap(), (0x0102, 2));
}

#[test]
fn size_with_is_what_is_consumed() {
    let src = [0xffu8; 16];
    assert_eq!(<u8 as SizeWith<Endian>>::size_with(&LE), u8::try_from_ctx(&src, LE).unwrap().1);
    assert_eq!(<i8 as SizeWith<Endian>>::size_with(&LE), i8::try_from_ctx(&src, LE).unwrap().1);
    assert_eq!(<u16 as SizeWith<Endian>>::size_with(&LE), u16::try_from_ctx(&src, LE).unwrap().1);
    assert_eq!(<i16 as SizeWith<Endian>>::size_with(&BE), i16::try_from_ctx(&src, BE).unwrap().1);
    assert_eq!(<u32 as SizeWith<Endian>>::size_with(&LE), u32::try_from_ctx(&src, LE).unwrap().1);
    assert_eq!(<i32 as SizeWith<Endian>>::size_with(&BE), i32::try_from_ctx(&src, BE).unwrap().1);
    assert_eq!(<u64 as SizeWith<Endian>>::size_with(&LE), u64::try_from_ctx(&src, LE).unwrap().1);
    assert_eq!(<i64 as SizeWith<Endian>>::size_with(&BE), i64::try_from_ctx(&src, BE).unwrap().1);
    assert_eq!(
        <usize as SizeWith<Endian>>::size_with(&LE),
        usize::try_from_ctx(&src, LE).unwrap().1
    );
    assert_eq!(<isize as SizeWith<Endian>>::size_with(&LE), std::mem::size_of::<isize>());
    assert_eq!(<u64 as SizeWith<Endian>>::size_with(&LE), 8);
    assert_eq!(<i16 as SizeWith<Endian>>::size_with(&BE), 2);
}

#[test]
fn from_ctx_and_into_ctx_agree() {
    let mut b = [0u8; 8];
    0x1337u16.into_ctx(&mut b, LE);
    assert_eq!(&b[..2], &[0x37, 0x13]);
    assert_eq!(u16::from_ctx(&b, LE), 0x1337);
    assert_eq!(u16::from_ctx(&b, BE), 0x3713);
    (-2i32).into_ctx(&mut b, BE);
    assert_eq!(i32::from_ctx(&b, BE), -2);
    0xfeeddeadu32.into_ctx(&mut b[4..], BE);
    assert_eq!(b.cread_with::<u32>(4, BE), 0xfeeddead);
    assert_eq!(b.cread_with::<u32>(4, LE), 0xaddeedfe);
}

#[test]
fn default_context_is_the_byte_order_of_the_machine() {
    let bytes = [0x01u8, 0x02, 0x03, 0x04];
    assert_eq!(bytes.pread::<u32>(0).unwrap(), u32::from_ne_bytes(bytes));
    assert_eq!(bytes.cread::<u16>(1), u16::from_ne_bytes([0x02, 0x03]));
    let mut out = [0u8; 4];
    out.pwrite::<u32>(0x0a0b0c0d, 0).unwrap();
    assert_eq!(out, 0x0a0b0c0du32.to_ne_bytes());
    let native = Endian::native();
    assert_eq!(native.is_little(), 1u16.to_ne_bytes()[0] == 1);
    assert_eq!(Endian::default(), native);
    assert_eq!(bytes.pread_with::<u32>(0, native).unwrap(), u32::from_ne_bytes(bytes));
}

#[test]
fn is_little() {
    assert!(LE.is_little());
    assert!(!BE.is_little());
    assert_eq!(LE, Endian::Little);
    assert_eq!(BE, Endian::Big);
}

#[test]
fn pread_with_iter_bytes() {
    let mut bytes_to: [u8; 8] = [0, 0, 0, 0, 0, 0, 0, 0];
    let bytes_from: [u8; 8] = [1, 2, 3, 4, 5, 6, 7, 8];
    let bytes_to = &mut bytes_to[..];
    let bytes_from = &bytes_from[..];
    for i in 0..bytes_from.len() {
        bytes_to[i] = bytes_from.pread::<u8>(i).unwrap();
    }
    assert_eq!(bytes_to, bytes_from);
}

#[test]
fn byte_order_of_a_machine_by_its_reading_of_one() {
    assert_eq!(Endian::of_native_one(1), Endian::Little);
    assert_eq!(Endian::of_native_one(256), Endian::Big);
    assert_eq!(Endian::of_native_one(u16::from_ne_bytes([1, 0])), Endian::native());
    assert_eq!(Endian::of_native_one(u16::from_le_bytes([1, 0])), LE);
    assert_eq!(Endian::of_native_one(u16::from_be_bytes([1, 0])), BE);
}
