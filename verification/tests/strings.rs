// Strings and byte slices as views.

use scroll::ctx::{StrCtx, TryFromCtx, TryIntoCtx, NULL, RET, SPACE, TAB};
use scroll::strings::span;
use scroll::{Error, Gread, Pread, Pwrite, LE};

#[test]
fn delimiter_example() {
    let bytes = b"hello world some junk";
    let (hello, used) = <&str>::try_from_ctx(&bytes[..], StrCtx::Delimiter(SPACE)).unwrap();
    assert_eq!(hello, "hello");
    assert_eq!(used, 6);
    let (world, used) = <&str>::try_from_ctx(&bytes[6..], StrCtx::Delimiter(SPACE)).unwrap();
    assert_eq!(world, "world");
    assert_eq!(used, 6);
    let mut offset = 0;
    let hello: &str = Gread::gread_with(&bytes[..], &mut offset, StrCtx::Delimiter(SPACE)).unwrap();
    assert_eq!(hello, "hello");
    assert_eq!(offset, 6);
    let world: &str = Gread::gread_with(&bytes[..], &mut offset, StrCtx::Delimiter(SPACE)).unwrap();
    assert_eq!(world, "world");
    assert_eq!(offset, 12);
    let some: &str = Gread::gread_with(&bytes[..], &mut offset, StrCtx::Delimiter(SPACE)).unwrap();
    assert_eq!(some, "some");
    assert_eq!(offset, 17);
}

#[test]
fn delimiter_that_does_not_come() {
    let bytes = b"hello world some junk";
    let mut offset = 17;
    let junk: &str = Gread::gread_with(&bytes[..], &mut offset, StrCtx::Delimiter(SPACE)).unwrap();
    assert_eq!(junk, "junk");
    assert_eq!(offset, 21);
    let (all, used) = <&str>::try_from_ctx(&bytes[..], StrCtx::Delimiter(NULL)).unwrap();
    assert_eq!(all, "hello world some junk");
    assert_eq!(used, 21);
    let (none, used) = <&str>::try_from_ctx(&bytes[..0], StrCtx::Delimiter(NULL)).unwrap();
    assert_eq!(none, "");
    assert_eq!(used, 0);
}

#[test]
fn fixed_length_example() {
    let bytes = [0x68u8, 0x65, 0x6c, 0x6c, 0x00];
    let hell: &str = bytes.pread_with(0, StrCtx::Length(4)).unwrap();
    assert_eq!(hell, "hell");
    let hell0: &str = bytes.pread_with(0, StrCtx::Length(5)).unwrap();
    assert_eq!(hell0, "hell\0");
    assert_eq!(<&str>::try_from_ctx(&bytes, StrCtx::Length(4)).unwrap().1, 4);
    assert_eq!(<&str>::try_from_ctx(&bytes, StrCtx::Length(5)).unwrap().1, 5);
    assert_eq!(<&str>::try_from_ctx(&bytes, StrCtx::Length(0)).unwrap(), ("", 0));
    assert!(matches!(
        bytes.pread_with::<&str>(0, StrCtx::Length(6)),
        Err(Error::TooBig { size: 6, len: 5 })
    ));
}

#[test]
fn pread_slice() {
    let bytes: [u8; 2] = [0x7e, 0xef];
    let b = &bytes[..];
    let iserr: Result<&str, _> = b.pread_with(0, StrCtx::Length(3));
    assert!(iserr.is_err());
}

#[test]
fn pread_str() {
    let bytes: [u8; 2] = [0x2e, 0x0];
    let b = &bytes[..];
    let s: &str = b.pread(0).unwrap();
    assert_eq!(s.len(), bytes[..].len() - 1);
    let bytes: &[u8] = b"hello, world!\0some_other_things";
    let hello_world: &str = bytes.pread_with(0, StrCtx::Delimiter(NULL)).unwrap();
    assert_eq!(hello_world.len(), 13);
    let hello: &str = bytes.pread_with(0, StrCtx::Delimiter(SPACE)).unwrap();
    assert_eq!(hello.len(), 6);
    let _error = bytes.pread_with::<&str>(6, StrCtx::Delimiter(SPACE));
    let error = bytes.pread_with::<&str>(7, StrCtx::Delimiter(SPACE));
    assert!(error.is_ok());
}

#[test]
fn pread_str_weird() {
    let bytes: &[u8] = b"";
    let hello_world = bytes.pread_with::<&str>(0, StrCtx::Delimiter(NULL));
    assert_eq!(hello_world.is_err(), true);
    let error = bytes.pread_with::<&str>(7, StrCtx::Delimiter(SPACE));
    assert!(error.is_err());
    let bytes: &[u8] = b"\0";
    let null = bytes.pread::<&str>(0).unwrap();
    assert_eq!(null.len(), 0);
}

#[test]
fn pwrite_str_and_bytes() {
    let astring: &str = "lol hello_world lal\0ala imabytes";
    let mut buffer = [0u8; 33];
    assert_eq!(buffer.pwrite(astring, 0).unwrap(), 32);
    {
        let hello_world = buffer
            .pread_with::<&str>(4, StrCtx::Delimiter(SPACE))
            .unwrap();
        assert_eq!(hello_world, "hello_world");
    }
    let bytes: &[u8] = b"more\0bytes";
    assert_eq!(buffer.pwrite(bytes, 0).unwrap(), 10);
    assert_eq!(&buffer[..12], b"more\0byteswo");
    let more = bytes
        .pread_with::<&str>(0, StrCtx::Delimiter(NULL))
        .unwrap();
    assert_eq!(more, "more");
    let bytes = bytes
        .pread_with::<&str>(more.len() + 1, StrCtx::Delimiter(NULL))
        .unwrap();
    assert_eq!(bytes, "bytes");
}

#[test]
fn default_context_ends_at_a_zero_byte() {
    assert!(matches!(StrCtx::default(), StrCtx::Delimiter(0)));
    let bytes = b"UserName\x00\x01\x02\x03\x04";
    let name: &str = bytes.pread(0).unwrap();
    assert_eq!(name, "UserName");
    let id: u32 = bytes.pread_with(name.len() + 1, scroll::BE).unwrap();
    assert_eq!(id, 0x01020304);
}

#[test]
fn presets() {
    assert_eq!((NULL, SPACE, RET, TAB), (0, 0x20, 0x0a, 0x09));
    let bytes = b"a\tb\nc d\0e";
    assert_eq!(<&str>::try_from_ctx(&bytes[..], StrCtx::Delimiter(TAB)).unwrap(), ("a", 2));
    assert_eq!(<&str>::try_from_ctx(&bytes[..], StrCtx::Delimiter(RET)).unwrap(), ("a\tb", 4));
    assert_eq!(
        <&str>::try_from_ctx(&bytes[..], StrCtx::Delimiter(SPACE)).unwrap(),
        ("a\tb\nc", 6)
    );
    assert_eq!(
        <&str>::try_from_ctx(&bytes[..], StrCtx::Delimiter(NULL)).unwrap(),
        ("a\tb\nc d", 8)
    );
}

#[test]
fn bounded_delimiter() {
    let bytes = b"name\0rest";
    assert_eq!(
        <&str>::try_from_ctx(&bytes[..], StrCtx::DelimiterUntil(NULL, 5)).unwrap(),
        ("name", 5)
    );
    assert_eq!(
        <&str>::try_from_ctx(&bytes[..], StrCtx::DelimiterUntil(NULL, 9)).unwrap(),
        ("name", 5)
    );
    assert_eq!(
        <&str>::try_from_ctx(&bytes[4..], StrCtx::DelimiterUntil(NULL, 1)).unwrap(),
        ("", 1)
    );
    assert!(matches!(
        <&str>::try_from_ctx(&bytes[..], StrCtx::DelimiterUntil(NULL, 10)),
        Err(Error::TooBig { size: 10, len: 9 })
    ));
    match <&str>::try_from_ctx(&bytes[..], StrCtx::DelimiterUntil(NULL, 4)) {
        Err(Error::BadRange { range, size }) => {
            assert_eq!(range, 0..4);
            assert_eq!(size, 9);
        }
        _ => panic!("no zero byte stands among the first four bytes"),
    }
    match <&[u8]>::try_from_ctx(&bytes[..], StrCtx::DelimiterUntil(b'x', 9)) {
        Err(Error::BadRange { range, size }) => {
            assert_eq!(range, 0..9);
            assert_eq!(size, 9);
        }
        _ => panic!("no x stands among the bytes"),
    }
    assert!(matches!(
        <&str>::try_from_ctx(&bytes[..], StrCtx::DelimiterUntil(NULL, 0)),
        Err(Error::BadRange { .. })
    ));
}

#[test]
fn span_is_the_view_and_what_it_consumes() {
    let bytes = b"ab cd";
    assert_eq!(span(bytes, StrCtx::Length(3)).unwrap(), (3, 3));
    assert_eq!(span(bytes, StrCtx::Delimiter(SPACE)).unwrap(), (2, 3));
    assert_eq!(span(bytes, StrCtx::Delimiter(b'a')).unwrap(), (0, 1));
    assert_eq!(span(bytes, StrCtx::Delimiter(b'd')).unwrap(), (4, 5));
    assert_eq!(span(bytes, StrCtx::Delimiter(b'x')).unwrap(), (5, 5));
    assert_eq!(span(bytes, StrCtx::DelimiterUntil(SPACE, 3)).unwrap(), (2, 3));
    assert!(span(bytes, StrCtx::DelimiterUntil(SPACE, 2)).is_err());
    assert!(span(bytes, StrCtx::Length(6)).is_err());
}

#[test]
fn invalid_utf8_is_bad_input() {
    let bytes = [b'a', b'b', 0xff, b'c', 0x00];
    match bytes.pread_with::<&str>(0, StrCtx::Delimiter(NULL)) {
        Err(Error::BadInput { range, size, msg }) => {
            assert_eq!(range, 2..4);
            assert_eq!(size, 5);
            assert_eq!(msg, "invalid utf8");
        }
        _ => panic!("0xff is no UTF-8"),
    }
    match bytes.pread_with::<&str>(1, StrCtx::Length(3)) {
        Err(Error::BadInput { range, size, msg }) => {
            assert_eq!(range, 1..3);
            assert_eq!(size, 4);
            assert_eq!(msg, "invalid utf8");
        }
        _ => panic!("0xff is no UTF-8"),
    }
    let euro = [0xe2u8, 0x82, 0xac, 0xe2, 0x82];
    match <&str>::try_from_ctx(&euro, StrCtx::Length(5)) {
        Err(Error::BadInput { range, size, .. }) => {
            assert_eq!(range, 3..5);
            assert_eq!(size, 5);
        }
        _ => panic!("the second sign is cut off"),
    }
    assert_eq!(<&str>::try_from_ctx(&euro, StrCtx::Length(3)).unwrap(), ("\u{20ac}", 3));
    assert!(matches!(
        <&str>::try_from_ctx(&euro, StrCtx::Length(2)),
        Err(Error::BadInput { .. })
    ));
    let (raw, used) = <&[u8]>::try_from_ctx(&bytes, StrCtx::Delimiter(NULL)).unwrap();
    assert_eq!(raw, &[b'a', b'b', 0xff, b'c']);
    assert_eq!(used, 5);
}

#[test]
fn multibyte_strings() {
    let bytes = "gr\u{fc}\u{df}e \u{4e16}\u{754c}\0".as_bytes();
    let first: &str = bytes.pread_with(0, StrCtx::Delimiter(SPACE)).unwrap();
    assert_eq!(first, "gr\u{fc}\u{df}e");
    let second: &str = bytes.pread_with(first.len() + 1, StrCtx::Delimiter(NULL)).unwrap();
    assert_eq!(second, "\u{4e16}\u{754c}");
}

#[test]
fn byte_slices() {
    let bytes = [1u8, 2, 3, 0, 4, 5];
    let head: &[u8] = bytes.pread_with(0, StrCtx::Length(2)).unwrap();
    assert_eq!(head, &[1, 2]);
    let mut offset = 0;
    let upto: &[u8] = Gread::gread_with(&bytes[..], &mut offset, StrCtx::Delimiter(0)).unwrap();
    assert_eq!(upto, &[1, 2, 3]);
    assert_eq!(offset, 4);
    let rest: &[u8] = Gread::gread_with(&bytes[..], &mut offset, StrCtx::Delimiter(0)).unwrap();
    assert_eq!(rest, &[4, 5]);
    assert_eq!(offset, 6);
    assert!(matches!(
        bytes.pread_with::<&[u8]>(3, StrCtx::Length(4)),
        Err(Error::TooBig { size: 4, len: 3 })
    ));
}

#[test]
fn writing_a_string_that_does_not_fit() {
    let mut dst = [0x11u8; 3];
    let r = "four".try_into_ctx(&mut dst[..], LE);
    assert!(matches!(r, Err(Error::TooBig { size: 4, len: 3 })));
    assert_eq!(dst, [0x11; 3]);
    let r = (&b"four"[..]).try_into_ctx(&mut dst[..], LE);
    assert!(matches!(r, Err(Error::TooBig { size: 4, len: 3 })));
    assert_eq!(dst, [0x11; 3]);
    assert_eq!("abc".try_into_ctx(&mut dst[..], LE).unwrap(), 3);
    assert_eq!(&dst, b"abc");
    assert_eq!("".try_into_ctx(&mut dst[..], LE).unwrap(), 0);
    assert_eq!(&dst, b"abc");
    assert_eq!((&b"z"[..]).try_into_ctx(&mut dst[..], LE).unwrap(), 1);
    assert_eq!(&dst, b"zbc");
}
