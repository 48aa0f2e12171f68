use conststr::String;
use conststr::codec::{DecodeError, EncodeError};
use conststr::error::{LengthError, Utf8Error};
use core::cmp::Ordering;
use oct::decode::Input;
use oct::encode::Output;

#[test]
fn test_string() {
    let chars: Vec<char> = "hello world".chars().collect();
    let s: String<0x4> = String::from_chars(&chars);
    assert_eq!(s, "hell")
}

#[test]
fn test_string_decode() {
    let data = *b"\x0C\x00if constexpr";

    let mut input = Input::new(&data);

    let s = String::<0x100>::decode(&mut input).unwrap();

    assert_eq!(s, "if constexpr",);
}

#[test]
fn test_string_size() {
    let s0: String<0x0C> = String::from_str("Hello there!").unwrap();
    let s1: String<0x12> = String::from_str("MEIN_GRO\u{1E9E}_GOTT").unwrap();
    let s2: String<0x05> = String::from_str("Hello").unwrap();

    assert_eq!(s0.partial_cmp(&s0), Some(Ordering::Equal));
    assert_eq!(s0.partial_cmp(&s1), Some(Ordering::Less));
    assert_eq!(s0.partial_cmp(&s2), Some(Ordering::Greater));

    assert_eq!(s1.partial_cmp(&s0), Some(Ordering::Greater));
    assert_eq!(s1.partial_cmp(&s1), Some(Ordering::Equal));
    assert_eq!(s1.partial_cmp(&s2), Some(Ordering::Greater));

    assert_eq!(s2.partial_cmp(&s0), Some(Ordering::Less));
    assert_eq!(s2.partial_cmp(&s1), Some(Ordering::Less));
    assert_eq!(s2.partial_cmp(&s2), Some(Ordering::Equal));

    assert_eq!(s0, "Hello there!");
    assert_eq!(s1, "MEIN_GRO\u{1E9E}_GOTT");
    assert_eq!(s2, "Hello");
}

#[test]
fn test_string_from_utf8() {
    assert!(matches!(
        String::<0x3>::from_utf8(*b"A\xF7c"),
        Err(Utf8Error { value: 0xF7, index: 0x1 }),
    ));

    assert!(matches!(String::<0x4>::from_utf8(*b"A\xC3\xBCc"), Ok(..)));

    assert!(matches!(
        String::<0x4>::from_utf8(*b"20\x20\xAC"),
        Err(Utf8Error { value: 0xAC, index: 0x3 }),
    ));

    assert!(matches!(String::<0x5>::from_utf8(*b"20\xE2\x82\xAC"), Ok(..)));
}

#[test]
fn test_string_insert() {
    let mut s = String::<0xC>::new();

    assert_eq!(s.insert(0x0, '\u{1F480}'), Ok(()));
    assert_eq!(s.len(), 0x4);
    assert_eq!(s, "\u{1F480}");

    assert_eq!(s.insert(0x0, '\u{130BA}'), Ok(()));
    assert_eq!(s.len(), 0x8);
    assert_eq!(s, "\u{130BA}\u{1F480}");

    assert_eq!(s.insert(0x4, '\u{81A3}'), Ok(()));
    assert_eq!(s.len(), 0xB);
    assert_eq!(s, "\u{130BA}\u{81A3}\u{1F480}");

    assert_eq!(s.insert(0xB, '!'), Ok(()));
    assert_eq!(s.len(), 0xC);
    assert_eq!(s, "\u{130BA}\u{81A3}\u{1F480}!");

    assert_eq!(s.push('?'), Err(LengthError { remaining: 0x0, count: 0x1 }));
    assert_eq!(s.len(), 0xC);
    assert_eq!(s, "\u{130BA}\u{81A3}\u{1F480}!");
}

#[test]
fn test_string_push_pop() {
    let mut s = String::<0x8>::new();

    assert_eq!(s.push('\u{FFFD}'), Ok(()));
    assert_eq!(s.len(), 0x3);

    assert_eq!(s.push('\u{0D9E}'), Ok(()));
    assert_eq!(s.len(), 0x6);

    assert_eq!(s.push('\u{0394}'), Ok(()));
    assert_eq!(s.len(), 0x8);

    assert_eq!(s.push('!'), Err(LengthError { remaining: 0x0, count: 0x1 }));
    assert_eq!(s.len(), 0x8);

    assert_eq!(s.pop(), Some('\u{0394}'));
    assert_eq!(s.pop(), Some('\u{0D9E}'));
    assert_eq!(s.pop(), Some('\u{FFFD}'));
    assert_eq!(s.pop(), None);
}

#[test]
fn test_string_remove() {
    let mut s: String<0x8> = String::from_str("Ma\u{00F1}o\u{351E}").unwrap();

    assert_eq!(s.len(), 0x8);
    assert_eq!(s, "Ma\u{00F1}o\u{351E}");

    assert_eq!(s.remove(0x4), 'o');
    assert_eq!(s.len(), 0x7);
    assert_eq!(s, "Ma\u{00F1}\u{351E}");

    assert_eq!(s.remove(0x2), '\u{00F1}');
    assert_eq!(s.len(), 0x5);
    assert_eq!(s, "Ma\u{351E}");

    assert_eq!(s.remove(0x0), 'M');
    assert_eq!(s.len(), 0x4);
    assert_eq!(s, "a\u{351E}");

    assert_eq!(s.remove(0x1), '\u{351E}');
    assert_eq!(s.len(), 0x1);
    assert_eq!(s, "a");

    assert_eq!(s.remove(0x0), 'a');
    assert_eq!(s.len(), 0x0);
    assert_eq!(s, "");
}

#[test]
fn test_from_str_fits_exactly() {
    let s: String<0x5> = String::from_str("Hello").unwrap();
    assert_eq!(s.len(), 0x5);
    assert_eq!(s.as_str(), "Hello");
}

#[test]
fn test_from_str_overflow() {
    let r: Result<String<0x4>, LengthError> = String::from_str("hello");
    assert_eq!(r, Err(LengthError { remaining: 0x4, count: 0x5 }));
}

#[test]
fn test_capacity_boundary_ascii() {
    let mut s = String::<0x3>::new();
    assert_eq!(s.push('a'), Ok(()));
    assert_eq!(s.push('b'), Ok(()));
    assert_eq!(s.push('c'), Ok(()));
    assert_eq!(s.len(), 0x3);
    assert_eq!(s.push('d'), Err(LengthError { remaining: 0x0, count: 0x1 }));
    assert_eq!(s, "abc");
}

#[test]
fn test_insert_remove_round_trip() {
    let mut s: String<0x8> = String::from_str("ab").unwrap();
    assert_eq!(s.insert(0x1, '\u{00FC}'), Ok(()));
    assert_eq!(s, "a\u{00FC}b");
    assert_eq!(s.remove(0x1), '\u{00FC}');
    assert_eq!(s, "ab");
}

#[test]
fn test_push_str_and_insert_str() {
    let mut s = String::<0x10>::new();
    assert_eq!(s.push_str("world"), Ok(()));
    assert_eq!(s.insert_str(0x0, "hello "), Ok(()));
    assert_eq!(s, "hello world");
    assert_eq!(
        s.push_str(", again"),
        Err(LengthError { remaining: 0x5, count: 0x7 }),
    );
    assert_eq!(s, "hello world");
}

#[test]
fn test_truncate_and_clear() {
    let mut s: String<0x8> = String::from_str("a\u{00E9}b").unwrap();
    s.truncate(0x3);
    assert_eq!(s, "a\u{00E9}");
    s.clear();
    assert_eq!(s, "");
    assert!(s.is_empty());
}

#[test]
fn test_make_ascii_case() {
    let mut s: String<0x10> = String::from_str("gr\u{00FC}n Ab1!").unwrap();
    s.make_ascii_uppercase();
    assert_eq!(s, "GR\u{00FC}N AB1!");
    s.make_ascii_lowercase();
    assert_eq!(s, "gr\u{00FC}n ab1!");
}

#[test]
fn test_is_char_boundary_and_ascii() {
    let s: String<0x8> = String::from_str("a\u{5149}b").unwrap();
    assert!(s.is_char_boundary(0x0));
    assert!(s.is_char_boundary(0x1));
    assert!(!s.is_char_boundary(0x2));
    assert!(!s.is_char_boundary(0x3));
    assert!(s.is_char_boundary(0x4));
    assert!(s.is_char_boundary(0x5));
    assert!(!s.is_char_boundary(0x6));
    assert!(!s.is_ascii());

    let t: String<0x8> = String::from_str("plain").unwrap();
    assert!(t.is_ascii());
}

#[test]
fn test_split_at() {
    let s: String<0x10> = String::from_str("L\u{00F6}we alt").unwrap();
    let (head, tail) = s.split_at(0x3);
    assert_eq!(head, "L\u{00F6}");
    assert_eq!(tail, "we alt");
}

#[test]
fn test_split_at_checked() {
    let s: String<0x8> = String::from_str("\u{5149}x").unwrap();
    assert_eq!(s.split_at_checked(0x3), Some(("\u{5149}", "x")));
    assert_eq!(s.split_at_checked(0x1), None);
    assert_eq!(s.split_at_checked(0x9), None);
}

#[test]
fn test_eq_across_capacities() {
    let a: String<0x5> = String::from_str("He").unwrap();
    let b: String<0x9> = String::from_str("He").unwrap();
    assert!(a == b);
    let c: String<0x20> = String::from_str("Hello there!").unwrap();
    let d: String<0x5> = String::from_str("Hello").unwrap();
    assert!(d < c);
    assert!(c > d);
}

#[test]
fn test_raw_parts_round_trip() {
    let s: String<0x6> = String::from_str("ab\u{00E9}").unwrap();
    let (buf, len) = s.into_raw_parts();
    assert_eq!(buf.len(), 0x6);
    assert_eq!(len, 0x4);
    let t: String<0x6> = String::from_raw_parts(buf, len);
    assert_eq!(t, "ab\u{00E9}");
}

#[test]
fn test_unchecked_constructors() {
    let s: String<0x8> = String::from_str_unchecked("d\u{00F8}g");
    assert_eq!(s, "d\u{00F8}g");
    let t: String<0x8> = String::from_utf8_unchecked(*b"abc");
    assert_eq!(t, "abc");
}

#[test]
fn test_into_std_string() {
    let s: String<0x8> = String::from_str("d\u{00F8}g").unwrap();
    let std_string = s.into_std_string();
    assert_eq!(std_string, "d\u{00F8}g".to_string());
}

#[test]
fn test_from_chars_stops_at_first_overflow() {
    let chars: Vec<char> = "a\u{00E9}b".chars().collect();
    let s: String<0x2> = String::from_chars(&chars);
    assert_eq!(s, "a");
    assert_eq!(s.len(), 0x1);

    let all: Vec<char> = "a\u{00E9}b".chars().collect();
    let t: String<0x4> = String::from_chars(&all);
    assert_eq!(t, "a\u{00E9}b");
}

#[test]
fn test_default_is_empty() {
    let s: String<0x4> = String::default();
    assert!(s.is_empty());
    assert_eq!(s, "");
}

#[test]
fn test_encode_wire_format() {
    let s: String<0x8> = String::from_str("ab").unwrap();
    let mut buf = [0u8; 0x8];
    let mut output = Output::new(&mut buf);
    assert_eq!(s.encode(&mut output), Ok(()));
    assert_eq!(output.as_slice(), b"\x02\x00ab");
}

#[test]
fn test_codec_round_trip() {
    let s: String<0x10> = String::from_str("h\u{00E9}llo \u{1F54B}").unwrap();
    let mut buf = [0u8; 0x20];
    let mut output = Output::new(&mut buf);
    assert_eq!(s.encode(&mut output), Ok(()));
    let written = output.position();

    let mut input = Input::new(&buf[..written]);
    let t = String::<0x10>::decode(&mut input).unwrap();
    assert_eq!(t, s);
    assert_eq!(t, "h\u{00E9}llo \u{1F54B}");
}

#[test]
fn test_decode_bad_length() {
    let data = *b"\x05\x00hello";
    let mut input = Input::new(&data);
    let r = String::<0x4>::decode(&mut input);
    assert_eq!(
        r,
        Err(DecodeError::BadLength(LengthError { remaining: 0x4, count: 0x5 })),
    );
}

#[test]
fn test_decode_bad_utf8() {
    let data = *b"\x03\x00a\xF7c";
    let mut input = Input::new(&data);
    let r = String::<0x8>::decode(&mut input);
    assert_eq!(
        r,
        Err(DecodeError::BadItem(Utf8Error { value: 0xF7, index: 0x1 })),
    );
}

#[test]
fn test_encode_to_vec_decode_from_bytes() {
    let s: String<0x10> = String::from_str("\u{00E4}b c\u{1F54B}").unwrap();
    let wire = s.encode_to_vec().unwrap();
    assert_eq!(&wire[..0x2], b"\x09\x00");
    assert_eq!(wire.len(), 0xB);
    let t = String::<0x10>::decode_from_bytes(&wire).unwrap();
    assert_eq!(t, s);
}

#[test]
fn test_decode_from_bytes_bad_length() {
    let r = String::<0x2>::decode_from_bytes(b"\x03\x00abc");
    assert_eq!(
        r,
        Err(DecodeError::BadLength(LengthError { remaining: 0x2, count: 0x3 })),
    );
}

#[test]
fn test_encode_oversized_length() {
    let long = "a".repeat(0x1_0000);
    let s: String<0x1_0000> = String::from_str(&long).unwrap();
    let mut buf = vec![0u8; 0x1_0010];
    let mut output = Output::new(&mut buf);
    assert_eq!(s.encode(&mut output), Err(EncodeError { count: 0x1_0000 }));
    assert_eq!(output.position(), 0x0);
}
