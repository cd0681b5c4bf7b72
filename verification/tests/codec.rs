//! Encode/decode behaviour: the strict and unchecked paths, the decoding
//! view, its iterators, and the wire layout itself.

use lamansh::buffer::LamanshBuffer;
use lamansh::encode::to_lamansh;
use lamansh::encode::to_lamansh_unchecked;
use lamansh::encode::update_buffer;
use lamansh::encode::update_buffer_unchecked;
use lamansh::encode::ToLamanshErr;
use lamansh::lamansh::cluLamanshErr;
use lamansh::new_custom_lamansh;
use lamansh::new_lamansh;
use lamansh::new_lamansh_mini;
use lamansh::sized::U16;
use lamansh::sized::U64;
use lamansh::sized::U8;

#[test]
fn err_to_empty_test() {
    let array: &[&[u8]] = &[];

    assert_eq!(to_lamansh::<U8, U8>(array), Err(ToLamanshErr::EmptyArray));
}

#[test]
fn count_overflow() {
    // One element more than the count field can represent (it stores the
    // count biased by one, so the ceiling is its maximum plus one).
    let vec: Vec<Vec<u8>> = vec![vec![]; (u8::MAX as usize) + 2];
    let refs: Vec<&[u8]> = vec.iter().map(|v| v.as_slice()).collect();

    let result = to_lamansh::<U8, U64>(&refs);
    assert_eq!(result, Err(ToLamanshErr::CountOverflow));
}

#[test]
fn count_boundary() {
    // Exactly the ceiling: the count field holds its maximum, biased.
    let vec: Vec<Vec<u8>> = vec![vec![]; (u8::MAX as usize) + 1];
    let refs: Vec<&[u8]> = vec.iter().map(|v| v.as_slice()).collect();

    let encoded = to_lamansh::<U8, U64>(&refs).unwrap();
    assert_eq!(encoded[0], u8::MAX);
    assert_eq!(encoded.len(), 1 + 256 * 8);

    let view = new_custom_lamansh::<U8, U64>(&encoded).unwrap();
    let mut iter = view.iter();
    let mut yielded: usize = 0;
    while let Some(item) = iter.next() {
        assert_eq!(item, Ok(&b""[..]));
        yielded += 1;
    }
    assert_eq!(yielded, 256);
}

#[test]
fn value_overflow() {
    let vec = vec![vec![0u8; (u8::MAX as usize) + 1]; 5];
    let refs: Vec<&[u8]> = vec.iter().map(|v| v.as_slice()).collect();

    let result = to_lamansh::<U16, U8>(&refs);
    assert_eq!(result, Err(ToLamanshErr::ValueOverflow));
}

#[test]
fn value_boundary() {
    // An element of exactly the length field's maximum is accepted.
    let element = vec![7u8; u8::MAX as usize];
    let encoded = to_lamansh::<U16, U8>(&[element.as_slice()]).unwrap();
    assert_eq!(encoded.len(), 2 + 1 + 255);

    let view = new_custom_lamansh::<U16, U8>(&encoded).unwrap();
    let mut iter = view.iter();
    assert_eq!(iter.next(), Some(Ok(element.as_slice())));
    assert_eq!(iter.next(), None);
}

#[test]
fn concrete_layout() {
    let elements: [&[u8]; 6] = [b"TEST", b"TEST45", b"TEST2", b"TEST3", b"", b"1"];
    let encoded = to_lamansh::<U8, U64>(&elements).unwrap();

    let mut expected: Vec<u8> = vec![5];
    for len in [4u64, 6, 5, 5, 0, 1] {
        expected.extend_from_slice(&len.to_be_bytes());
    }
    expected.extend_from_slice(b"TESTTEST45TEST2TEST31");
    assert_eq!(encoded, expected);

    let view = new_custom_lamansh::<U8, U64>(&encoded).unwrap();
    let mut iter = view.iter();
    assert_eq!(iter.next(), Some(Ok(&b"TEST"[..])));
    assert_eq!(iter.next(), Some(Ok(&b"TEST45"[..])));
    assert_eq!(iter.next(), Some(Ok(&b"TEST2"[..])));
    assert_eq!(iter.next(), Some(Ok(&b"TEST3"[..])));
    assert_eq!(iter.next(), Some(Ok(&b""[..])));
    assert_eq!(iter.next(), Some(Ok(&b"1"[..])));
    assert_eq!(iter.next(), None);
}

#[test]
fn round_trip_into_iter() {
    let elements: [&[u8]; 3] = [b"TEST", b"", b"my_test"];
    let encoded = to_lamansh::<U8, U64>(&elements).unwrap();

    let lamansh = new_custom_lamansh::<U8, U64>(&encoded).unwrap();
    let mut iter = lamansh.into_iter();
    assert_eq!(iter.next(), Some(Ok(&b"TEST"[..])));
    assert_eq!(iter.next(), Some(Ok(&b""[..])));
    assert_eq!(iter.next(), Some(Ok(&b"my_test"[..])));
    assert_eq!(iter.next(), None);
}

#[test]
fn empty_buffer_decodes_to_nothing() {
    let view = new_custom_lamansh::<U8, U8>(&[]).unwrap();
    let mut iter = view.iter();
    assert_eq!(iter.next(), None);
}

#[test]
fn decode_count_field_too_short() {
    // A 16-bit count field needs two bytes.
    let r = new_custom_lamansh::<U16, U8>(&[7]);
    assert!(matches!(r, Err(cluLamanshErr::ErrGetSliceSizeHeadArray)));
}

#[test]
fn decode_length_table_too_short() {
    // The count byte declares two elements, but only one length byte follows.
    let r = new_lamansh_mini(&[1, 5]);
    assert!(matches!(r, Err(cluLamanshErr::ErrGetSliceValueHeadArray)));
}

#[test]
fn truncated_value_region_is_reported() {
    let elements: [&[u8]; 2] = [b"ab", b"cdef"];
    let encoded = to_lamansh::<U8, U8>(&elements).unwrap();

    let truncated = &encoded[..encoded.len() - 1];
    let view = new_custom_lamansh::<U8, U8>(truncated).unwrap();
    let mut iter = view.iter();
    assert_eq!(iter.next(), Some(Ok(&b"ab"[..])));
    assert_eq!(iter.next(), Some(Err(cluLamanshErr::ErrNextSliceValue)));
}

#[test]
fn default_widths() {
    // An 8-bit count field and 64-bit length fields: two elements.
    let data: [u8; 22] = [
        1, 0, 0, 0, 0, 0, 0, 0, 3, 0, 0, 0, 0, 0, 0, 0, 2, 1, 1, 1, 23, 55,
    ];
    let lamansh = new_lamansh(&data).unwrap();
    let mut iter = lamansh.iter();
    assert_eq!(iter.next(), Some(Ok(&[1u8, 1, 1][..])));
    assert_eq!(iter.next(), Some(Ok(&[23u8, 55][..])));
    assert_eq!(iter.next(), None);
}

#[test]
fn mini_widths() {
    let data: [u8; 8] = [1, 3, 2, 1, 1, 1, 23, 55];
    let lamansh = new_lamansh_mini(&data).unwrap();
    let mut iter = lamansh.iter();
    assert_eq!(iter.next(), Some(Ok(&[1u8, 1, 1][..])));
    assert_eq!(iter.next(), Some(Ok(&[23u8, 55][..])));
    assert_eq!(iter.next(), None);
}

#[test]
fn buffer_reuse_matches_fresh_encode() {
    let mut buffer = LamanshBuffer::new();

    for a in 99..120 {
        let string_a = a.to_string();
        let elements: [&[u8]; 6] = [
            b"TEST",
            b"TEST45",
            b"TEST2",
            b"TEST3",
            b"",
            string_a.as_bytes(),
        ];
        update_buffer::<U8, U64>(&elements, &mut buffer).unwrap();

        let fresh = to_lamansh::<U8, U64>(&elements).unwrap();
        assert_eq!(buffer.as_slice(), fresh.as_slice());

        let lamansh = new_custom_lamansh::<U8, U64>(buffer.as_slice()).unwrap();
        let mut iter = lamansh.iter();
        assert_eq!(iter.next(), Some(Ok(&b"TEST"[..])));
        assert_eq!(iter.next(), Some(Ok(&b"TEST45"[..])));
        assert_eq!(iter.next(), Some(Ok(&b"TEST2"[..])));
        assert_eq!(iter.next(), Some(Ok(&b"TEST3"[..])));
        assert_eq!(iter.next(), Some(Ok(&b""[..])));
        assert_eq!(iter.next(), Some(Ok(string_a.as_bytes())));
        assert_eq!(iter.next(), None);
    }
}

#[test]
fn update_buffer_rejects_like_strict_encode() {
    let mut buffer = LamanshBuffer::array(vec![9, 9, 9]);

    let empty: &[&[u8]] = &[];
    assert_eq!(
        update_buffer::<U8, U8>(empty, &mut buffer),
        Err(ToLamanshErr::EmptyArray)
    );
    // A rejected encode leaves the buffer as it was.
    assert_eq!(buffer.as_slice(), &[9, 9, 9][..]);
}

#[test]
fn unchecked_matches_strict() {
    let elements: [&[u8]; 2] = [b"ab", b"c"];
    assert_eq!(
        to_lamansh_unchecked::<U8, U8>(&elements),
        to_lamansh::<U8, U8>(&elements).unwrap()
    );

    let none: &[&[u8]] = &[];
    assert_eq!(to_lamansh_unchecked::<U8, U8>(none), Vec::<u8>::new());

    let mut buffer = LamanshBuffer::new();
    update_buffer_unchecked::<U8, U8>(&elements, &mut buffer);
    assert_eq!(buffer.as_slice(), to_lamansh::<U8, U8>(&elements).unwrap().as_slice());
}
