//! The validated arrays, the reusable buffer, the width codecs and the
//! chunk cursor.

use lamansh::array::LamanshArray;
use lamansh::array::LamanshSliceArray;
use lamansh::array::LamanshVecArray;
use lamansh::buffer::LamanshBuffer;
use lamansh::dyn_chunks::DynExactChunks;
use lamansh::encode::to_lamansh;
use lamansh::encode::ToLamanshErr;
use lamansh::sized::LamanshSized;
use lamansh::sized::LamanshU16;
use lamansh::sized::LamanshU24;
use lamansh::sized::LamanshU32;
use lamansh::sized::LamanshU64;
use lamansh::sized::LamanshU8;
use lamansh::sized::U8;

#[test]
fn array_value_overflow() {
    let mut array = LamanshVecArray::<U8, U8>::new();

    assert_eq!(
        array.push(vec![0u8; (u8::MAX as usize) + 1]),
        Err(ToLamanshErr::ValueOverflow)
    );
    assert_eq!(array.push(vec![0u8; u8::MAX as usize]), Ok(()));
}

#[test]
fn array_count_overflow() {
    let mut array =
        LamanshVecArray::<U8, U8>::array(vec![vec![0u8]; u8::MAX as usize]).unwrap();

    assert_eq!(
        array.push(vec![0u8; u8::MAX as usize]),
        Err(ToLamanshErr::CountOverflow)
    );
    let _e = array.pop();
    assert_eq!(array.push(vec![0u8; u8::MAX as usize]), Ok(()));
}

#[test]
fn test_array() {
    let mut array = LamanshSliceArray::<U8, U8>::new();

    assert_eq!(array.push(&b"12"[..]), Ok(()));
    assert_eq!(array.push(&b"12232"[..]), Ok(()));
    assert_eq!(array.push(&b"5463"[..]), Ok(()));

    assert_eq!(
        array.to_lamansh(),
        to_lamansh::<U8, U8>(&[&b"12"[..], &b"12232"[..], &b"5463"[..]]).unwrap()
    );
}

#[test]
fn test_clear_array_and_big_endigian() {
    // The write must overwrite every prior byte of its field, big-endian.
    let mut array: Vec<u8> = vec![255, 0, 2, 125];

    LamanshU32::write_usize(256, &mut array, 0);

    assert_eq!(array, vec![0, 0, 1, 0]);
}

#[test]
fn array_append_and_remove() {
    let mut array = LamanshVecArray::<U8, U8>::new();
    let mut incoming = vec![b"ab".to_vec(), b"c".to_vec()];

    assert_eq!(array.append(&mut incoming), Ok(()));
    assert!(incoming.is_empty());

    assert_eq!(array.remove(0), b"ab".to_vec());
    assert_eq!(array.pop(), Some(b"c".to_vec()));
    assert_eq!(array.pop(), None);
}

#[test]
fn array_append_rejects_oversized_element() {
    let mut array = LamanshVecArray::<U8, U8>::new();
    let mut incoming = vec![b"ok".to_vec(), vec![0u8; 256]];

    assert_eq!(array.append(&mut incoming), Err(ToLamanshErr::ValueOverflow));
    // A rejected append moves nothing.
    assert_eq!(incoming.len(), 2);
    assert_eq!(array.pop(), None);
}

#[test]
fn array_ctor_validates() {
    assert!(matches!(
        LamanshVecArray::<U8, U8>::array(vec![vec![]; 256]),
        Err(ToLamanshErr::CountOverflow)
    ));
    assert!(matches!(
        LamanshVecArray::<U8, U8>::array(vec![vec![0u8; 256]]),
        Err(ToLamanshErr::ValueOverflow)
    ));
    assert!(LamanshSliceArray::<U8, U8>::array(vec![&b"ab"[..]]).is_ok());
}

#[test]
fn array_update_buffer() {
    let mut buffer = LamanshBuffer::array(vec![9, 9, 9]);

    // An empty validated array encodes to an empty buffer, not an error.
    let empty = LamanshVecArray::<U8, U8>::new();
    empty.update_buffer(&mut buffer);
    assert_eq!(buffer.len(), 0);
    assert_eq!(empty.to_lamansh(), Vec::<u8>::new());

    let mut array = LamanshVecArray::<U8, U8>::new();
    assert_eq!(array.push(b"xy".to_vec()), Ok(()));
    array.update_buffer(&mut buffer);
    assert_eq!(
        buffer.as_slice(),
        to_lamansh::<U8, U8>(&[&b"xy"[..]]).unwrap().as_slice()
    );

    let mut slices = LamanshSliceArray::<U8, U8>::new();
    assert_eq!(slices.push(&b"z"[..]), Ok(()));
    slices.update_buffer(&mut buffer);
    assert_eq!(
        buffer.as_slice(),
        to_lamansh::<U8, U8>(&[&b"z"[..]]).unwrap().as_slice()
    );
    slices.clear();
    slices.update_buffer(&mut buffer);
    assert_eq!(buffer.len(), 0);
}

#[test]
fn buffer_resizing() {
    let mut buffer = LamanshBuffer::array(vec![1, 2, 3, 4]);
    assert_eq!(buffer.len(), 4);

    buffer.set_len(2);
    assert_eq!(buffer.as_slice(), &[1, 2][..]);

    buffer.set_len(4);
    assert_eq!(buffer.len(), 4);
    assert_eq!(&buffer.as_slice()[..2], &[1, 2][..]);

    buffer.clear();
    assert_eq!(buffer.len(), 0);

    let fresh = LamanshBuffer::with_capacity(32);
    assert_eq!(fresh.len(), 0);
    assert_eq!(fresh.into_vec(), Vec::<u8>::new());
}

#[test]
fn width_codec_read_write() {
    let mut buf: Vec<u8> = vec![0; 8];

    LamanshU8::write_usize(0xA5, &mut buf, 0);
    assert_eq!(buf[0], 0xA5);
    assert_eq!(LamanshU8::read_usize(&buf[..1]), 0xA5);

    LamanshU16::write_usize(0x1234, &mut buf, 0);
    assert_eq!(&buf[..2], &[0x12, 0x34][..]);
    assert_eq!(LamanshU16::read_usize(&buf[..2]), 0x1234);

    LamanshU24::write_usize(0x00AB_CDEF, &mut buf, 0);
    assert_eq!(&buf[..3], &[0xAB, 0xCD, 0xEF][..]);
    assert_eq!(LamanshU24::read_usize(&buf[..3]), 0x00AB_CDEF);

    LamanshU32::write_usize(0xDEAD_BEEF, &mut buf, 0);
    assert_eq!(&buf[..4], &[0xDE, 0xAD, 0xBE, 0xEF][..]);
    assert_eq!(LamanshU32::read_usize(&buf[..4]), 0xDEAD_BEEF);

    LamanshU64::write_usize(0x0102_0304_0506_0708, &mut buf, 0);
    assert_eq!(&buf[..8], &[1, 2, 3, 4, 5, 6, 7, 8][..]);
    assert_eq!(LamanshU64::read_usize(&buf[..8]), 0x0102_0304_0506_0708);
}

#[test]
fn width_codec_limits() {
    assert_eq!(LamanshU8::bits(), 8);
    assert_eq!(LamanshU8::byted(), 1);
    assert_eq!(LamanshU8::max_value(), 255);

    assert_eq!(LamanshU16::bits(), 16);
    assert_eq!(LamanshU16::byted(), 2);
    assert_eq!(LamanshU16::max_value(), 65535);

    assert_eq!(LamanshU24::bits(), 24);
    assert_eq!(LamanshU24::byted(), 3);
    assert_eq!(LamanshU24::max_value(), 16777215);

    assert_eq!(LamanshU32::bits(), 32);
    assert_eq!(LamanshU32::byted(), 4);
    assert_eq!(LamanshU32::max_value(), 4294967295);

    assert_eq!(LamanshU64::bits(), 64);
    assert_eq!(LamanshU64::byted(), 8);
    assert_eq!(LamanshU64::max_value(), usize::MAX);
}

#[test]
fn chunk_cursor() {
    let data: [u8; 5] = [1, 2, 3, 4, 5];
    let mut chunks = DynExactChunks::array(&data);

    assert_eq!(chunks.next_usize(2), Some(&[1u8, 2][..]));
    assert_eq!(chunks.next_usize(0), Some(&[][..]));
    assert_eq!(chunks.next_usize(4), None);
    assert_eq!(chunks.next_usize(3), Some(&[3u8, 4, 5][..]));
    assert_eq!(chunks.remainder(), Some(&[][..]));
}
