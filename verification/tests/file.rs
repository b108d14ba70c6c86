use kwik::file::binary::{check_chunk, encode_chunk, ReadChunk, SizedChunk, WriteChunk};
use kwik::file::csv::{RowCount, RowData};
use kwik::file::hash;
use kwik::file::text;

fn chunk_of<T: WriteChunk>(value: &T) -> Vec<u8> {
    let mut buf = Vec::new();
    value.as_chunk(&mut buf).unwrap();
    buf
}

#[test]
fn binary_chunk_sizes() {
    assert_eq!(u8::chunk_size(), 1);
    assert_eq!(u16::chunk_size(), 2);
    assert_eq!(i32::chunk_size(), 4);
    assert_eq!(u64::chunk_size(), 8);
    assert_eq!(i128::chunk_size(), 16);
    assert_eq!(bool::chunk_size(), 1);
    assert_eq!(char::chunk_size(), 4);
    assert_eq!(Option::<u32>::chunk_size(), 5);
}

#[test]
fn binary_chunks_are_little_endian() {
    assert_eq!(chunk_of(&0x1234u16), vec![0x34, 0x12]);
    assert_eq!(chunk_of(&0x0102_0304u32), vec![4, 3, 2, 1]);
    assert_eq!(chunk_of(&-1i16), vec![0xff, 0xff]);
    assert_eq!(chunk_of(&true), vec![1]);
    assert_eq!(chunk_of(&'A'), vec![65]);
}

#[test]
fn binary_chunks_round_trip() {
    let values: [u64; 3] = [0, 42, u64::MAX];
    for value in values {
        let bytes = chunk_of(&value);
        assert_eq!(u64::from_chunk(&bytes).unwrap(), value);
    }

    let values: [i64; 3] = [i64::MIN, -7, i64::MAX];
    for value in values {
        let bytes = chunk_of(&value);
        assert_eq!(i64::from_chunk(&bytes).unwrap(), value);
    }

    let bytes = chunk_of(&-12345i32);
    assert_eq!(i32::from_chunk(&bytes).unwrap(), -12345);

    let bytes = chunk_of(&(u128::MAX - 5));
    assert_eq!(u128::from_chunk(&bytes).unwrap(), u128::MAX - 5);

    assert!(!bool::from_chunk(&[0]).unwrap());
    assert!(bool::from_chunk(&[2]).unwrap());
}

#[test]
fn binary_reads_option_chunks() {
    assert_eq!(Option::<u16>::from_chunk(&[0, 9, 9]).unwrap(), None);
    assert_eq!(Option::<u16>::from_chunk(&[1, 0x34, 0x12]).unwrap(), Some(0x1234));
}

#[test]
fn binary_reads_char_chunks_from_first_byte() {
    assert_eq!(char::from_chunk(&[66, 0, 0, 0]).unwrap(), 'B');
}

#[test]
fn binary_encodes_whole_chunks() {
    assert_eq!(encode_chunk(&0x0102u16, 1).unwrap(), vec![2, 1]);

    let err = encode_chunk(&'x', 3).unwrap_err();
    assert_eq!(err.kind(), std::io::ErrorKind::InvalidData);
    assert_eq!(err.to_string(), "Invalid chunk size at chunk 3");
}

#[test]
fn csv_row_data_fields() {
    let mut row = RowData::default();
    assert!(row.is_empty());
    assert_eq!(row.size(), 0);

    row.push("ab");
    row.push("");
    row.push("héllo");

    assert_eq!(row.len(), 3);
    assert_eq!(row.size(), 2 + 0 + 6 + 3);
    assert_eq!(row.get(0).unwrap(), "ab");
    assert_eq!(row.get(2).unwrap(), "héllo");

    let err = row.get(3).unwrap_err();
    assert_eq!(err.kind(), std::io::ErrorKind::InvalidData);
    assert_eq!(err.to_string(), "Invalid CSV column 3");

    row.clear();
    assert!(row.is_empty());
}

#[test]
fn hash_hex_formatting() {
    assert_eq!(hash::to_hex(&[10, 20, 30]), "0a141e");
    assert_eq!(hash::to_hex(&[]), "");
    assert_eq!(hash::to_hex(&[0xff, 0x00]), "ff00");
}

#[test]
fn hash_digests_of_known_inputs() {
    assert_eq!(
        hash::sha256_hex(b"abc"),
        "ba7816bf8f01cfea414140de5dae2223b00361a396177a9cb410ff61f20015ad"
    );
    assert_eq!(
        hash::sha512_hex(b"abc"),
        "ddaf35a193617abacc417349ae20413112e6fa4e89a97ea20a9eeee64b55d39a2192992a274fc1a836ba3c23a3feebbd454d4423643ce80e2a9ac94fa54ca49f"
    );
    assert_eq!(hash::md5_hex(b""), "d41d8cd98f00b204e9800998ecf8427e");
    assert_eq!(hash::md5_hex(b"abc"), "900150983cd24fb0d6963f7d28e17f72");
}

#[test]
fn text_strips_line_endings() {
    assert_eq!(text::strip_line_ending("abc\n"), "abc");
    assert_eq!(text::strip_line_ending("abc\r\n"), "abc");
    assert_eq!(text::strip_line_ending("abc"), "abc");
    assert_eq!(text::strip_line_ending("abc\r"), "abc\r");
    assert_eq!(text::strip_line_ending("\n"), "");
    assert_eq!(text::strip_line_ending(""), "");
}

struct Pair {
    a: u16,
    b: u8,
}

impl SizedChunk for Pair {
    fn chunk_size() -> usize {
        3
    }
}

impl ReadChunk for Pair {
    fn from_chunk(buf: &[u8]) -> std::io::Result<Self> {
        Ok(Pair {
            a: u16::from_chunk(buf)?,
            b: u8::from_chunk(&buf[2..])?,
        })
    }
}

impl WriteChunk for Pair {
    fn as_chunk(&self, buf: &mut Vec<u8>) -> std::io::Result<()> {
        self.a.as_chunk(buf)?;
        self.b.as_chunk(buf)
    }
}

#[test]
fn binary_user_chunks_round_trip() {
    let bytes = encode_chunk(&Pair { a: 0x0102, b: 7 }, 1).unwrap();
    assert_eq!(bytes, vec![2, 1, 7]);

    let pair = Pair::from_chunk(&bytes).unwrap();
    assert_eq!((pair.a, pair.b), (0x0102, 7));

    let some = Option::<Pair>::from_chunk(&[1, 2, 1, 7]).unwrap().unwrap();
    assert_eq!((some.a, some.b), (0x0102, 7));
}

#[test]
fn binary_check_chunk_keeps_one_chunk() {
    assert_eq!(check_chunk::<u32>(vec![1, 2, 3, 4], 0).unwrap(), vec![1, 2, 3, 4]);
    let err = check_chunk::<u32>(vec![1, 2, 3], 5).unwrap_err();
    assert_eq!(err.kind(), std::io::ErrorKind::InvalidData);
    assert_eq!(err.to_string(), "Invalid chunk size at chunk 5");
}

#[test]
fn csv_header_only_first() {
    let mut rows = RowCount::new();
    assert!(rows.header());
    assert_eq!(rows.row(), 2);
    assert!(!rows.header());
    assert_eq!(rows.row(), 3);

    let mut rows = RowCount::new();
    assert_eq!(rows.row(), 1);
    assert!(!rows.header());
}
