use std::io::Write;

use nbt_reader::codec::NBTParser;
use nbt_reader::container::{has_gzip_magic, unpack};
use nbt_reader::error::NbtError;
use nbt_reader::reader::Reader;
use nbt_reader::tag::Tag;

fn parser(bytes: &[u8]) -> NBTParser {
    NBTParser::new(bytes.to_vec())
}

fn named(name: &str, value: Tag) -> Tag {
    Tag::Named(Box::new(Tag::String(name.to_string())), Box::new(value))
}

#[test]
fn int_encodes_big_endian() {
    assert_eq!(Tag::Int(1).as_bytes(), Ok(vec![0, 0, 0, 1]));
    assert_eq!(Tag::Int(-2).as_bytes(), Ok(vec![0xff, 0xff, 0xff, 0xfe]));
    assert_eq!(Tag::Short(0x0102).as_bytes(), Ok(vec![1, 2]));
    assert_eq!(Tag::Long(1).as_bytes(), Ok(vec![0, 0, 0, 0, 0, 0, 0, 1]));
    assert_eq!(Tag::Byte(-1).as_bytes(), Ok(vec![0xff]));
    assert_eq!(Tag::End.as_bytes(), Ok(vec![0]));
}

#[test]
fn float_bits_encode_big_endian() {
    assert_eq!(Tag::Float(1.0f32.to_bits()).as_bytes(), Ok(vec![0x3f, 0x80, 0, 0]));
    assert_eq!(
        Tag::Double(1.0f64.to_bits()).as_bytes(),
        Ok(vec![0x3f, 0xf0, 0, 0, 0, 0, 0, 0])
    );
}

#[test]
fn empty_compound_decodes_to_end() {
    let mut p = parser(&[0]);
    assert_eq!(p.read_tag(10), Ok(Tag::Compound(vec![Tag::End])));
    assert_eq!(p.reader.get_idx(), 1);
}

#[test]
fn int_list_decodes() {
    let mut p = parser(&[3, 0, 0, 0, 2, 0, 0, 0, 0, 0, 0, 0, 2]);
    assert_eq!(p.read_tag(9), Ok(Tag::List(3, vec![Tag::Int(0), Tag::Int(2)])));
    assert_eq!(p.reader.get_idx(), 13);
}

#[test]
fn empty_list_reads_nothing_more() {
    let mut p = parser(&[99, 0, 0, 0, 0, 7]);
    assert_eq!(p.read_tag(9), Ok(Tag::List(99, vec![])));
    assert_eq!(p.reader.get_idx(), 5);
}

#[test]
fn named_empty_compound_at_top() {
    let mut p = parser(&[0x0a, 0, 0, 0]);
    assert_eq!(p.parse(), Ok(named("", Tag::Compound(vec![Tag::End]))));
}

#[test]
fn lone_end_at_top() {
    let mut p = parser(&[0, 5]);
    assert_eq!(p.parse(), Ok(Tag::End));
    assert_eq!(p.reader.get_idx(), 1);
}

#[test]
fn truncated_int_is_out_of_bounds() {
    let mut p = parser(&[0, 0, 1]);
    assert_eq!(p.read_tag(3), Err(NbtError::OutOfBounds(0)));
    let mut p = parser(&[3, 0, 0, 0, 0, 1]);
    assert_eq!(p.parse(), Err(NbtError::OutOfBounds(3)));
}

#[test]
fn empty_buffer_is_out_of_bounds() {
    assert_eq!(parser(&[]).parse(), Err(NbtError::OutOfBounds(0)));
}

#[test]
fn unknown_id_reads_no_payload() {
    let mut p = parser(&[99, 0, 0]);
    assert_eq!(p.parse(), Err(NbtError::UnknownTagId(99, 1)));
    assert_eq!(p.reader.get_idx(), 1);
    let mut p = parser(&[1, 2, 3]);
    assert_eq!(p.read_tag(13), Err(NbtError::UnknownTagId(13, 0)));
    assert_eq!(p.reader.get_idx(), 0);
}

#[test]
fn negative_length_is_rejected() {
    let mut p = parser(&[0xff, 0xff, 0xff, 0xff]);
    assert_eq!(p.read_tag(7), Err(NbtError::MalformedLength(-1, 4)));
    let mut p = parser(&[0xff, 0xfe]);
    assert_eq!(p.read_tag(8), Err(NbtError::MalformedLength(-2, 2)));
}

#[test]
fn invalid_utf8_is_rejected() {
    let mut p = parser(&[0, 2, 0xc3, 0x28]);
    assert_eq!(p.read_tag(8), Err(NbtError::InvalidEncoding(2)));
}

#[test]
fn utf8_string_decodes() {
    let mut p = parser(&[0, 3, b'a', 0xc3, 0xa9]);
    assert_eq!(p.read_tag(8), Ok(Tag::String("a\u{e9}".to_string())));
}

#[test]
fn long_string_does_not_encode() {
    let s = "x".repeat(40000);
    assert_eq!(Tag::String(s).as_bytes(), Err(NbtError::LengthOverflow(40000)));
    assert_eq!(
        Tag::String("ab".to_string()).as_bytes(),
        Ok(vec![0, 2, b'a', b'b'])
    );
}

#[test]
fn list_children_are_bare_payloads() {
    let t = Tag::List(1, vec![Tag::Byte(5), Tag::Byte(6)]);
    assert_eq!(t.as_bytes(), Ok(vec![1, 0, 0, 0, 2, 5, 6]));
}

#[test]
fn named_tag_encodes_id_name_value() {
    let t = named("hi", Tag::Short(7));
    assert_eq!(t.as_bytes(), Ok(vec![2, 0, 2, b'h', b'i', 0, 7]));
    assert_eq!(t.id(), 2);
}

#[test]
fn ids_of_variants() {
    assert_eq!(Tag::End.id(), 0);
    assert_eq!(Tag::Double(0).id(), 6);
    assert_eq!(Tag::ByteArray(vec![]).id(), 7);
    assert_eq!(Tag::Compound(vec![Tag::End]).id(), 10);
    assert_eq!(Tag::IntArray(vec![]).id(), 11);
    assert_eq!(Tag::LongArray(vec![]).id(), 12);
}

fn sample() -> Tag {
    named(
        "root",
        Tag::Compound(vec![
            named("b", Tag::Byte(-3)),
            named("s", Tag::Short(-300)),
            named("i", Tag::Int(123456)),
            named("l", Tag::Long(-9_000_000_000)),
            named("f", Tag::Float(0.5f32.to_bits())),
            named("d", Tag::Double(0.25f64.to_bits())),
            named("ba", Tag::ByteArray(vec![1, 2, 255])),
            named("str", Tag::String("h\u{e9}llo".to_string())),
            named("li", Tag::List(3, vec![Tag::Int(1), Tag::Int(-1)])),
            named("le", Tag::List(0, vec![])),
            named(
                "lc",
                Tag::List(
                    10,
                    vec![
                        Tag::Compound(vec![named("x", Tag::Int(1)), Tag::End]),
                        Tag::Compound(vec![Tag::End]),
                    ],
                ),
            ),
            named("ia", Tag::IntArray(vec![7, -7])),
            named("la", Tag::LongArray(vec![1 << 40, -1])),
            named("c", Tag::Compound(vec![named("", Tag::String(String::new())), Tag::End])),
            Tag::End,
        ]),
    )
}

#[test]
fn round_trip_keeps_tree() {
    let t = sample();
    let bytes = t.as_bytes().unwrap();
    let mut p = NBTParser::new(bytes.clone());
    assert_eq!(p.parse(), Ok(sample()));
    assert_eq!(p.reader.get_idx(), bytes.len());
}

#[test]
fn reader_primitives() {
    let mut r = Reader::new(vec![0x80, 1, 2, 0, 0, 0, 3, 0, 0, 0, 0, 0, 0, 0, 4, 0x3f, 0x80, 0, 0]);
    assert_eq!(r.read_byte(), Ok(-128));
    assert_eq!(r.read_short(), Ok(0x0102));
    assert_eq!(r.read_int(), Ok(3));
    assert_eq!(r.read_long(), Ok(4));
    assert_eq!(r.get_idx(), 15);
    assert_eq!(r.read_float(), Ok(1.0f32.to_bits()));
    assert_eq!(r.read(), Err(NbtError::OutOfBounds(19)));
    assert_eq!(r.get_idx(), 19);
}

#[test]
fn reader_double_and_bytes() {
    let mut r = Reader::new(vec![0x40, 0, 0, 0, 0, 0, 0, 0, 9, 8]);
    assert_eq!(f64::from_bits(r.read_double().unwrap()), 2.0);
    assert_eq!(r.read_bytes(2), Ok(vec![9, 8]));
    assert_eq!(r.read_short(), Err(NbtError::OutOfBounds(10)));
}

#[test]
fn peek_twice_stays_put() {
    let r = Reader::new(vec![7, 8]);
    assert_eq!(r.peek(), Ok(7));
    assert_eq!(r.peek(), Ok(7));
    assert_eq!(r.get_idx(), 0);
    assert_eq!(Reader::new(vec![]).peek(), Err(NbtError::OutOfBounds(0)));
}

#[test]
fn gzip_magic_is_recognised() {
    assert!(has_gzip_magic(&[0x1f, 0x8b, 0x08, 0]));
    assert!(!has_gzip_magic(&[0x1f, 0x8b]));
    assert!(!has_gzip_magic(&[0x0a, 0, 0, 0]));
}

#[test]
fn plain_data_is_not_unpacked() {
    assert_eq!(unpack(vec![0x0a, 0, 0, 0]), Ok(vec![0x0a, 0, 0, 0]));
}

#[test]
fn gzipped_file_is_unpacked_and_parsed() {
    let raw = sample().as_bytes().unwrap();
    let mut enc = flate2::write::GzEncoder::new(Vec::new(), flate2::Compression::default());
    enc.write_all(&raw).unwrap();
    let packed = enc.finish().unwrap();
    assert!(has_gzip_magic(&packed));
    assert_eq!(unpack(packed.clone()), Ok(raw));
    let mut p = NBTParser::from_file_bytes(packed).unwrap();
    assert_eq!(p.parse(), Ok(sample()));
}

#[test]
fn broken_gzip_is_an_error() {
    let bad = vec![0x1f, 0x8b, 0x08, 0, 1, 2, 3];
    assert_eq!(unpack(bad), Err(NbtError::Decompression));
}

#[test]
fn negative_list_count_is_rejected() {
    let mut p = parser(&[3, 0xff, 0xff, 0xff, 0xfe]);
    assert_eq!(p.read_tag(9), Err(NbtError::MalformedLength(-2, 5)));
}

#[test]
fn short_list_header_is_out_of_bounds() {
    assert_eq!(parser(&[]).read_tag(9), Err(NbtError::OutOfBounds(0)));
    assert_eq!(parser(&[3, 0, 0]).read_tag(9), Err(NbtError::OutOfBounds(1)));
}

#[test]
fn length_past_end_is_out_of_bounds() {
    assert_eq!(parser(&[0, 0, 0, 3, 1, 2]).read_tag(7), Err(NbtError::OutOfBounds(4)));
    assert_eq!(parser(&[0, 3, b'a']).read_tag(8), Err(NbtError::OutOfBounds(2)));
    assert_eq!(parser(&[0, 0, 0, 2, 0, 0, 0, 1]).read_tag(11), Err(NbtError::OutOfBounds(8)));
    assert_eq!(parser(&[0, 0, 0, 1, 0, 0, 0, 1]).read_tag(12), Err(NbtError::OutOfBounds(4)));
}

#[test]
fn missing_compound_terminator_is_out_of_bounds() {
    let mut p = parser(&[0x01, 0x00, 0x00, 0x05]);
    assert_eq!(p.read_tag(10), Err(NbtError::OutOfBounds(4)));
}

#[test]
fn truncated_named_value_is_out_of_bounds() {
    let mut p = parser(&[0x03, 0x00, 0x00, 0x00, 0x00, 0x01]);
    assert_eq!(p.parse(), Err(NbtError::OutOfBounds(3)));
}

#[test]
fn every_cut_of_an_encoding_is_out_of_bounds() {
    let bytes = sample().as_bytes().unwrap();
    for cut in 0..bytes.len() {
        let mut p = NBTParser::new(bytes[..cut].to_vec());
        match p.parse() {
            Err(NbtError::OutOfBounds(_)) => {}
            other => panic!("cut at {}: {:?}", cut, other),
        }
    }
}

#[test]
fn unknown_payload_id_keeps_cursor() {
    let mut p = parser(&[1, 2, 3]);
    assert_eq!(p.read_tag(-1), Err(NbtError::UnknownTagId(-1, 0)));
    assert_eq!(p.reader.get_idx(), 0);
}

#[test]
fn compound_entries_keep_their_order() {
    let c = Tag::Compound(vec![named("z", Tag::Byte(1)), named("a", Tag::Byte(2)), Tag::End]);
    let bytes = c.as_bytes().unwrap();
    let mut p = NBTParser::new(bytes.clone());
    assert_eq!(
        p.read_compound(),
        Ok(Tag::Compound(vec![named("z", Tag::Byte(1)), named("a", Tag::Byte(2)), Tag::End]))
    );
    assert_eq!(p.reader.get_idx(), bytes.len());
}

#[test]
fn named_tag_with_unknown_id_reads_only_the_id() {
    let mut p = parser(&[0x63, 0, 0]);
    assert_eq!(p.read_named_tag(), Err(NbtError::UnknownTagId(0x63, 1)));
    assert_eq!(p.reader.get_idx(), 1);
}
