use rquake::bsp::{BspHeader, Edge, Entry, Face, Texture, Vec3};
use rquake::bsp::parse_ledges;
use rquake::parse::{from_cstring, read_long, read_uchar, read_ulong, read_ushort, ParseError};

fn le32(v: i64) -> [u8; 4] {
    (v as u32).to_le_bytes()
}

#[test]
fn little_endian_readers() {
    let data = vec![0x01, 0x02, 0x03, 0x04, 0xFF, 0xFF, 0xFF, 0xFF];
    assert_eq!(read_uchar(&data, 2), 0x03);
    assert_eq!(read_ushort(&data, 0), 0x0201);
    assert_eq!(read_ulong(&data, 0), 0x04030201);
    assert_eq!(read_long(&data, 0), 0x04030201);
    assert_eq!(read_long(&data, 4), -1);
}

#[test]
fn cstring_stops_at_nul() {
    let data = vec![b'w', b'a', b'l', b'l', 0, b'x', b'y'];
    assert_eq!(from_cstring(&data).unwrap(), "wall");
}

#[test]
fn cstring_without_nul_takes_all() {
    let data = vec![b's', b'k', b'y'];
    assert_eq!(from_cstring(&data).unwrap(), "sky");
}

#[test]
fn cstring_decodes_utf8() {
    // A two-byte UTF-8 character before the NUL decodes to one character.
    let data = vec![b'a', 0xC3, 0xA9, 0];
    let s = from_cstring(&data).unwrap();
    assert_eq!(s, "a\u{e9}");
    assert_eq!(s.chars().count(), 2);
}

#[test]
fn cstring_rejects_invalid_utf8() {
    let data = vec![b'a', 0xFF, 0];
    assert_eq!(from_cstring(&data), Err(ParseError::InvalidUtf8));
}

#[test]
fn non_ascii_after_nul_is_ignored() {
    let data = vec![b'o', b'k', 0, 0xFF];
    assert_eq!(from_cstring(&data).unwrap(), "ok");
}

#[test]
fn entry_read_decodes_offset_and_size() {
    let mut data = Vec::new();
    data.extend_from_slice(&le32(100));
    data.extend_from_slice(&le32(-4));
    let e = Entry::read(&data, 0).unwrap();
    assert_eq!(e, Entry { offset: 100, size: -4 });
    assert_eq!(Entry::read(&data, 1), Err(ParseError::UnexpectedEnd));
}

#[test]
fn header_requires_version_29() {
    let mut data = Vec::new();
    data.extend_from_slice(&le32(29));
    for i in 0..30 {
        data.extend_from_slice(&le32(i));
    }
    let h = BspHeader::parse(&data).unwrap();
    assert_eq!(h.entities, Entry { offset: 0, size: 1 });
    assert_eq!(h.planes, Entry { offset: 2, size: 3 });
    assert_eq!(h.models, Entry { offset: 28, size: 29 });

    let mut bad = data.clone();
    bad[0] = 30;
    assert_eq!(BspHeader::parse(&bad), Err(ParseError::BadVersion));
    assert_eq!(BspHeader::parse(&vec![0u8; 10]), Err(ParseError::UnexpectedEnd));
}

#[test]
fn face_parse_decodes_records() {
    let mut data = Vec::new();
    // plane, front flag, ledge start, ledge count, texinfo,
    // type/base light, two light bytes, lightmap offset
    data.extend_from_slice(&1u16.to_le_bytes());
    data.extend_from_slice(&0u16.to_le_bytes());
    data.extend_from_slice(&5u32.to_le_bytes());
    data.extend_from_slice(&3u16.to_le_bytes());
    data.extend_from_slice(&2u16.to_le_bytes());
    data.push(7);
    data.push(8);
    data.push(9);
    data.push(10);
    data.extend_from_slice(&le32(-1));
    let faces = Face::parse(1, &data, 0).unwrap();
    assert_eq!(faces.len(), 1);
    let f = &faces[0];
    assert_eq!(f.plane, 1);
    assert!(f.front);
    assert_eq!(f.ledges_start, 5);
    assert_eq!(f.ledges_count, 3);
    assert_eq!(f.texture_info, 2);
    assert_eq!(f.type_light, 7);
    assert_eq!(f.base_light, 8);
    assert_eq!(f.light, [9, 10]);
    assert_eq!(f.light_map, -1);
    assert!(Face::parse(2, &data, 0).is_err());
}

#[test]
fn ledges_parse_signed() {
    let mut data = Vec::new();
    data.extend_from_slice(&le32(3));
    data.extend_from_slice(&le32(-7));
    let ledges = parse_ledges(2, &data, 0).unwrap();
    assert_eq!(ledges, vec![3, -7]);
    assert!(parse_ledges(3, &data, 0).is_err());
}

#[test]
fn edge_parse_resolves_vertices() {
    let vertices = vec![
        Vec3 { x: 0, y: 0, z: 0 },
        Vec3 { x: 1, y: 2, z: 3 },
        Vec3 { x: 4, y: 5, z: 6 },
    ];
    let mut data = Vec::new();
    data.extend_from_slice(&1u16.to_le_bytes());
    data.extend_from_slice(&2u16.to_le_bytes());
    let edges = Edge::parse(1, &vertices, &data, 0).unwrap();
    assert_eq!(edges[0].0, Vec3 { x: 1, y: 2, z: 3 });
    assert_eq!(edges[0].1, Vec3 { x: 4, y: 5, z: 6 });

    let mut bad = Vec::new();
    bad.extend_from_slice(&9u16.to_le_bytes());
    bad.extend_from_slice(&0u16.to_le_bytes());
    assert!(Edge::parse(1, &vertices, &bad, 0).is_err());
}

#[test]
fn texture_directory_roundtrip() {
    // Two slots: an unused one and a 2x2 texture named "ab".
    let mut data = Vec::new();
    data.extend_from_slice(&le32(2));
    data.extend_from_slice(&le32(-1));
    data.extend_from_slice(&le32(16)); // header at base + 16
    data.extend_from_slice(&[0u8; 4]); // padding up to the header
    // header: 16-byte name, width, height, four mip offsets (relative)
    let mut name = [0u8; 16];
    name[0] = b'a';
    name[1] = b'b';
    data.extend_from_slice(&name);
    data.extend_from_slice(&2u32.to_le_bytes());
    data.extend_from_slice(&2u32.to_le_bytes());
    data.extend_from_slice(&40u32.to_le_bytes());
    data.extend_from_slice(&44u32.to_le_bytes());
    data.extend_from_slice(&45u32.to_le_bytes());
    data.extend_from_slice(&45u32.to_le_bytes());
    // mip 0: 2x2, mip 1: 1x1, mips 2 and 3: empty
    data.extend_from_slice(&[11, 12, 13, 14]);
    data.push(15);
    let texs = Texture::parse_textures(&data, 0).unwrap();
    assert_eq!(texs.len(), 2);
    assert_eq!(texs[0].id, -1);
    assert_eq!(texs[1].id, 1);
    assert_eq!(texs[1].name, "ab");
    assert_eq!(texs[1].width, 2);
    assert_eq!(texs[1].height, 2);
    assert_eq!(texs[1].pictures[0].data, vec![11, 12, 13, 14]);
    assert_eq!(texs[1].pictures[1].data, vec![15]);
    assert_eq!(texs[1].pictures[2].width, 0);
    assert_eq!(texs[1].pictures[3].data.len(), 0);
}

#[test]
fn texture_with_utf8_name() {
    let mut data = Vec::new();
    data.extend_from_slice(&le32(1));
    data.extend_from_slice(&le32(8)); // header right after the directory
    let mut name = [0u8; 16];
    name[0] = 0xC3;
    name[1] = 0xA9;
    data.extend_from_slice(&name);
    data.extend_from_slice(&1u32.to_le_bytes());
    data.extend_from_slice(&1u32.to_le_bytes());
    data.extend_from_slice(&40u32.to_le_bytes());
    data.extend_from_slice(&41u32.to_le_bytes());
    data.extend_from_slice(&41u32.to_le_bytes());
    data.extend_from_slice(&41u32.to_le_bytes());
    data.push(9); // the 1x1 mip 0 pixel
    let texs = Texture::parse_textures(&data, 0).unwrap();
    assert_eq!(texs[0].name, "\u{e9}");
    assert_eq!(texs[0].name.chars().count(), 1);
}

#[test]
fn texture_directory_truncated_fails() {
    let mut data = Vec::new();
    data.extend_from_slice(&le32(1));
    data.extend_from_slice(&le32(100));
    assert!(Texture::parse_textures(&data, 0).is_err());
}

#[test]
fn oversize_texture_is_rejected() {
    let mut data = Vec::new();
    data.extend_from_slice(&le32(1));
    data.extend_from_slice(&le32(8)); // header right after the directory
    let mut name = [0u8; 16];
    name[0] = b'w';
    data.extend_from_slice(&name);
    data.extend_from_slice(&0x8000u32.to_le_bytes());
    data.extend_from_slice(&1u32.to_le_bytes());
    for _ in 0..4 {
        data.extend_from_slice(&40u32.to_le_bytes());
    }
    assert_eq!(Texture::parse_textures(&data, 0), Err(ParseError::Oversize));
}
