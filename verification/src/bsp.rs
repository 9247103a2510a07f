//! The decoded BSP level model consumed by the baker, and the byte-level
//! parsers for its integer-valued records. World positions and
//! texture-projection vectors are kept in integer units; the float-valued
//! lumps of the on-disk format are converted to this model by the caller
//! that reads the file.

use vstd::prelude::*;
use crate::parse::{
    cstr_chars, cstr_ok, from_cstring, le16, le32, read_long, read_uchar, read_ulong, read_ushort,
    signed32, ParseError,
};

verus! {

/// A point or direction in world space, in integer units.
#[derive(Debug, Clone, Copy, PartialEq, Eq, Structural)]
pub struct Vec3 {
    pub x: i32,
    pub y: i32,
    pub z: i32,
}

/// An edge: two absolute vertex positions.
#[derive(Debug, Clone, Copy, PartialEq, Eq, Structural)]
pub struct Edge(pub Vec3, pub Vec3);

/// Texture-space projection of a face: two basis vectors with their
/// distances, the texture it uses, and the animation flag.
#[derive(Debug, Clone, Copy, PartialEq, Eq, Structural)]
pub struct TextureInfo {
    pub vector_s: Vec3,
    pub dist_s: i32,
    pub vector_t: Vec3,
    pub dist_t: i32,
    pub texture: usize,
    pub animated: bool,
}

/// A splitting plane of the level.
#[derive(Debug, Clone, Copy, PartialEq, Eq, Structural)]
pub struct Plane {
    pub normal: Vec3,
    pub distance: i32,
    pub kind: i32,
}

/// A sub-model of the level: its bounds, its origin, and the range of
/// faces that belong to it.
#[derive(Debug, Clone, Copy, PartialEq, Eq)]
pub struct Model {
    pub bound: (Vec3, Vec3),
    pub origin: Vec3,
    pub faces_start: usize,
    pub faces_count: usize,
}

/// A polygon of the level: its plane, its run of ledges, its texture
/// projection, and its lighting data.
#[derive(Debug, Clone, Copy, PartialEq, Eq)]
pub struct Face {
    pub plane: usize,
    pub front: bool,
    pub ledges_start: usize,
    pub ledges_count: usize,
    pub texture_info: usize,
    pub type_light: u8,
    pub base_light: u8,
    pub light: [u8; 2],
    pub light_map: i32,
}

/// One mip level of a texture: palette-indexed pixels, row-major.
#[derive(Debug, Clone, PartialEq, Eq)]
pub struct Picture {
    pub width: u32,
    pub height: u32,
    pub data: Vec<u8>,
}

/// A wall texture: its directory id (`-1` when unused), its name, and its
/// four mip pictures.
#[derive(Debug, Clone, PartialEq, Eq)]
pub struct Texture {
    pub id: i32,
    pub name: String,
    pub width: u32,
    pub height: u32,
    pub pictures: [Picture; 4],
}

/// The decoded level: everything the baker reads.
pub struct BspFile {
    pub light_maps: Vec<u8>,
    pub textures: Vec<Texture>,
    pub texture_info: Vec<TextureInfo>,
    pub edges: Vec<Edge>,
    pub ledges: Vec<i32>,
    pub planes: Vec<Plane>,
    pub faces: Vec<Face>,
    pub models: Vec<Model>,
}

/// A directory entry of the BSP file: byte offset and byte size of a lump.
#[derive(Debug, Clone, Copy, PartialEq, Eq, Structural)]
pub struct Entry {
    pub offset: i32,
    pub size: i32,
}

/// The BSP directory: one entry per lump, in file order.
#[derive(Debug, Clone, Copy, PartialEq, Eq, Structural)]
pub struct BspHeader {
    pub entities: Entry,
    pub planes: Entry,
    pub wall_textures: Entry,
    pub vertices: Entry,
    pub visibility: Entry,
    pub nodes: Entry,
    pub texture_info: Entry,
    pub faces: Entry,
    pub light_maps: Entry,
    pub clip_nodes: Entry,
    pub leaves: Entry,
    pub face_list: Entry,
    pub edges: Entry,
    pub ledges: Entry,
    pub models: Entry,
}

/// The directory entry decoded at `pos`.
pub open spec fn spec_entry(b: Seq<u8>, pos: int) -> Entry {
    Entry {
        offset: signed32(le32(b, pos)) as i32,
        size: signed32(le32(b, pos + 4)) as i32,
    }
}

/// The face record decoded at `pos`.
pub open spec fn spec_face(b: Seq<u8>, pos: int) -> Face {
    Face {
        plane: le16(b, pos) as usize,
        front: le16(b, pos + 2) == 0,
        ledges_start: le32(b, pos + 4) as usize,
        ledges_count: le16(b, pos + 8) as usize,
        texture_info: le16(b, pos + 10) as usize,
        type_light: b[pos + 12],
        base_light: b[pos + 13],
        light: [b[pos + 14], b[pos + 15]],
        light_map: signed32(le32(b, pos + 16)) as i32,
    }
}

/// Byte size of a face record.
pub const SIZE_FACE: usize = 2 + 2 + 4 + 2 + 2 + 4 + 4;

impl Entry {
    /// Decode one directory entry.
    pub fn read(data: &Vec<u8>, pos: usize) -> (r: Result<Entry, ParseError>)
        ensures
            r is Ok <==> pos + 8 <= data.len(),
            r matches Ok(e) ==> e == spec_entry(data@, pos as int),
            r is Err ==> r == Result::<Entry, ParseError>::Err(ParseError::UnexpectedEnd),
    {
        if pos > data.len() || data.len() - pos < 8 {
            return Err(ParseError::UnexpectedEnd);
        }
        Ok(Entry { offset: read_long(data, pos), size: read_long(data, pos + 4) })
    }
}

impl BspHeader {
    /// Decode the version word and the fifteen directory entries at the
    /// start of a BSP file. Fails exactly when the buffer is too short or
    /// the version is not 29.
    pub fn parse(data: &Vec<u8>) -> (r: Result<BspHeader, ParseError>)
        ensures
            r is Ok <==> 4 + 15 * 8 <= data.len() && signed32(le32(data@, 0)) == 29,
            r matches Ok(h) ==> {
                &&& h.entities == spec_entry(data@, 4)
                &&& h.planes == spec_entry(data@, 12)
                &&& h.wall_textures == spec_entry(data@, 20)
                &&& h.vertices == spec_entry(data@, 28)
                &&& h.visibility == spec_entry(data@, 36)
                &&& h.nodes == spec_entry(data@, 44)
                &&& h.texture_info == spec_entry(data@, 52)
                &&& h.faces == spec_entry(data@, 60)
                &&& h.light_maps == spec_entry(data@, 68)
                &&& h.clip_nodes == spec_entry(data@, 76)
                &&& h.leaves == spec_entry(data@, 84)
                &&& h.face_list == spec_entry(data@, 92)
                &&& h.edges == spec_entry(data@, 100)
                &&& h.ledges == spec_entry(data@, 108)
                &&& h.models == spec_entry(data@, 116)
            },
    {
        if data.len() < 4 + 15 * 8 {
            return Err(ParseError::UnexpectedEnd);
        }
        let version = read_long(data, 0);
        if version != 29 {
            return Err(ParseError::BadVersion);
        }
        Ok(
            BspHeader {
                entities: Entry { offset: read_long(data, 4), size: read_long(data, 8) },
                planes: Entry { offset: read_long(data, 12), size: read_long(data, 16) },
                wall_textures: Entry { offset: read_long(data, 20), size: read_long(data, 24) },
                vertices: Entry { offset: read_long(data, 28), size: read_long(data, 32) },
                visibility: Entry { offset: read_long(data, 36), size: read_long(data, 40) },
                nodes: Entry { offset: read_long(data, 44), size: read_long(data, 48) },
                texture_info: Entry { offset: read_long(data, 52), size: read_long(data, 56) },
                faces: Entry { offset: read_long(data, 60), size: read_long(data, 64) },
                light_maps: Entry { offset: read_long(data, 68), size: read_long(data, 72) },
                clip_nodes: Entry { offset: read_long(data, 76), size: read_long(data, 80) },
                leaves: Entry { offset: read_long(data, 84), size: read_long(data, 88) },
                face_list: Entry { offset: read_long(data, 92), size: read_long(data, 96) },
                edges: Entry { offset: read_long(data, 100), size: read_long(data, 104) },
                ledges: Entry { offset: read_long(data, 108), size: read_long(data, 112) },
                models: Entry { offset: read_long(data, 116), size: read_long(data, 120) },
            },
        )
    }
}

impl Face {
    /// Decode `count` consecutive face records starting at `pos`. Fails
    /// exactly when the buffer is too short.
    pub fn parse(count: usize, data: &Vec<u8>, pos: usize) -> (r: Result<Vec<Face>, ParseError>)
        requires
            count <= 0x0100_0000,
        ensures
            r is Ok <==> pos + count * SIZE_FACE <= data.len(),
            r matches Ok(faces) ==> {
                &&& faces@.len() == count
                &&& forall|i: int|
                    0 <= i < count ==> faces@[i] == spec_face(data@, pos + i * SIZE_FACE)
            },
            r is Err ==> r == Result::<Vec<Face>, ParseError>::Err(ParseError::UnexpectedEnd),
    {
        if pos > data.len() || (data.len() - pos) / SIZE_FACE < count {
            proof {
                if pos + count * SIZE_FACE <= data.len() {
                    vstd::arithmetic::div_mod::lemma_div_is_ordered(
                        count * SIZE_FACE,
                        data.len() - pos,
                        SIZE_FACE as int,
                    );
                    vstd::arithmetic::div_mod::lemma_fundamental_div_mod_converse(
                        count * SIZE_FACE,
                        SIZE_FACE as int,
                        count as int,
                        0,
                    );
                }
            }
            return Err(ParseError::UnexpectedEnd);
        }
        proof {
            vstd::arithmetic::div_mod::lemma_fundamental_div_mod(
                data.len() - pos,
                SIZE_FACE as int,
            );
            vstd::arithmetic::mul::lemma_mul_inequality(
                count as int,
                ((data.len() - pos) / SIZE_FACE as int),
                SIZE_FACE as int,
            );
        }
        let mut faces: Vec<Face> = Vec::new();
        let mut i: usize = 0;
        while i < count
            invariant
                i <= count,
                count <= 0x0100_0000,
                pos + count * SIZE_FACE <= data.len(),
                faces@.len() == i,
                forall|j: int| 0 <= j < i ==> faces@[j] == spec_face(data@, pos + j * SIZE_FACE),
            decreases count - i,
        {
            proof {
                vstd::arithmetic::mul::lemma_mul_inequality(
                    i as int + 1,
                    count as int,
                    SIZE_FACE as int,
                );
                vstd::arithmetic::mul::lemma_mul_is_distributive_add_other_way(
                    SIZE_FACE as int,
                    i as int,
                    1,
                );
                vstd::arithmetic::mul::lemma_mul_nonnegative(i as int, SIZE_FACE as int);
            }
            let p = pos + i * SIZE_FACE;
            let face = Face {
                plane: read_ushort(data, p) as usize,
                front: read_ushort(data, p + 2) == 0,
                ledges_start: read_ulong(data, p + 4) as usize,
                ledges_count: read_ushort(data, p + 8) as usize,
                texture_info: read_ushort(data, p + 10) as usize,
                type_light: read_uchar(data, p + 12),
                base_light: read_uchar(data, p + 13),
                light: [read_uchar(data, p + 14), read_uchar(data, p + 15)],
                light_map: read_long(data, p + 16),
            };
            faces.push(face);
            i = i + 1;
        }
        Ok(faces)
    }
}

/// Decode `count` signed ledge indices starting at `pos`. Fails exactly
/// when the buffer is too short.
pub fn parse_ledges(count: usize, data: &Vec<u8>, pos: usize) -> (r: Result<Vec<i32>, ParseError>)
    requires
        count <= 0x0800_0000,
    ensures
        r is Ok <==> pos + count * 4 <= data.len(),
        r matches Ok(ledges) ==> {
            &&& ledges@.len() == count
            &&& forall|i: int|
                0 <= i < count ==> ledges@[i] as int == signed32(le32(data@, pos + i * 4))
        },
        r is Err ==> r == Result::<Vec<i32>, ParseError>::Err(ParseError::UnexpectedEnd),
{
    if pos > data.len() || (data.len() - pos) / 4 < count {
        proof {
            if pos + count * 4 <= data.len() {
                vstd::arithmetic::div_mod::lemma_div_is_ordered(
                    count * 4,
                    data.len() - pos,
                    4,
                );
                vstd::arithmetic::div_mod::lemma_fundamental_div_mod_converse(
                    count * 4,
                    4,
                    count as int,
                    0,
                );
            }
        }
        return Err(ParseError::UnexpectedEnd);
    }
    proof {
        vstd::arithmetic::div_mod::lemma_fundamental_div_mod(data.len() - pos, 4);
        vstd::arithmetic::mul::lemma_mul_inequality(
            count as int,
            ((data.len() - pos) / 4),
            4,
        );
    }
    let mut ledges: Vec<i32> = Vec::new();
    let mut i: usize = 0;
    while i < count
        invariant
            i <= count,
            count <= 0x0800_0000,
            pos + count * 4 <= data.len(),
            ledges@.len() == i,
            forall|j: int| 0 <= j < i ==> ledges@[j] as int == signed32(le32(data@, pos + j * 4)),
        decreases count - i,
    {
        ledges.push(read_long(data, pos + i * 4));
        i = i + 1;
    }
    Ok(ledges)
}

/// The edge record at `pos`: two vertex indices resolved against the
/// vertex table.
pub open spec fn spec_edge(b: Seq<u8>, pos: int, vertices: Seq<Vec3>) -> Edge {
    Edge(vertices[le16(b, pos)], vertices[le16(b, pos + 2)])
}

impl Edge {
    /// Decode `count` edge records, resolving each pair of vertex indices
    /// against `vertices`. Fails exactly when the buffer is too short or
    /// an index is out of range.
    pub fn parse(count: usize, vertices: &Vec<Vec3>, data: &Vec<u8>, pos: usize) -> (r: Result<
        Vec<Edge>,
        ParseError,
    >)
        requires
            count <= 0x0800_0000,
        ensures
            r is Ok <==> pos + count * 4 <= data.len() && (forall|i: int|
                0 <= i < count ==> #[trigger] le16(data@, pos + i * 4) < vertices@.len() && le16(
                    data@,
                    pos + i * 4 + 2,
                ) < vertices@.len()),
            r matches Ok(edges) ==> {
                &&& edges@.len() == count
                &&& forall|i: int|
                    0 <= i < count ==> edges@[i] == spec_edge(data@, pos + i * 4, vertices@)
            },
    {
        if pos > data.len() || (data.len() - pos) / 4 < count {
            proof {
                if pos + count * 4 <= data.len() {
                    vstd::arithmetic::div_mod::lemma_div_is_ordered(
                        count * 4,
                        data.len() - pos,
                        4,
                    );
                    vstd::arithmetic::div_mod::lemma_fundamental_div_mod_converse(
                        count * 4,
                        4,
                        count as int,
                        0,
                    );
                }
            }
            return Err(ParseError::UnexpectedEnd);
        }
        proof {
            vstd::arithmetic::div_mod::lemma_fundamental_div_mod(data.len() - pos, 4);
            vstd::arithmetic::mul::lemma_mul_inequality(
                count as int,
                ((data.len() - pos) / 4),
                4,
            );
        }
        let mut edges: Vec<Edge> = Vec::new();
        let mut i: usize = 0;
        while i < count
            invariant
                i <= count,
                count <= 0x0800_0000,
                pos + count * 4 <= data.len(),
                edges@.len() == i,
                forall|j: int|
                    0 <= j < i ==> #[trigger] le16(data@, pos + j * 4) < vertices@.len() && le16(
                        data@,
                        pos + j * 4 + 2,
                    ) < vertices@.len(),
                forall|j: int|
                    0 <= j < i ==> edges@[j] == spec_edge(data@, pos + j * 4, vertices@),
            decreases count - i,
        {
            let a = read_ushort(data, pos + i * 4) as usize;
            let b = read_ushort(data, pos + i * 4 + 2) as usize;
            if a >= vertices.len() || b >= vertices.len() {
                return Err(ParseError::BadIndex);
            }
            edges.push(Edge(vertices[a], vertices[b]));
            i = i + 1;
        }
        Ok(edges)
    }
}

} // verus!

verus! {

/// Number of textures in the directory at `base`.
pub open spec fn tex_count(b: Seq<u8>, base: int) -> int {
    signed32(le32(b, base))
}

/// Directory offset of texture `id`, relative to `base`; `-1` marks an
/// unused slot.
pub open spec fn tex_off(b: Seq<u8>, base: int, id: int) -> int {
    signed32(le32(b, base + 4 + 4 * id))
}

/// Width and height divisor of a mip level.
pub open spec fn mip_div(mip: int) -> int {
    if mip == 0 {
        1
    } else if mip == 1 {
        2
    } else if mip == 2 {
        4
    } else {
        8
    }
}

/// The picture `p` is mip level `mip` of the texture whose header starts
/// at `t`: the dimensions are the scaled-down texture dimensions and the
/// pixels are the bytes at the mip's recorded offset.
pub open spec fn picture_matches(p: Picture, b: Seq<u8>, t: int, w: int, h: int, mip: int) -> bool {
    let o = le32(b, t + 24 + 4 * mip);
    let mw = w / mip_div(mip);
    let mh = h / mip_div(mip);
    &&& p.width == mw
    &&& p.height == mh
    &&& p.data@ == b.subrange(t + o, t + o + mw * mh)
}

/// Every record of texture `id` lies inside the buffer, its name is
/// ASCII, and its dimensions fit an atlas.
pub open spec fn texture_ok(b: Seq<u8>, base: int, id: int) -> bool {
    let off = tex_off(b, base, id);
    off == -1 || {
        let t = base + off;
        &&& 0 <= off
        &&& t + 40 <= b.len()
        &&& cstr_ok(b.subrange(t, t + 16))
        &&& le32(b, t + 16) <= 0x7FFF
        &&& le32(b, t + 20) <= 0x7FFF
        &&& forall|mip: int|
            0 <= mip < 4 ==> t + #[trigger] le32(b, t + 24 + 4 * mip) + (le32(b, t + 16) / mip_div(
                mip,
            )) * (le32(b, t + 20) / mip_div(mip)) <= b.len()
    }
}

/// The texture `tex` is what the directory at `base` records for slot
/// `id`: either the unused placeholder or the decoded header, name, and
/// four mip pictures.
pub open spec fn texture_matches(tex: Texture, b: Seq<u8>, base: int, id: int) -> bool {
    let off = tex_off(b, base, id);
    if off == -1 {
        &&& tex.id == -1
        &&& tex.name@ == Seq::<char>::empty()
        &&& tex.width == 0
        &&& tex.height == 0
        &&& forall|mip: int|
            0 <= mip < 4 ==> (#[trigger] tex.pictures@[mip]).width == 0
                && tex.pictures@[mip].height == 0 && tex.pictures@[mip].data@ == Seq::<u8>::empty()
    } else {
        let t = base + off;
        &&& tex.id == id
        &&& tex.name@ == cstr_chars(b.subrange(t, t + 16))
        &&& tex.width == le32(b, t + 16)
        &&& tex.height == le32(b, t + 20)
        &&& forall|mip: int|
            0 <= mip < 4 ==> picture_matches(
                #[trigger] tex.pictures@[mip],
                b,
                t,
                le32(b, t + 16),
                le32(b, t + 20),
                mip,
            )
    }
}

/// Copy `len` bytes starting at `start` into a fresh vector.
pub fn read_bytes(data: &Vec<u8>, start: usize, len: usize) -> (r: Vec<u8>)
    requires
        start + len <= data.len(),
    ensures
        r@ == data@.subrange(start as int, start as int + len),
{
    let mut out: Vec<u8> = Vec::new();
    let mut i: usize = 0;
    while i < len
        invariant
            i <= len,
            start + len <= data.len(),
            out@ == data@.subrange(start as int, start as int + i),
        decreases len - i,
    {
        out.push(data[start + i]);
        i = i + 1;
        proof {
            assert(out@ =~= data@.subrange(start as int, start as int + i));
        }
    }
    out
}

/// An empty mip picture, used by the unused-texture placeholder.
fn empty_picture() -> (p: Picture)
    ensures
        p.width == 0,
        p.height == 0,
        p.data@ == Seq::<u8>::empty(),
{
    Picture { width: 0, height: 0, data: Vec::new() }
}

/// Decode one mip picture of the texture whose header starts at `t`.
fn parse_picture(data: &Vec<u8>, t: usize, w: u32, h: u32, mip: usize) -> (r: Result<
    Picture,
    ParseError,
>)
    requires
        t + 40 <= data.len(),
        mip < 4,
        w <= 0x7FFF,
        h <= 0x7FFF,
    ensures
        r is Ok <==> t + le32(data@, t + 24 + 4 * mip) + ((w as int) / mip_div(mip as int)) * ((
        h as int) / mip_div(mip as int)) <= data.len(),
        r matches Ok(p) ==> picture_matches(p, data@, t as int, w as int, h as int, mip as int),
        r is Err ==> r == Result::<Picture, ParseError>::Err(ParseError::UnexpectedEnd),
{
    let d: u32 = if mip == 0 {
        1
    } else if mip == 1 {
        2
    } else if mip == 2 {
        4
    } else {
        8
    };
    let o = read_ulong(data, t + 24 + 4 * mip);
    let mw = w / d;
    let mh = h / d;
    proof {
        assert((mw as int) * (mh as int) <= 0x4000_0000) by (nonlinear_arith)
            requires
                mw <= 0x7FFF,
                mh <= 0x7FFF,
        {
        }
        vstd::arithmetic::mul::lemma_mul_nonnegative(mw as int, mh as int);
    }
    let sz = (mw as usize) * (mh as usize);
    if (t as u128) + (o as u128) + (sz as u128) > data.len() as u128 {
        return Err(ParseError::UnexpectedEnd);
    }
    let start = t + (o as usize);
    let bytes = read_bytes(data, start, sz);
    Ok(Picture { width: mw, height: mh, data: bytes })
}

impl Texture {
    /// Decode the wall-texture directory at `pos`: a texture count, a
    /// table of offsets (with `-1` marking unused slots that become
    /// placeholder entries), and for each used slot a header with name,
    /// dimensions, and four mip pictures. Succeeds exactly when the count
    /// field is readable and every used entry decodes: records inside the
    /// buffer, an ASCII name, and dimensions no larger than 0x7FFF.
    pub fn parse_textures(data: &Vec<u8>, pos: usize) -> (r: Result<Vec<Texture>, ParseError>)
        ensures
            r is Ok <==> pos + 4 <= data.len() && (tex_count(data@, pos as int) <= 0 || (pos + 4
                + 4 * tex_count(data@, pos as int) <= data.len() && forall|id: int|
                0 <= id < tex_count(data@, pos as int) ==> texture_ok(data@, pos as int, id))),
            r matches Ok(v) ==> {
                &&& v@.len() == (if tex_count(data@, pos as int) <= 0 {
                    0int
                } else {
                    tex_count(data@, pos as int)
                })
                &&& forall|id: int|
                    0 <= id < v@.len() ==> texture_matches(#[trigger] v@[id], data@, pos as int, id)
            },
    {
        let ghost b = data@;
        if pos > data.len() || data.len() - pos < 4 {
            return Err(ParseError::UnexpectedEnd);
        }
        let count_i = read_long(data, pos);
        if count_i <= 0 {
            return Ok(Vec::new());
        }
        let count = count_i as usize;
        if (data.len() - pos - 4) / 4 < count {
            proof {
                if pos + 4 + 4 * count <= data.len() {
                    vstd::arithmetic::div_mod::lemma_div_is_ordered(
                        count * 4,
                        data.len() - pos - 4,
                        4,
                    );
                    vstd::arithmetic::div_mod::lemma_fundamental_div_mod_converse(
                        count * 4,
                        4,
                        count as int,
                        0,
                    );
                }
            }
            return Err(ParseError::UnexpectedEnd);
        }
        proof {
            vstd::arithmetic::div_mod::lemma_fundamental_div_mod(data.len() - pos - 4, 4);
            vstd::arithmetic::mul::lemma_mul_inequality(
                count as int,
                ((data.len() - pos - 4) / 4),
                4,
            );
        }
        let mut textures: Vec<Texture> = Vec::new();
        let mut id: usize = 0;
        while id < count
            invariant
                id <= count,
                count == tex_count(b, pos as int),
                1 <= count <= 0x7FFF_FFFF,
                data@ == b,
                pos + 4 + 4 * count <= data.len(),
                textures@.len() == id,
                forall|j: int| 0 <= j < id ==> texture_ok(b, pos as int, j),
                forall|j: int| 0 <= j < id ==> texture_matches(#[trigger] textures@[j], b, pos as int, j),
            decreases count - id,
        {
            proof {
                vstd::arithmetic::mul::lemma_mul_inequality(id as int + 1, count as int, 4);
                vstd::arithmetic::mul::lemma_mul_is_distributive_add_other_way(4, id as int, 1);
                vstd::arithmetic::mul::lemma_mul_nonnegative(id as int, 4);
            }
            let off_i = read_long(data, pos + 4 + 4 * id);
            if off_i == -1 {
                let tex = Texture {
                    id: -1,
                    name: String::new(),
                    width: 0,
                    height: 0,
                    pictures: [empty_picture(), empty_picture(), empty_picture(), empty_picture()],
                };
                proof {
                    assert(texture_matches(tex, b, pos as int, id as int));
                }
                textures.push(tex);
                id = id + 1;
                continue;
            }
            if off_i < 0 {
                proof {
                    assert(!texture_ok(b, pos as int, id as int));
                }
                return Err(ParseError::UnexpectedEnd);
            }
            let t64 = (pos as u128) + (off_i as u128);
            if t64 + 40 > data.len() as u128 {
                proof {
                    assert(!texture_ok(b, pos as int, id as int));
                }
                return Err(ParseError::UnexpectedEnd);
            }
            let t = pos + (off_i as usize);
            let name_bytes = read_bytes(data, t, 16);
            let name = match from_cstring(&name_bytes) {
                Ok(s) => s,
                Err(_) => {
                    proof {
                        assert(!texture_ok(b, pos as int, id as int));
                    }
                    return Err(ParseError::InvalidUtf8);
                },
            };
            let width = read_ulong(data, t + 16);
            let height = read_ulong(data, t + 20);
            if width > 0x7FFF || height > 0x7FFF {
                proof {
                    assert(!texture_ok(b, pos as int, id as int));
                }
                return Err(ParseError::Oversize);
            }
            let p0 = match parse_picture(data, t, width, height, 0) {
                Ok(p) => p,
                Err(e) => {
                    proof {
                        assert(!texture_ok(b, pos as int, id as int));
                    }
                    return Err(e);
                },
            };
            let p1 = match parse_picture(data, t, width, height, 1) {
                Ok(p) => p,
                Err(e) => {
                    proof {
                        assert(!texture_ok(b, pos as int, id as int));
                    }
                    return Err(e);
                },
            };
            let p2 = match parse_picture(data, t, width, height, 2) {
                Ok(p) => p,
                Err(e) => {
                    proof {
                        assert(!texture_ok(b, pos as int, id as int));
                    }
                    return Err(e);
                },
            };
            let p3 = match parse_picture(data, t, width, height, 3) {
                Ok(p) => p,
                Err(e) => {
                    proof {
                        assert(!texture_ok(b, pos as int, id as int));
                    }
                    return Err(e);
                },
            };
            let tex = Texture { id: id as i32, name, width, height, pictures: [p0, p1, p2, p3] };
            proof {
                assert forall|mip: int| 0 <= mip < 4 implies picture_matches(
                    #[trigger] tex.pictures@[mip],
                    b,
                    t as int,
                    width as int,
                    height as int,
                    mip,
                ) by {
                    if mip == 0 {
                        assert(tex.pictures@[0] == p0);
                    } else if mip == 1 {
                        assert(tex.pictures@[1] == p1);
                    } else if mip == 2 {
                        assert(tex.pictures@[2] == p2);
                    } else {
                        assert(tex.pictures@[3] == p3);
                    }
                }
                assert(texture_ok(b, pos as int, id as int)) by {
                    assert forall|mip: int|
                        0 <= mip < 4 implies (t as int) + #[trigger] le32(b, t + 24 + 4 * mip) + (
                    le32(b, t as int + 16) / mip_div(mip)) * (le32(b, t as int + 20) / mip_div(mip))
                        <= b.len() by {}
                }
                assert(texture_matches(tex, b, pos as int, id as int));
            }
            textures.push(tex);
            id = id + 1;
        }
        Ok(textures)
    }
}

} // verus!
