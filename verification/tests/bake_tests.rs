use rquake::bake::{
    bake, blit, blit_clamped, check_level, emit_face, face_extents, gen_sky_box, lights_sizing,
    lookup_rect, pack_lightmaps, pack_textures, sort_tiles, BakeError, TSortable,
};
use rquake::atlas::Rect;
use rquake::bsp::{BspFile, Edge, Face, Model, Picture, Texture, TextureInfo, Vec3};

fn pic(w: u32, h: u32, data: Vec<u8>) -> Picture {
    Picture { width: w, height: h, data }
}

fn square_texture(id: i32, name: &str) -> Texture {
    Texture {
        id,
        name: name.to_owned(),
        width: 2,
        height: 2,
        pictures: [
            pic(2, 2, vec![1, 2, 3, 4]),
            pic(1, 1, vec![5]),
            pic(0, 0, vec![]),
            pic(0, 0, vec![]),
        ],
    }
}

/// One square face of 16x16 world units over the given texture slot.
fn square_level(tex_name: &str, type_light: u8, light_map: i32) -> BspFile {
    BspFile {
        light_maps: vec![10, 20, 30, 40],
        textures: vec![square_texture(0, tex_name)],
        texture_info: vec![TextureInfo {
            vector_s: Vec3 { x: 1, y: 0, z: 0 },
            dist_s: 0,
            vector_t: Vec3 { x: 0, y: 1, z: 0 },
            dist_t: 0,
            texture: 0,
            animated: false,
        }],
        edges: vec![
            Edge(Vec3 { x: 0, y: 0, z: 0 }, Vec3 { x: 0, y: 0, z: 0 }),
            Edge(Vec3 { x: 0, y: 0, z: 0 }, Vec3 { x: 16, y: 0, z: 0 }),
            Edge(Vec3 { x: 16, y: 0, z: 0 }, Vec3 { x: 16, y: 16, z: 0 }),
            Edge(Vec3 { x: 16, y: 16, z: 0 }, Vec3 { x: 0, y: 16, z: 0 }),
            Edge(Vec3 { x: 0, y: 16, z: 0 }, Vec3 { x: 0, y: 0, z: 0 }),
        ],
        ledges: vec![1, 2, 3, 4],
        planes: vec![],
        faces: vec![Face {
            plane: 0,
            front: true,
            ledges_start: 0,
            ledges_count: 4,
            texture_info: 0,
            type_light,
            base_light: 3,
            light: [0, 0],
            light_map,
        }],
        models: vec![Model {
            bound: (Vec3 { x: 0, y: 0, z: 0 }, Vec3 { x: 16, y: 16, z: 0 }),
            origin: Vec3 { x: 0, y: 0, z: 0 },
            faces_start: 0,
            faces_count: 1,
        }],
    }
}

#[test]
fn sort_is_descending_and_stable() {
    let tiles = vec![
        TSortable { idx: 0, width: 2, height: 2 },
        TSortable { idx: 1, width: 4, height: 4 },
        TSortable { idx: 2, width: 2, height: 2 },
        TSortable { idx: 3, width: 8, height: 1 },
    ];
    let sorted = sort_tiles(tiles);
    let idxs: Vec<i32> = sorted.iter().map(|t| t.idx).collect();
    // Areas 16, 8, 4, 4; the two equal areas keep input order.
    assert_eq!(idxs, vec![1, 3, 0, 2]);
}

#[test]
fn blit_copies_rectangle() {
    let mut dst = vec![0u8; 16]; // 4x4, stride 4
    let src = vec![1, 2, 3, 4];
    blit(&mut dst, 4, 1, 1, &src, 2, 2);
    assert_eq!(dst, vec![0, 0, 0, 0, 0, 1, 2, 0, 0, 3, 4, 0, 0, 0, 0, 0]);
}

#[test]
fn clamped_blit_repeats_edges() {
    // 2x2 tile at rect origin (1,1) of an 8-wide buffer: the border texels
    // around it repeat the tile edges.
    let mut dst = vec![0u8; 64];
    let src = vec![10, 20, 30, 40];
    blit_clamped(&mut dst, 8, 1, 1, &src, 0, 2, 2);
    // Corner bleed.
    assert_eq!(dst[0 + 0 * 8], 10);
    assert_eq!(dst[3 + 3 * 8], 40);
    assert_eq!(dst[3 + 0 * 8], 20);
    assert_eq!(dst[0 + 3 * 8], 30);
    // Tile interior.
    assert_eq!(dst[1 + 1 * 8], 10);
    assert_eq!(dst[2 + 1 * 8], 20);
    assert_eq!(dst[1 + 2 * 8], 30);
    assert_eq!(dst[2 + 2 * 8], 40);
    // Edge bleed.
    assert_eq!(dst[1 + 0 * 8], 10);
    assert_eq!(dst[2 + 0 * 8], 20);
    assert_eq!(dst[0 + 1 * 8], 10);
    assert_eq!(dst[3 + 1 * 8], 20);
}

#[test]
fn extents_project_face_bounds() {
    let b = square_level("wall", 0, 0);
    let (min_s, max_s, min_t, max_t) = face_extents(&b, &b.faces[0]);
    assert_eq!((min_s, max_s, min_t, max_t), (0, 16, 0, 16));
}

#[test]
fn sizing_emits_one_padded_tile() {
    let b = square_level("wall", 0, 0);
    let tiles = lights_sizing(&b);
    assert_eq!(tiles, vec![TSortable { idx: 0, width: 2, height: 2 }]);
}

#[test]
fn fullbright_face_is_not_sized() {
    let b = square_level("wall", 0xFF, 0);
    assert_eq!(lights_sizing(&b), vec![]);
}

#[test]
fn missing_lightmap_is_not_sized() {
    let b = square_level("wall", 0, -1);
    assert_eq!(lights_sizing(&b), vec![]);
}

#[test]
fn pack_textures_places_and_copies_mips() {
    let b = square_level("wall", 0, 0);
    let (rects, bufs) = pack_textures(&b.textures).unwrap();
    assert_eq!(rects[0], Rect { x: 0, y: 0, width: 2, height: 2 });
    assert_eq!(bufs.len(), 3);
    assert_eq!(bufs[0][0], 1);
    assert_eq!(bufs[0][1], 2);
    assert_eq!(bufs[0][1024], 3);
    assert_eq!(bufs[0][1025], 4);
    assert_eq!(bufs[1][0], 5);
}

#[test]
fn pack_lightmaps_records_tiles_and_bleeds() {
    let b = square_level("wall", 0, 0);
    let tiles = sort_tiles(lights_sizing(&b));
    let (table, buf) = pack_lightmaps(&tiles, &b.light_maps).unwrap();
    let rect = lookup_rect(&table, 0).unwrap();
    assert_eq!(rect, Rect { x: 1, y: 1, width: 2, height: 2 });
    // Interior copy and corner bleed, per the clamped copy.
    assert_eq!(buf[1 + 1 * 1024], 10);
    assert_eq!(buf[2 + 2 * 1024], 40);
    assert_eq!(buf[0 + 0 * 1024], 10);
    assert_eq!(buf[3 + 3 * 1024], 40);
}

#[test]
fn lightmap_bytes_out_of_range_fail() {
    let mut b = square_level("wall", 0, 0);
    b.light_maps = vec![1]; // tile needs 4 bytes
    let tiles = sort_tiles(lights_sizing(&b));
    assert_eq!(
        pack_lightmaps(&tiles, &b.light_maps),
        Err(BakeError::LightmapOutOfRange)
    );
}

#[test]
fn fan_emits_three_vertices_per_ledge() {
    let b = square_level("wall", 0, 0);
    let trect = Rect { x: 0, y: 0, width: 2, height: 2 };
    let table = vec![(0i32, Rect { x: 1, y: 1, width: 2, height: 2 })];
    let fan = emit_face(&b, &b.faces[0], trect, Vec3 { x: 0, y: 0, z: 0 }, &table);
    assert_eq!(fan.len(), 12);
    // The boundary is traced once, in ledge order; every third vertex is
    // the centroid.
    let expected = [
        ([16, 0, 0], [0, 0, 0]),
        ([16, 16, 0], [16, 0, 0]),
        ([0, 16, 0], [16, 16, 0]),
        ([0, 0, 0], [0, 16, 0]),
    ];
    for (j, (a, bb)) in expected.iter().enumerate() {
        assert_eq!(fan[3 * j].position, *a);
        assert_eq!(fan[3 * j + 1].position, *bb);
        assert_eq!(fan[3 * j + 2].position, [8, 8, 0]);
    }
    // Texture projection and lightmap texel of the first vertex.
    assert_eq!(fan[0].tex, [0, 0]);
    assert_eq!(fan[0].tex_info, [16, 0, 2, 2]);
    assert_eq!(fan[0].light_info, [2, 1]);
    assert_eq!(fan[0].light, 3);
    assert_eq!(fan[0].light_type, 0);
}

#[test]
fn fullbright_face_carries_sentinel_light_uv() {
    let b = square_level("wall", 0xFF, 0);
    let trect = Rect { x: 0, y: 0, width: 2, height: 2 };
    let table = vec![];
    let fan = emit_face(&b, &b.faces[0], trect, Vec3 { x: 0, y: 0, z: 0 }, &table);
    assert_eq!(fan.len(), 12);
    for v in &fan {
        assert_eq!(v.light_info, [-1, -1]);
        assert_eq!(v.light_type, 0xFF);
    }
}

#[test]
fn animated_texture_forces_fullbright() {
    let b = square_level("+water", 0, 0);
    let baked = bake(&b).unwrap();
    assert_eq!(baked.verts.len(), 12);
    for v in &baked.verts {
        assert_eq!(v.light_type, 0xFF);
        assert_eq!(v.light, 127);
        assert_eq!(v.light_info, [-1, -1]);
    }
}

#[test]
fn trigger_face_emits_nothing() {
    let b = square_level("trigger", 0, 0);
    let baked = bake(&b).unwrap();
    assert_eq!(baked.verts.len(), 0);
    assert_eq!(baked.verts_sky.len(), 0);
    assert_eq!(baked.verts_sky_box.len(), 0);
}

#[test]
fn unused_texture_emits_nothing() {
    let mut b = square_level("wall", 0, 0);
    b.textures[0].id = -1;
    let baked = bake(&b).unwrap();
    assert_eq!(baked.verts.len(), 0);
}

#[test]
fn bake_square_level() {
    let b = square_level("wall", 0, 0);
    let baked = bake(&b).unwrap();
    assert_eq!(baked.texture_rects[0], Rect { x: 0, y: 0, width: 2, height: 2 });
    assert_eq!(baked.verts.len(), 12);
    assert_eq!(baked.verts_sky.len(), 0);
    assert_eq!(baked.verts_sky_box.len(), 0);
    assert_eq!(baked.light_map_data[1 + 1 * 1024], 10);
    assert_eq!(baked.verts[0].position, [16, 0, 0]);
}

#[test]
fn sky_face_builds_sky_box() {
    let b = square_level("sky1", 0, 0);
    let baked = bake(&b).unwrap();
    assert_eq!(baked.verts.len(), 0);
    assert_eq!(baked.verts_sky.len(), 12);
    assert_eq!(baked.verts_sky_box.len(), 12);
    // The bounding box includes the origin and the face, inflated by 2000
    // horizontally.
    assert_eq!(baked.sky_min, Vec3 { x: 0, y: 0, z: 0 });
    assert_eq!(baked.sky_max, Vec3 { x: 16, y: 16, z: 0 });
    let v0 = &baked.verts_sky_box[0];
    assert_eq!(v0.position, [-2000, -2000, 0]);
    assert_eq!(v0.light_type, 0);
    let v6 = &baked.verts_sky_box[6];
    assert_eq!(v6.position, [-2000, -2000, 100]);
    assert_eq!(v6.light_type, 1);
    // The two rings sample the two horizontal halves of the sky rectangle.
    assert_eq!(v0.tex, [0, 0]);
    assert_eq!(v6.tex, [1, 0]);
    assert_eq!(v0.tex_info, [0, 0, 1, 2]);
}

#[test]
fn sky_box_corners() {
    let rects = vec![Rect { x: 4, y: 8, width: 6, height: 2 }];
    let lo = Vec3 { x: -10, y: -20, z: 0 };
    let hi = Vec3 { x: 10, y: 20, z: 5 };
    let verts = gen_sky_box(&rects, 0, lo, hi);
    assert_eq!(verts.len(), 12);
    assert_eq!(verts[0].position, [-10, -20, 5]);
    assert_eq!(verts[1].position, [-10, 20, 5]);
    assert_eq!(verts[2].position, [10, -20, 5]);
    assert_eq!(verts[3].position, [-10, 20, 5]);
    assert_eq!(verts[4].position, [10, 20, 5]);
    assert_eq!(verts[5].position, [10, -20, 5]);
    assert_eq!(verts[6].position, [-10, -20, 105]);
    assert_eq!(verts[0].tex, [4, 8]);
    assert_eq!(verts[6].tex, [7, 8]);
}

#[test]
fn level_validator_accepts_and_rejects() {
    let b = square_level("wall", 0, 0);
    assert!(check_level(&b));
    let mut bad = square_level("wall", 0, 0);
    bad.ledges.push(99); // out-of-range edge index
    assert!(!check_level(&bad));
    let mut bad2 = square_level("wall", 0, 0);
    bad2.faces[0].texture_info = 5;
    assert!(!check_level(&bad2));
}

#[test]
fn texture_wider_than_atlas_fails_packing() {
    let textures = vec![Texture {
        id: 0,
        name: "wide".to_owned(),
        width: 1025,
        height: 1,
        pictures: [
            pic(1025, 1, vec![7; 1025]),
            pic(512, 0, vec![]),
            pic(256, 0, vec![]),
            pic(128, 0, vec![]),
        ],
    }];
    assert_eq!(pack_textures(&textures), Err(BakeError::AtlasFull));
}

#[test]
fn lookup_takes_last_entry_for_key() {
    let table = vec![
        (3i32, Rect { x: 1, y: 1, width: 2, height: 2 }),
        (5i32, Rect { x: 9, y: 1, width: 2, height: 2 }),
        (3i32, Rect { x: 1, y: 9, width: 4, height: 4 }),
    ];
    assert_eq!(lookup_rect(&table, 3), Some(Rect { x: 1, y: 9, width: 4, height: 4 }));
    assert_eq!(lookup_rect(&table, 5), Some(Rect { x: 9, y: 1, width: 2, height: 2 }));
    assert_eq!(lookup_rect(&table, 7), None);
}

#[test]
fn two_faces_pack_two_tiles() {
    let mut b = square_level("wall", 0, 0);
    // A second identical face whose lightmap bytes start at offset 4.
    let mut f2 = b.faces[0];
    f2.light_map = 4;
    b.faces.push(f2);
    b.models[0].faces_count = 2;
    b.light_maps = vec![10, 20, 30, 40, 50, 60, 70, 80];
    let baked = bake(&b).unwrap();
    assert_eq!(baked.verts.len(), 24);
    assert_eq!(baked.light_rects.len(), 2);
    let r1 = lookup_rect(&baked.light_rects, 0).unwrap();
    let r2 = lookup_rect(&baked.light_rects, 4).unwrap();
    // Both padded 2x2 tiles landed in disjoint footprints.
    let disjoint = r1.x + r1.width + 1 <= r2.x - 1
        || r2.x + r2.width + 1 <= r1.x - 1
        || r1.y + r1.height + 1 <= r2.y - 1
        || r2.y + r2.height + 1 <= r1.y - 1;
    assert!(disjoint);
    assert_eq!(baked.light_map_data[(r2.x + r2.y * 1024) as usize], 50);
}
