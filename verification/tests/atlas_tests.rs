use rquake::atlas::{Rect, TextureAtlas};

#[test]
fn find_carves_from_corner() {
    let mut atlas = TextureAtlas::new(16, 16);
    let r = atlas.find(4, 4).unwrap();
    assert_eq!(r, Rect { x: 0, y: 0, width: 4, height: 4 });
}

#[test]
fn full_atlas_after_split_rejects_full_size() {
    // A 4x4 placement splits the single free rectangle; afterwards no free
    // rectangle can hold the full 16x16 atlas size.
    let mut atlas = TextureAtlas::new(16, 16);
    assert!(atlas.find(4, 4).is_some());
    assert_eq!(atlas.find(16, 16), None);
}

#[test]
fn oversize_lightmap_request_fails() {
    // A tile wider than the atlas can never be placed.
    let mut atlas = TextureAtlas::new(1024, 1024);
    assert_eq!(atlas.find(2000, 2000), None);
}

#[test]
fn padded_find_returns_deflated_rect() {
    let mut atlas = TextureAtlas::new_padded(64, 64, 1);
    let r = atlas.find(4, 4).unwrap();
    assert_eq!(r, Rect { x: 1, y: 1, width: 4, height: 4 });
}

#[test]
fn perfect_fit_is_taken() {
    let mut atlas = TextureAtlas::new(16, 16);
    // Split 16x16 into a placed 8x16 and a free 8x16 right strip.
    let a = atlas.find(8, 16).unwrap();
    assert_eq!(a, Rect { x: 0, y: 0, width: 8, height: 16 });
    // The remaining strip is a perfect fit.
    let b = atlas.find(8, 16).unwrap();
    assert_eq!(b, Rect { x: 8, y: 0, width: 8, height: 16 });
    assert_eq!(atlas.find(1, 1), None);
}

#[test]
fn tightest_fit_wins() {
    let mut atlas = TextureAtlas::new(32, 8);
    // Carve the atlas into a 8-wide and a 24-wide free rectangle.
    let a = atlas.find(8, 8).unwrap();
    assert_eq!(a, Rect { x: 0, y: 0, width: 8, height: 8 });
    // 24-wide strip remains at x=8. An 8x8 request fits it exactly at its corner.
    let b = atlas.find(6, 8).unwrap();
    assert_eq!(b, Rect { x: 8, y: 0, width: 6, height: 8 });
}

#[test]
fn packing_is_deterministic() {
    let requests = [(32, 32), (64, 16), (16, 16), (8, 8), (64, 64)];
    let mut a = TextureAtlas::new(128, 128);
    let mut b = TextureAtlas::new(128, 128);
    for (w, h) in requests {
        assert_eq!(a.find(w, h), b.find(w, h));
    }
}

#[test]
fn placements_do_not_overlap() {
    let mut atlas = TextureAtlas::new(64, 64);
    let mut placed: Vec<Rect> = Vec::new();
    for (w, h) in [(16, 16), (32, 8), (8, 32), (16, 8), (24, 24)] {
        if let Some(r) = atlas.find(w, h) {
            assert_eq!(r.width, w);
            assert_eq!(r.height, h);
            assert!(r.x >= 0 && r.y >= 0 && r.x + r.width <= 64 && r.y + r.height <= 64);
            for p in &placed {
                let disjoint = p.x + p.width <= r.x
                    || r.x + r.width <= p.x
                    || p.y + p.height <= r.y
                    || r.y + r.height <= p.y;
                assert!(disjoint, "{:?} overlaps {:?}", p, r);
            }
            placed.push(r);
        }
    }
    assert!(placed.len() >= 4);
}

#[test]
fn default_rect_is_zero() {
    assert_eq!(Rect::default(), Rect { x: 0, y: 0, width: 0, height: 0 });
}
