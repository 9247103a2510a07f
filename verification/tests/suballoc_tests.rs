use rquake::suballoc::{
    align_row_pitch, Allocation, ChunkAlloc, GPUAlloc, MemoryType, RangeAlloc, Requirements, Type,
};

#[test]
fn chunk_alloc_first_fit() {
    let mut a = ChunkAlloc::new_region(256 * 1024, 4096);
    let r = a.allocate(Type::Buffer, 16384, 256).unwrap();
    assert_eq!(r, (0, 16384));
    let r2 = a.allocate(Type::Buffer, 8192, 256).unwrap();
    assert_eq!(r2, (16384, 24576));
}

#[test]
fn chunk_alloc_rounds_to_chunks() {
    // A 100-byte allocation claims a whole 8 KiB chunk.
    let mut a = ChunkAlloc::new_region(64 * 1024, 4096);
    let r = a.allocate(Type::Buffer, 100, 4).unwrap();
    assert_eq!(r, (0, 100));
    let r2 = a.allocate(Type::Buffer, 100, 4).unwrap();
    assert_eq!(r2, (8192, 8292));
}

#[test]
fn freed_range_is_reused_by_same_type() {
    let mut a = ChunkAlloc::new_region(256 * 1024, 4096);
    let r = a.allocate(Type::Buffer, 16384, 256).unwrap();
    let r2 = a.allocate(Type::Buffer, 8192, 256).unwrap();
    a.free(r);
    // An equal-or-smaller request of the same kind lands in the freed range.
    let r3 = a.allocate(Type::Buffer, 8192, 256).unwrap();
    assert_eq!(r3, (0, 8192));
    assert_eq!(r2, (16384, 24576));
}

#[test]
fn stale_type_tag_excludes_other_kind() {
    // Tags are deliberately kept on free: a freed buffer range still
    // carries the buffer tag, so an image allocation skips past it.
    let mut a = ChunkAlloc::new_region(256 * 1024, 4096);
    let r = a.allocate(Type::Buffer, 8192, 256).unwrap();
    let r2 = a.allocate(Type::Buffer, 8192, 256).unwrap();
    assert_eq!(r, (0, 8192));
    assert_eq!(r2, (8192, 16384));
    a.free(r);
    let img = a.allocate(Type::Image, 8192, 256).unwrap();
    assert_eq!(img, (16384, 24576));
}

#[test]
fn allocation_fails_when_region_exhausted() {
    let mut a = ChunkAlloc::new_region(16 * 1024, 4096);
    assert!(a.allocate(Type::Buffer, 16384, 256).is_some());
    assert_eq!(a.allocate(Type::Buffer, 8192, 256), None);
}

#[test]
fn trait_interface_matches_inherent() {
    let mut a: ChunkAlloc = RangeAlloc::new(64 * 1024, 4096);
    let r = RangeAlloc::allocate(&mut a, Type::Image, 4096, 16).unwrap();
    assert_eq!(r, (0, 4096));
    RangeAlloc::free(&mut a, r);
    let r2 = RangeAlloc::allocate(&mut a, Type::Image, 4096, 16).unwrap();
    assert_eq!(r2, (0, 4096));
}

#[test]
fn gpu_alloc_routes_by_mask_and_properties() {
    let types = vec![MemoryType { properties: 0b01 }, MemoryType { properties: 0b11 }];
    let mut g: GPUAlloc<ChunkAlloc> = GPUAlloc::new(types, 4096);
    // Mask excludes type 0; properties demand both bits, offered by type 1.
    let req = Requirements { size: 1024, alignment: 256, type_mask: 0b10 };
    let a = g.allocate(Type::Buffer, &req, 0b11);
    assert_eq!(a.memory(), (0, 0));
    assert_eq!(a.range, (0, 1024));
    // A mask allowing both types picks type 0 only if its properties
    // suffice; requesting 0b01 with mask 0b01 creates a second pool.
    let req2 = Requirements { size: 2048, alignment: 256, type_mask: 0b01 };
    let b = g.allocate(Type::Buffer, &req2, 0b01);
    assert_eq!(b.memory(), (1, 0));
    g.free(a);
    g.free(b);
    g.destroy();
}

#[test]
fn gpu_alloc_reuses_region_after_free() {
    let types = vec![MemoryType { properties: 0b1 }];
    let mut g: GPUAlloc<ChunkAlloc> = GPUAlloc::new(types, 4096);
    let req = Requirements { size: 8192, alignment: 256, type_mask: 0b1 };
    let a = g.allocate(Type::Buffer, &req, 0b1);
    assert_eq!(a.memory(), (0, 0));
    assert_eq!(a.range, (0, 8192));
    g.free(a);
    // The freed range serves the re-request: same pool, same region.
    let b = g.allocate(Type::Buffer, &req, 0b1);
    assert_eq!(b.memory(), (0, 0));
    assert_eq!(b.range, (0, 8192));
    g.free(b);
    g.destroy();
}

#[test]
fn gpu_allocations_do_not_overlap() {
    let types = vec![MemoryType { properties: 0b1 }];
    let mut g: GPUAlloc<ChunkAlloc> = GPUAlloc::new(types, 4096);
    let req = Requirements { size: 12000, alignment: 256, type_mask: 0b1 };
    let mut live: Vec<Allocation> = Vec::new();
    for _ in 0..8 {
        let a = g.allocate(Type::Buffer, &req, 0b1);
        for other in &live {
            if other.memory() == a.memory() {
                let disjoint = other.range.1 <= a.range.0 || a.range.1 <= other.range.0;
                assert!(disjoint);
            }
        }
        live.push(a);
    }
    for a in live {
        g.free(a);
    }
    g.destroy();
}

#[test]
fn first_allocation_lands_at_offset_zero() {
    let mut a = ChunkAlloc::new_region(65536, 8192);
    assert_eq!(a.allocate(Type::Buffer, 10000, 256), Some((0, 10000)));
}

#[test]
fn row_pitch_rounds_up_to_alignment() {
    assert_eq!(align_row_pitch(1024, 256), 1024);
    assert_eq!(align_row_pitch(1025, 256), 1280);
    assert_eq!(align_row_pitch(1, 1), 1);
    assert_eq!(align_row_pitch(0, 64), 0);
}
