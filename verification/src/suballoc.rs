//! GPU memory sub-allocation. A fixed-size memory region is divided into
//! 8 KiB chunks; `ChunkAlloc` hands out chunk-aligned byte ranges, keeping
//! a chunk occupancy bitmap and a per-granularity-unit type tag so that
//! buffer and image allocations never share a granularity unit (a
//! constraint some devices impose). `GPUAlloc` routes requests to a region
//! of a compatible device memory type, creating fresh fixed-size regions
//! on demand.

use vstd::prelude::*;
use vstd::arithmetic::div_mod::{
    lemma_div_is_ordered, lemma_fundamental_div_mod, lemma_fundamental_div_mod_converse,
    lemma_mod_multiples_basic,
};

verus! {

/// Byte size of one occupancy chunk.
pub const CHUNK_SIZE: u64 = 8 * 1024;

/// Byte size of every device memory region.
pub const REGION_SIZE: u64 = 64 * 1024 * 1024;

/// What a range is allocated for. Some devices forbid buffer and image
/// memory from sharing a buffer/image-granularity unit.
#[derive(Debug, Clone, Copy, PartialEq, Eq, Structural)]
pub enum Type {
    Buffer,
    Image,
}

/// A live allocation inside one region: its starting byte, its byte size,
/// and the kind of resource it backs.
pub ghost struct Span {
    pub start: int,
    pub size: int,
    pub ty: Type,
}

/// Abstract state of a `ChunkAlloc` region.
#[verifier::ext_equal]
pub ghost struct RangeModel {
    /// Total byte size of the region.
    pub total: int,
    /// Buffer/image granularity in bytes.
    pub gran: int,
    /// Chunk occupancy: `used[c]` means chunk `c` holds part of a live range.
    pub used: Seq<bool>,
    /// Per-granularity-unit type tag, stamped when a range is allocated.
    pub tags: Seq<Option<Type>>,
    /// The ranges currently allocated and not yet freed.
    pub live: Seq<Span>,
}

/// Chunk index of the byte `b`.
pub open spec fn chunk_of(b: int) -> int {
    b / (CHUNK_SIZE as int)
}

/// Number of chunks needed to hold `size` bytes.
pub open spec fn chunks_for(size: int) -> int {
    (size + CHUNK_SIZE - 1) / (CHUNK_SIZE as int)
}

/// Granularity unit of the byte `b`.
pub open spec fn unit_of(b: int, gran: int) -> int {
    b / gran
}

/// The unit `u` may take an allocation of kind `ty`: it is untagged or
/// already tagged with the same kind.
pub open spec fn tag_ok(tags: Seq<Option<Type>>, u: int, ty: Type) -> bool {
    tags[u] is None || tags[u] == Some(ty)
}

/// A well-formed span: chunk-aligned, inside the region, its chunks all
/// marked used, and (when the granularity divides the chunk size) all its
/// granularity units stamped with its kind.
pub open spec fn span_wf(m: RangeModel, s: Span) -> bool {
    &&& 0 <= s.start
    &&& s.start % (CHUNK_SIZE as int) == 0
    &&& 1 <= s.size
    &&& s.start + s.size <= m.used.len() * CHUNK_SIZE
    &&& unit_of(s.start + s.size - 1, m.gran) < m.tags.len()
    &&& forall|c: int| chunk_of(s.start) <= c < chunk_of(s.start) + chunks_for(s.size) ==> m.used[c]
    &&& (CHUNK_SIZE as int) % m.gran == 0 ==> forall|u: int|
        unit_of(s.start, m.gran) <= u <= unit_of(s.start + s.size - 1, m.gran) ==> m.tags[u]
            == Some(s.ty)
}

/// The chunk ranges of two spans do not intersect.
pub open spec fn spans_chunk_disjoint(a: Span, b: Span) -> bool {
    ||| chunk_of(a.start) + chunks_for(a.size) <= chunk_of(b.start)
    ||| chunk_of(b.start) + chunks_for(b.size) <= chunk_of(a.start)
}

impl RangeModel {
    /// Region invariant: array sizes agree with the region size, every
    /// live span is well formed, and live spans occupy disjoint chunks.
    pub open spec fn wf(self) -> bool {
        &&& 1 <= self.gran <= 0x4000_0000
        &&& 0 <= self.total <= 0x4000_0000
        &&& self.used.len() == self.total / (CHUNK_SIZE as int)
        &&& self.tags.len() == self.total / self.gran
        &&& forall|k: int| 0 <= k < self.live.len() ==> span_wf(self, #[trigger] self.live[k])
        &&& forall|i: int, j: int|
            0 <= i < j < self.live.len() ==> spans_chunk_disjoint(
                #[trigger] self.live[i],
                #[trigger] self.live[j],
            )
    }

    /// Nothing was ever allocated: every chunk free, every unit untagged.
    pub open spec fn is_fresh(self) -> bool {
        &&& forall|c: int| 0 <= c < self.used.len() ==> !self.used[c]
        &&& forall|u: int| 0 <= u < self.tags.len() ==> self.tags[u] is None
    }
}

/// An allocation of `size` bytes of kind `ty` may start at chunk `idx`:
/// the needed chunks are inside the region and free, and both boundary
/// granularity units accept the kind.
pub open spec fn can_place(m: RangeModel, idx: int, size: int, ty: Type) -> bool {
    &&& 0 <= idx
    &&& idx + chunks_for(size) <= m.used.len()
    &&& unit_of(idx * CHUNK_SIZE + size - 1, m.gran) < m.tags.len()
    &&& forall|off: int| 0 <= off < chunks_for(size) ==> !(#[trigger] m.used[idx + off])
    &&& tag_ok(m.tags, unit_of(idx * CHUNK_SIZE, m.gran), ty)
    &&& tag_ok(m.tags, unit_of(idx * CHUNK_SIZE + size - 1, m.gran), ty)
}

/// Chunk occupancy after marking chunks `c0 <= c < c1` used.
pub open spec fn mark_chunks(used: Seq<bool>, c0: int, c1: int) -> Seq<bool> {
    Seq::new(used.len(), |c: int| if c0 <= c < c1 { true } else { used[c] })
}

/// Chunk occupancy after clearing chunks `c0 <= c < c1`.
pub open spec fn clear_chunks(used: Seq<bool>, c0: int, c1: int) -> Seq<bool> {
    Seq::new(used.len(), |c: int| if c0 <= c < c1 { false } else { used[c] })
}

/// Tags after stamping units `u0 <= u <= u1` with `ty`.
pub open spec fn stamp_units(tags: Seq<Option<Type>>, u0: int, u1: int, ty: Type) -> Seq<
    Option<Type>,
> {
    Seq::new(tags.len(), |u: int| if u0 <= u <= u1 { Some(ty) } else { tags[u] })
}

/// Index of the live span that starts at `start`.
pub open spec fn locate_span(live: Seq<Span>, start: int) -> int {
    choose|k: int| 0 <= k < live.len() && live[k].start == start
}

/// Sub-allocates byte ranges from a fixed-size region, one occupancy bit
/// per chunk and one type tag per buffer/image-granularity unit.
pub struct ChunkAlloc {
    chunks: u64,
    used: Vec<bool>,
    used_types: Vec<Option<Type>>,
    buffer_image_granularity: u64,
    total: Ghost<int>,
    live: Ghost<Seq<Span>>,
}

impl View for ChunkAlloc {
    type V = RangeModel;

    closed spec fn view(&self) -> RangeModel {
        RangeModel {
            total: self.total@,
            gran: self.buffer_image_granularity as int,
            used: self.used@,
            tags: self.used_types@,
            live: self.live@,
        }
    }
}

impl ChunkAlloc {
    /// The `chunks` field caches the chunk count.
    pub closed spec fn fields_ok(&self) -> bool {
        self.chunks == self.used@.len()
    }

    /// Full invariant of a `ChunkAlloc` value.
    pub open spec fn inv(&self) -> bool {
        self@.wf() && self.fields_ok()
    }

    /// Fresh region of `size` bytes with granularity
    /// `buffer_image_granularity`: every chunk free, every unit untagged.
    pub fn new_region(size: u64, buffer_image_granularity: u64) -> (r: ChunkAlloc)
        requires
            1 <= buffer_image_granularity <= 0x4000_0000,
            size <= 0x4000_0000,
        ensures
            r.inv(),
            r@.is_fresh(),
            r@.total == size,
            r@.gran == buffer_image_granularity,
            r@.live == Seq::<Span>::empty(),
    {
        let chunks = size / CHUNK_SIZE;
        let units = size / buffer_image_granularity;
        proof {
            assert(chunks <= size && units <= size) by (nonlinear_arith)
                requires
                    1 <= buffer_image_granularity,
                    0 <= size,
                    chunks == size / CHUNK_SIZE,
                    units == size / buffer_image_granularity,
            {
            }
        }
        let used = vec![false; chunks as usize];
        let used_types = vec![None; units as usize];
        ChunkAlloc {
            chunks,
            used,
            used_types,
            buffer_image_granularity,
            total: Ghost(size as int),
            live: Ghost(Seq::empty()),
        }
    }

    /// Return a previously allocated range (given as the pair that
    /// `allocate` returned) to the region. The covered chunks become free
    /// again; the granularity-unit tags deliberately keep their kind, so a
    /// freed unit can only be reused by an allocation of the same kind.
    pub fn free(&mut self, range: (u64, u64))
        requires
            old(self).inv(),
            exists|k: int|
                0 <= k < old(self)@.live.len() && (#[trigger] old(self)@.live[k]).start == range.0
                    && old(self)@.live[k].start + old(self)@.live[k].size == range.1,
        ensures
            final(self).inv(),
            final(self)@.total == old(self)@.total,
            final(self)@.gran == old(self)@.gran,
            final(self)@.tags == old(self)@.tags,
            ({
                let k = locate_span(old(self)@.live, range.0 as int);
                &&& 0 <= k < old(self)@.live.len()
                &&& old(self)@.live[k].start == range.0
                &&& old(self)@.live[k].start + old(self)@.live[k].size == range.1
                &&& final(self)@.live == old(self)@.live.remove(k)
                &&& final(self)@.used == clear_chunks(
                    old(self)@.used,
                    chunk_of(range.0 as int),
                    chunk_of(range.0 as int) + chunks_for(old(self)@.live[k].size),
                )
            }),
    {
        let ghost m = self@;
        let ghost k = locate_span(m.live, range.0 as int);
        proof {
            assert(0 <= k < m.live.len() && m.live[k].start == range.0);
            lemma_span_start_unique(m, k, range.0 as int);
            assert(span_wf(m, m.live[k]));
            lemma_chunk_bounds(m.live[k].start, m.live[k].size);
        }
        let start = (range.0 + (CHUNK_SIZE - 1)) / CHUNK_SIZE;
        let end = (range.1 + (CHUNK_SIZE - 1)) / CHUNK_SIZE;
        proof {
            lemma_ceil_of_aligned(range.0 as int);
            assert(start == chunk_of(range.0 as int));
            assert(end == chunk_of(range.0 as int) + chunks_for(m.live[k].size));
        }
        let mut i = start;
        while i < end
            invariant
                start <= i <= end,
                end <= self.used.len(),
                self.chunks == self.used@.len(),
                self.used@.len() == m.used.len(),
                self.used_types@ == m.tags,
                self.live@ == m.live,
                self.total@ == m.total,
                self.buffer_image_granularity == m.gran,
                forall|c: int| 0 <= c < m.used.len() && !(start <= c < i) ==> self.used@[c] == m.used[c],
                forall|c: int| start <= c < i ==> !self.used@[c],
            decreases end - i,
        {
            self.used.set(i as usize, false);
            i = i + 1;
        }
        proof {
            self.live@ = m.live.remove(k);
            assert(self@.used =~= clear_chunks(m.used, start as int, end as int));
            lemma_free_preserves_wf(m, k);
            assert(self@ =~= spec_free(m, k));
        }
    }

    /// Allocate `size` bytes of kind `ty`, aligned to `align` (which must
    /// divide the chunk size, so chunk-aligned starts satisfy it). The scan
    /// walks candidate start chunks: a candidate whose boundary granularity
    /// unit is tagged with the other kind is skipped by the
    /// granularity-in-chunks amount, one with an occupied chunk advances by
    /// one, and the search gives up once the arrays end. On success the
    /// covered chunks are marked used and the covered granularity units are
    /// stamped with the kind. When the granularity divides the chunk size
    /// the search is exhaustive: `None` means no placement exists at all.
    pub fn allocate(&mut self, ty: Type, size: u64, align: u64) -> (r: Option<(u64, u64)>)
        requires
            old(self).inv(),
            1 <= size <= 0x4000_0000,
            1 <= align,
            CHUNK_SIZE % align == 0,
        ensures
            final(self).inv(),
            final(self)@.total == old(self)@.total,
            final(self)@.gran == old(self)@.gran,
            match r {
                Some(range) => {
                    &&& range.1 == range.0 + size
                    &&& range.0 % CHUNK_SIZE == 0
                    &&& range.0 % align == 0
                    &&& chunk_of(range.0 as int) * CHUNK_SIZE == range.0
                    &&& can_place(old(self)@, chunk_of(range.0 as int), size as int, ty)
                    &&& (CHUNK_SIZE as int) % old(self)@.gran == 0 ==> forall|j: int|
                        0 <= j < chunk_of(range.0 as int) ==> !can_place(
                            old(self)@,
                            j,
                            size as int,
                            ty,
                        )
                    &&& range.0 + size <= old(self)@.used.len() * CHUNK_SIZE
                    &&& final(self)@ == spec_allocate(
                        old(self)@,
                        chunk_of(range.0 as int),
                        size as int,
                        ty,
                    )
                    &&& final(self)@.live == old(self)@.live.push(
                        (Span { start: range.0 as int, size: size as int, ty }),
                    )
                },
                None => {
                    &&& final(self)@ == old(self)@
                    &&& (CHUNK_SIZE as int) % old(self)@.gran == 0 ==> forall|j: int|
                        !can_place(old(self)@, j, size as int, ty)
                },
            },
    {
        let ghost m = self@;
        let chunks = (size + (CHUNK_SIZE - 1)) / CHUNK_SIZE;
        let skip = (self.buffer_image_granularity + (CHUNK_SIZE - 1)) / CHUNK_SIZE;
        let used_len = self.used.len() as u64;
        proof {
            lemma_chunks_cover(size as int);
            lemma_skip_amount(m.gran);
            lemma_div_is_ordered(m.total, 0x4000_0000, CHUNK_SIZE as int);
            lemma_div_is_ordered(
                size as int + CHUNK_SIZE - 1,
                0x4000_0000 + CHUNK_SIZE - 1,
                CHUNK_SIZE as int,
            );
            lemma_div_is_ordered(
                m.gran + CHUNK_SIZE - 1,
                0x4000_0000 + CHUNK_SIZE - 1,
                CHUNK_SIZE as int,
            );
        }
        let mut idx: u64 = 0;
        let mut found: Option<u64> = None;
        loop
            invariant_except_break
                found is None,
            invariant
                (CHUNK_SIZE as int) % m.gran == 0 ==> forall|j: int|
                    0 <= j < idx ==> !can_place(m, j, size as int, ty),
                self.inv(),
                self@ == m,
                self.buffer_image_granularity == m.gran,
                chunks == chunks_for(size as int),
                1 <= chunks,
                1 <= skip,
                (CHUNK_SIZE as int) % m.gran == 0 ==> skip == 1,
                used_len == m.used.len(),
                used_len <= 0x20000,
                chunks <= 0x20001,
                skip <= 0x20001,
                1 <= size <= 0x4000_0000,
                idx <= used_len + skip,
            ensures
                self@ == m,
                self.inv(),
                self.buffer_image_granularity == m.gran,
                match found {
                    None => (CHUNK_SIZE as int) % m.gran == 0 ==> forall|j: int|
                        !can_place(m, j, size as int, ty),
                    Some(i) => can_place(m, i as int, size as int, ty) && i + chunks <= used_len
                        && chunks == chunks_for(size as int) && ((CHUNK_SIZE as int) % m.gran == 0
                        ==> forall|j: int| 0 <= j < i ==> !can_place(m, j, size as int, ty)),
                },
            decreases used_len + skip + 1 - idx,
        {
            if idx + chunks > used_len {
                proof {
                    if (CHUNK_SIZE as int) % m.gran == 0 {
                        assert forall|j: int| !can_place(m, j, size as int, ty) by {
                            if 0 <= j < idx {
                            } else if j >= idx {
                                assert(j + chunks_for(size as int) > m.used.len());
                            }
                        }
                    }
                }
                break;
            }
            proof {
                lemma_mul_inequality(idx as int, 0x40801, CHUNK_SIZE as int);
                lemma_mul_nonnegative(idx as int, CHUNK_SIZE as int);
            }
            let start_byte = idx * CHUNK_SIZE;
            let ty_idx_u64 = start_byte / self.buffer_image_granularity;
            proof {
                vstd::arithmetic::div_mod::lemma_div_pos_is_pos(start_byte as int, m.gran);
                vstd::arithmetic::div_mod::lemma_div_nonincreasing(start_byte as int, m.gran);
            }
            if ty_idx_u64 >= self.used_types.len() as u64 {
                proof {
                    if (CHUNK_SIZE as int) % m.gran == 0 {
                        assert forall|j: int| !can_place(m, j, size as int, ty) by {
                            if 0 <= j < idx {
                            } else if j >= idx {
                                lemma_mul_inequality(idx as int, j, CHUNK_SIZE as int);
                                lemma_div_is_ordered(
                                    idx * CHUNK_SIZE,
                                    j * CHUNK_SIZE + size - 1,
                                    m.gran,
                                );
                                assert(unit_of(j * CHUNK_SIZE + size - 1, m.gran) >= m.tags.len());
                            }
                        }
                    }
                }
                break;
            }
            let ty_idx = ty_idx_u64 as usize;
            let t0 = self.used_types[ty_idx];
            let start_conflict = match t0 {
                None => false,
                Some(t) => t != ty,
            };
            if start_conflict {
                proof {
                    if (CHUNK_SIZE as int) % m.gran == 0 {
                        assert(!tag_ok(m.tags, unit_of(idx * CHUNK_SIZE, m.gran), ty));
                        assert forall|j: int| 0 <= j < idx + skip implies !can_place(
                            m,
                            j,
                            size as int,
                            ty,
                        ) by {}
                    }
                }
                idx = idx + skip;
                continue;
            }
            let last_byte = start_byte + size - 1;
            let ty_end_u64 = last_byte / self.buffer_image_granularity;
            proof {
                vstd::arithmetic::div_mod::lemma_div_pos_is_pos(last_byte as int, m.gran);
                vstd::arithmetic::div_mod::lemma_div_nonincreasing(last_byte as int, m.gran);
            }
            if ty_end_u64 >= self.used_types.len() as u64 {
                proof {
                    if (CHUNK_SIZE as int) % m.gran == 0 {
                        assert forall|j: int| !can_place(m, j, size as int, ty) by {
                            if 0 <= j < idx {
                            } else if j >= idx {
                                lemma_mul_inequality(idx as int, j, CHUNK_SIZE as int);
                                lemma_div_is_ordered(
                                    idx * CHUNK_SIZE + size - 1,
                                    j * CHUNK_SIZE + size - 1,
                                    m.gran,
                                );
                                assert(unit_of(j * CHUNK_SIZE + size - 1, m.gran) >= m.tags.len());
                            }
                        }
                    }
                }
                break;
            }
            let ty_idx_end = ty_end_u64 as usize;
            let t1 = self.used_types[ty_idx_end];
            let end_conflict = match t1 {
                None => false,
                Some(t) => t != ty,
            };
            if end_conflict {
                proof {
                    if (CHUNK_SIZE as int) % m.gran == 0 {
                        assert(!tag_ok(m.tags, unit_of(idx * CHUNK_SIZE + size - 1, m.gran), ty));
                        assert forall|j: int| 0 <= j < idx + skip implies !can_place(
                            m,
                            j,
                            size as int,
                            ty,
                        ) by {}
                    }
                }
                idx = idx + skip;
                continue;
            }
            let mut off: u64 = 0;
            let mut all_free = true;
            while off < chunks
                invariant_except_break
                    all_free,
                    forall|o: int| 0 <= o < off ==> !(#[trigger] m.used[idx + o]),
                invariant
                    self.inv(),
                    self@ == m,
                    self.buffer_image_granularity == m.gran,
                    off <= chunks,
                    idx + chunks <= used_len,
                    used_len == m.used.len(),
                ensures
                    self@ == m,
                    all_free ==> forall|o: int| 0 <= o < chunks ==> !(#[trigger] m.used[idx + o]),
                    !all_free ==> exists|o: int| 0 <= o < chunks && m.used[idx + #[trigger] (o * 1)],
                decreases chunks - off,
            {
                if self.used[(idx + off) as usize] {
                    all_free = false;
                    proof {
                        assert(m.used[idx + (off as int) * 1]);
                    }
                    break;
                }
                off = off + 1;
            }
            if all_free {
                found = Some(idx);
                proof {
                    assert(can_place(m, idx as int, size as int, ty)) by {
                        assert forall|o: int| 0 <= o < chunks_for(size as int) implies !(
                        #[trigger] m.used[idx + o]) by {}
                    }
                }
                break;
            }
            proof {
                let o = choose|o: int| 0 <= o < chunks && m.used[idx + #[trigger] (o * 1)];
                assert(!can_place(m, idx as int, size as int, ty));
                if (CHUNK_SIZE as int) % m.gran == 0 {
                    assert forall|j: int| 0 <= j < idx + 1 implies !can_place(m, j, size as int, ty)
                        by {}
                }
            }
            idx = idx + 1;
        }

        match found {
            None => None,
            Some(i) => {
                let start = i * CHUNK_SIZE;
                proof {
                    lemma_mul_inequality(i as int, 0x40801, CHUNK_SIZE as int);
                    lemma_mul_nonnegative(i as int, CHUNK_SIZE as int);
                    lemma_chunk_of_offset(i as int, 0);
                    lemma_mod_multiples_basic(i as int, CHUNK_SIZE as int);
                    lemma_aligned_start(i as int, align as int);
                    lemma_chunks_cover(size as int);
                    lemma_mul_inequality(
                        i as int + chunks_for(size as int),
                        m.used.len() as int,
                        CHUNK_SIZE as int,
                    );
                    lemma_mul_is_distributive_add_other_way(
                        CHUNK_SIZE as int,
                        i as int,
                        chunks_for(size as int),
                    );
                }
                let end = start + size;
                let mut off: u64 = 0;
                proof {
                    assert(self.used@ =~= mark_chunks(m.used, i as int, i as int));
                }
                while off < chunks
                    invariant
                        off <= chunks,
                        chunks == chunks_for(size as int),
                        i + chunks <= self.used@.len(),
                        self.used@.len() == m.used.len(),
                        i + chunks <= 0x40000,
                        self.used_types@ == m.tags,
                        self.live@ == m.live,
                        self.total@ == m.total,
                        self.buffer_image_granularity == m.gran,
                        self.chunks == self.used@.len(),
                        self.used@ == mark_chunks(m.used, i as int, i as int + off),
                    decreases chunks - off,
                {
                    self.used.set((i + off) as usize, true);
                    off = off + 1;
                    proof {
                        assert(self.used@ =~= mark_chunks(m.used, i as int, i as int + off));
                    }
                }
                proof {
                    assert(self.used@ =~= mark_chunks(
                        m.used,
                        i as int,
                        i as int + chunks_for(size as int),
                    ));
                }
                let u0 = start / self.buffer_image_granularity;
                let u1 = (start + size - 1) / self.buffer_image_granularity;
                proof {
                    lemma_div_is_ordered(start as int, start as int + size - 1, m.gran);
                    vstd::arithmetic::div_mod::lemma_div_pos_is_pos(start as int, m.gran);
                    vstd::arithmetic::div_mod::lemma_div_nonincreasing(
                        start as int + size - 1,
                        m.gran,
                    );
                    assert(u1 == unit_of(i as int * CHUNK_SIZE + size - 1, m.gran));
                    assert(u1 < m.tags.len());
                    assert(self.used_types@ =~= Seq::new(
                        m.tags.len(),
                        |x: int| if u0 <= x < u0 { Some(ty) } else { m.tags[x] },
                    ));
                }
                let mut u = u0;
                while u <= u1
                    invariant
                        u0 <= u <= u1 + 1,
                        0 <= u0,
                        u1 <= 0xC200_0000,
                        u1 < self.used_types@.len(),
                        self.used_types@.len() == m.tags.len(),
                        self.used@ == mark_chunks(m.used, i as int, i as int + chunks_for(size as int)),
                        self.live@ == m.live,
                        self.total@ == m.total,
                        self.buffer_image_granularity == m.gran,
                        self.chunks == self.used@.len(),
                        self.used@.len() == m.used.len(),
                        self.used_types@ == Seq::new(
                            m.tags.len(),
                            |x: int| if u0 <= x < u { Some(ty) } else { m.tags[x] },
                        ),
                    decreases u1 + 1 - u,
                {
                    self.used_types.set(u as usize, Some(ty));
                    u = u + 1;
                    proof {
                        assert(self.used_types@ =~= Seq::new(
                            m.tags.len(),
                            |x: int| if u0 <= x < u { Some(ty) } else { m.tags[x] },
                        ));
                    }
                }
                proof {
                    self.live@ = m.live.push(Span { start: start as int, size: size as int, ty });
                    assert(self.used_types@ =~= stamp_units(
                        m.tags,
                        unit_of(i as int * CHUNK_SIZE, m.gran),
                        unit_of(i as int * CHUNK_SIZE + size - 1, m.gran),
                        ty,
                    ));
                    lemma_allocate_preserves_wf(m, i as int, size as int, ty);
                    assert(self@ =~= spec_allocate(m, i as int, size as int, ty));
                    assert(chunk_of(start as int) == i as int);
                }
                Some((start, end))
            },
        }
    }
}

/// The skip amount `ceil(granularity / CHUNK_SIZE)` is at least one, and
/// exactly one when the granularity divides the chunk size.
proof fn lemma_skip_amount(gran: int)
    requires
        1 <= gran <= 0x4000_0000,
    ensures
        1 <= (gran + CHUNK_SIZE - 1) / (CHUNK_SIZE as int),
        (CHUNK_SIZE as int) % gran == 0 ==> (gran + CHUNK_SIZE - 1) / (CHUNK_SIZE as int) == 1,
{
    let c = CHUNK_SIZE as int;
    lemma_div_is_ordered(c, gran + c - 1, c);
    vstd::arithmetic::div_mod::lemma_div_by_self(c);
    if c % gran == 0 {
        let q = c / gran;
        lemma_fundamental_div_mod(c, gran);
        assert(c == q * gran) by (nonlinear_arith)
            requires
                c == gran * q + c % gran,
                c % gran == 0,
        {
        }
        assert(gran <= c) by (nonlinear_arith)
            requires
                c == q * gran,
                1 <= gran,
                1 <= c,
        {
        }
        lemma_fundamental_div_mod_converse(gran + c - 1, c, 1, gran - 1);
    }
}

/// `ceil(b / CHUNK_SIZE) == b / CHUNK_SIZE` for chunk-aligned `b`.
proof fn lemma_ceil_of_aligned(b: int)
    requires
        0 <= b,
        b % (CHUNK_SIZE as int) == 0,
    ensures
        (b + CHUNK_SIZE - 1) / (CHUNK_SIZE as int) == b / (CHUNK_SIZE as int),
{
    let c = CHUNK_SIZE as int;
    lemma_fundamental_div_mod(b, c);
    lemma_fundamental_div_mod_converse(b + c - 1, c, b / c, c - 1);
}

/// The end chunk of a span equals its first chunk plus its chunk count.
proof fn lemma_chunk_bounds(start: int, size: int)
    requires
        0 <= start,
        start % (CHUNK_SIZE as int) == 0,
        1 <= size,
    ensures
        (start + size + CHUNK_SIZE - 1) / (CHUNK_SIZE as int) == chunk_of(start) + chunks_for(size),
        chunk_of(start) * CHUNK_SIZE == start,
{
    let c = CHUNK_SIZE as int;
    lemma_fundamental_div_mod(start, c);
    lemma_fundamental_div_mod(size + c - 1, c);
    let q = (size + c - 1) / c;
    let r = (size + c - 1) % c;
    lemma_fundamental_div_mod_converse(start + size + c - 1, c, start / c + q, r);
}

/// Live spans have distinct starts, so `locate_span` is unambiguous.
proof fn lemma_span_start_unique(m: RangeModel, k: int, start: int)
    requires
        m.wf(),
        0 <= k < m.live.len(),
        m.live[k].start == start,
    ensures
        forall|j: int|
            0 <= j < m.live.len() && (#[trigger] m.live[j]).start == start ==> j == k,
{
    assert forall|j: int|
        0 <= j < m.live.len() && (#[trigger] m.live[j]).start == start implies j == k by {
        if j != k {
            assert(spans_chunk_disjoint(m.live[j], m.live[k]) || spans_chunk_disjoint(
                m.live[k],
                m.live[j],
            ));
            assert(chunks_for(m.live[j].size) >= 1);
            assert(chunks_for(m.live[k].size) >= 1);
        }
    }
}

/// State after freeing live span `k`.
pub open spec fn spec_free(m: RangeModel, k: int) -> RangeModel {
    let s = m.live[k];
    RangeModel {
        used: clear_chunks(m.used, chunk_of(s.start), chunk_of(s.start) + chunks_for(s.size)),
        live: m.live.remove(k),
        ..m
    }
}

/// Freeing a live span preserves the region invariant: the other spans'
/// chunks are untouched because live spans occupy disjoint chunks.
proof fn lemma_free_preserves_wf(m: RangeModel, k: int)
    requires
        m.wf(),
        0 <= k < m.live.len(),
    ensures
        spec_free(m, k).wf(),
{
    let next = spec_free(m, k);
    let s = m.live[k];
    assert forall|j: int| 0 <= j < next.live.len() implies span_wf(next, #[trigger] next.live[j]) by {
        let orig = if j < k {
            j
        } else {
            j + 1
        };
        assert(next.live[j] == m.live[orig]);
        assert(span_wf(m, m.live[orig]));
        assert(spans_chunk_disjoint(m.live[orig], s) || spans_chunk_disjoint(s, m.live[orig]));
        assert forall|c: int|
            chunk_of(next.live[j].start) <= c < chunk_of(next.live[j].start) + chunks_for(
                next.live[j].size,
            ) implies next.used[c] by {
            assert(m.used[c]);
        }
    }
    assert forall|i: int, j: int| 0 <= i < j < next.live.len() implies spans_chunk_disjoint(
        #[trigger] next.live[i],
        #[trigger] next.live[j],
    ) by {
        let oi = if i < k {
            i
        } else {
            i + 1
        };
        let oj = if j < k {
            j
        } else {
            j + 1
        };
        assert(next.live[i] == m.live[oi]);
        assert(next.live[j] == m.live[oj]);
    }
}

} // verus!

use vstd::arithmetic::mul::{
    lemma_mul_inequality, lemma_mul_is_distributive_add_other_way, lemma_mul_nonnegative,
};

verus! {

/// State after allocating `size` bytes of kind `ty` at chunk `idx`.
pub open spec fn spec_allocate(m: RangeModel, idx: int, size: int, ty: Type) -> RangeModel {
    RangeModel {
        used: mark_chunks(m.used, idx, idx + chunks_for(size)),
        tags: stamp_units(
            m.tags,
            unit_of(idx * CHUNK_SIZE, m.gran),
            unit_of(idx * CHUNK_SIZE + size - 1, m.gran),
            ty,
        ),
        live: m.live.push(Span { start: idx * CHUNK_SIZE, size: size, ty }),
        ..m
    }
}

/// `size` bytes need `chunks_for(size)` chunks: at least one, and together
/// they cover the size.
proof fn lemma_chunks_cover(size: int)
    requires
        1 <= size,
    ensures
        1 <= chunks_for(size),
        size <= chunks_for(size) * CHUNK_SIZE,
        (size - 1) / (CHUNK_SIZE as int) + 1 == chunks_for(size),
{
    let c = CHUNK_SIZE as int;
    lemma_fundamental_div_mod(size - 1, c);
    let q = (size - 1) / c;
    let r = (size - 1) % c;
    assert(size + c - 1 == (q + 1) * c + r) by (nonlinear_arith)
        requires
            size - 1 == q * c + r,
            c == CHUNK_SIZE as int,
    {
    }
    lemma_fundamental_div_mod_converse(size + c - 1, c, q + 1, r);
    assert(q >= 0) by (nonlinear_arith)
        requires
            q * c + r == size - 1,
            0 <= r < c,
            1 <= size,
            c == CHUNK_SIZE as int,
    {
    }
    assert(size <= (q + 1) * c) by (nonlinear_arith)
        requires
            size - 1 == q * c + r,
            0 <= r < c,
            c == CHUNK_SIZE as int,
    {
    }
}

/// Chunk index of a byte at offset `d` into the range starting at chunk `idx`.
proof fn lemma_chunk_of_offset(idx: int, d: int)
    requires
        0 <= idx,
        0 <= d,
    ensures
        chunk_of(idx * CHUNK_SIZE + d) == idx + d / (CHUNK_SIZE as int),
{
    let c = CHUNK_SIZE as int;
    lemma_fundamental_div_mod(d, c);
    assert(idx * c + d == (idx + d / c) * c + d % c) by (nonlinear_arith)
        requires
            d == c * (d / c) + d % c,
    {
    }
    lemma_fundamental_div_mod_converse(idx * c + d, c, idx + d / c, d % c);
}

/// A chunk-aligned start is `chunk_of(start) * CHUNK_SIZE`.
proof fn lemma_aligned_chunk(start: int)
    requires
        0 <= start,
        start % (CHUNK_SIZE as int) == 0,
    ensures
        chunk_of(start) * CHUNK_SIZE == start,
        0 <= chunk_of(start),
{
    let c = CHUNK_SIZE as int;
    lemma_fundamental_div_mod(start, c);
    assert(start == (start / c) * c) by (nonlinear_arith)
        requires
            start == c * (start / c) + start % c,
            start % c == 0,
    {
    }
    vstd::arithmetic::div_mod::lemma_div_pos_is_pos(start, c);
}

/// When the granularity divides the chunk size, two bytes in the same
/// granularity unit lie in the same chunk: a unit never straddles a chunk
/// boundary.
proof fn lemma_same_unit_same_chunk(b1: int, b2: int, g: int)
    requires
        1 <= g,
        (CHUNK_SIZE as int) % g == 0,
        0 <= b1,
        0 <= b2,
        b1 / g == b2 / g,
    ensures
        chunk_of(b1) == chunk_of(b2),
{
    let c = CHUNK_SIZE as int;
    let q = c / g;
    lemma_fundamental_div_mod(c, g);
    assert(c == q * g) by (nonlinear_arith)
        requires
            c == g * q + c % g,
            c % g == 0,
    {
    }
    assert(1 <= q) by (nonlinear_arith)
        requires
            c == q * g,
            1 <= g,
            c == CHUNK_SIZE as int,
    {
    }
    let u = b1 / g;
    lemma_fundamental_div_mod(u, q);
    let s = u % q;
    assert(0 <= u) by {
        vstd::arithmetic::div_mod::lemma_div_pos_is_pos(b1, g);
    }
    vstd::arithmetic::div_mod::lemma_mod_pos_bound(u, q);
    lemma_unit_chunk_quotient(b1, g, q, u, s);
    lemma_unit_chunk_quotient(b2, g, q, u, s);
}

/// Helper for `lemma_same_unit_same_chunk`: a byte whose granularity unit
/// is `u` lies in chunk `u / q` where `q` is units per chunk.
proof fn lemma_unit_chunk_quotient(b: int, g: int, q: int, u: int, s: int)
    requires
        1 <= g,
        1 <= q,
        (CHUNK_SIZE as int) == q * g,
        0 <= b,
        b / g == u,
        u % q == s,
    ensures
        chunk_of(b) == u / q,
{
    let c = CHUNK_SIZE as int;
    lemma_fundamental_div_mod(b, g);
    lemma_fundamental_div_mod(u, q);
    vstd::arithmetic::div_mod::lemma_mod_pos_bound(u, q);
    let r = b % g;
    assert(b == (u / q) * c + (s * g + r)) by (nonlinear_arith)
        requires
            b == g * u + r,
            u == q * (u / q) + s,
            c == q * g,
    {
    }
    assert(0 <= s * g + r < c) by (nonlinear_arith)
        requires
            0 <= s < q,
            0 <= r < g,
            c == q * g,
    {
    }
    lemma_fundamental_div_mod_converse(b, c, u / q, s * g + r);
}

/// Every granularity unit between the units of a range's first and last
/// bytes contains a byte of the range.
proof fn lemma_unit_range_has_byte(start: int, end: int, u: int, g: int)
    requires
        1 <= g,
        0 <= start < end,
        unit_of(start, g) <= u <= unit_of(end - 1, g),
    ensures
        exists|b: int| start <= b < end && unit_of(#[trigger] (b * 1), g) == u,
{
    lemma_fundamental_div_mod(start, g);
    lemma_fundamental_div_mod(end - 1, g);
    if u * g >= start {
        let b = u * g;
        let q = (end - 1) / g;
        let r = (end - 1) % g;
        assert(b <= end - 1) by (nonlinear_arith)
            requires
                b == u * g,
                u <= q,
                end - 1 == g * q + r,
                0 <= r,
                1 <= g,
        {
        }
        lemma_fundamental_div_mod_converse(b, g, u, 0);
        assert(b * 1 == b);
        assert(start <= b < end && unit_of(b * 1, g) == u);
    } else {
        let b = start;
        assert(u == start / g) by (nonlinear_arith)
            requires
                u * g < start,
                u >= start / g,
                start == g * (start / g) + start % g,
                0 <= start % g < g,
                1 <= g,
        {
        }
        assert(b * 1 == b);
        assert(start <= b < end && unit_of(b * 1, g) == u);
    }
}

/// Chunk-aligned starts are aligned to any divisor of the chunk size.
proof fn lemma_aligned_start(idx: int, align: int)
    requires
        0 <= idx,
        1 <= align,
        (CHUNK_SIZE as int) % align == 0,
    ensures
        (idx * CHUNK_SIZE) % align == 0,
{
    let c = CHUNK_SIZE as int;
    let k = c / align;
    lemma_fundamental_div_mod(c, align);
    assert(idx * c == (idx * k) * align) by (nonlinear_arith)
        requires
            c == align * k + c % align,
            c % align == 0,
    {
    }
    lemma_mod_multiples_basic(idx * k, align);
}

/// Allocation at a placeable chunk preserves the region invariant. The
/// newly stamped granularity units cannot belong to any older live span:
/// when the granularity divides the chunk size a shared unit would mean a
/// shared chunk, and the new chunks were free while every live span's
/// chunks are used.
proof fn lemma_allocate_preserves_wf(m: RangeModel, idx: int, size: int, ty: Type)
    requires
        m.wf(),
        1 <= size,
        can_place(m, idx, size, ty),
    ensures
        spec_allocate(m, idx, size, ty).wf(),
{
    let c = CHUNK_SIZE as int;
    let g = m.gran;
    let next = spec_allocate(m, idx, size, ty);
    let start = idx * c;
    let cf = chunks_for(size);
    let s = Span { start: idx * CHUNK_SIZE, size: size, ty };
    let u0 = unit_of(start, g);
    let u1 = unit_of(start + size - 1, g);
    lemma_chunks_cover(size);
    lemma_mul_nonnegative(idx, c);
    lemma_mod_multiples_basic(idx, c);
    lemma_chunk_of_offset(idx, 0);
    lemma_chunk_of_offset(idx, size - 1);
    vstd::arithmetic::div_mod::lemma_div_pos_is_pos(size - 1, c);
    vstd::arithmetic::div_mod::lemma_div_pos_is_pos(start, g);
    assert(chunk_of(start) == idx);
    assert(start + size <= m.used.len() * c) by {
        lemma_mul_inequality(idx + cf, m.used.len() as int, c);
        lemma_mul_is_distributive_add_other_way(c, idx, cf);
    }
    assert(span_wf(next, s)) by {
        assert forall|cc: int| chunk_of(s.start) <= cc < chunk_of(s.start) + chunks_for(s.size)
            implies next.used[cc] by {}
        if c % g == 0 {
            assert forall|u: int| unit_of(s.start, g) <= u <= unit_of(s.start + s.size - 1, g)
                implies next.tags[u] == Some(s.ty) by {
                assert(0 <= u0);
                assert(u <= u1 < m.tags.len());
            }
        }
    }
    assert forall|k: int| 0 <= k < m.live.len() implies span_wf(next, #[trigger] m.live[k]) by {
        let sk = m.live[k];
        assert(span_wf(m, sk));
        lemma_aligned_chunk(sk.start);
        assert forall|cc: int| chunk_of(sk.start) <= cc < chunk_of(sk.start) + chunks_for(sk.size)
            implies next.used[cc] by {
            assert(m.used[cc]);
        }
        if c % g == 0 {
            assert forall|u: int|
                unit_of(sk.start, g) <= u <= unit_of(sk.start + sk.size - 1, g) implies next.tags[u]
                == Some(sk.ty) by {
                if u0 <= u <= u1 {
                    // A stamped unit would share a chunk with the old span.
                    lemma_unit_range_has_byte(sk.start, sk.start + sk.size, u, g);
                    let b_old = choose|b: int|
                        sk.start <= b < sk.start + sk.size && unit_of(#[trigger] (b * 1), g) == u;
                    lemma_unit_range_has_byte(start, start + size, u, g);
                    let b_new = choose|b: int|
                        start <= b < start + size && unit_of(#[trigger] (b * 1), g) == u;
                    lemma_same_unit_same_chunk(b_old, b_new, g);
                    lemma_chunk_of_offset(idx, b_new - start);
                    lemma_div_is_ordered(b_new - start, size - 1, c);
                    lemma_chunk_of_offset(chunk_of(sk.start), b_old - sk.start);
                    lemma_div_is_ordered(0, b_old - sk.start, c);
                    lemma_div_is_ordered(b_old - sk.start, sk.size - 1, c);
                    lemma_chunks_cover(sk.size);
                    assert(chunk_of(sk.start) <= chunk_of(b_old) < chunk_of(sk.start) + chunks_for(
                        sk.size,
                    ));
                    assert(m.used[chunk_of(b_old)]);
                    let off = chunk_of(b_new) - idx;
                    assert(0 <= off < cf);
                    assert(!m.used[idx + off]);
                    assert(false);
                } else {
                    assert(next.tags[u] == m.tags[u]);
                }
            }
        }
    }
    assert forall|i: int, j: int| 0 <= i < j < next.live.len() implies spans_chunk_disjoint(
        #[trigger] next.live[i],
        #[trigger] next.live[j],
    ) by {
        if j == m.live.len() {
            let si = m.live[i];
            assert(span_wf(m, si));
            if !spans_chunk_disjoint(si, s) {
                let lo = if chunk_of(si.start) >= idx {
                    chunk_of(si.start)
                } else {
                    idx
                };
                assert(chunk_of(si.start) <= lo < chunk_of(si.start) + chunks_for(si.size));
                assert(m.used[lo]);
                assert(0 <= lo - idx < cf);
                assert(!m.used[idx + (lo - idx)]);
                assert(false);
            }
        } else {
            assert(next.live[i] == m.live[i]);
            assert(next.live[j] == m.live[j]);
        }
    }
}

} // verus!

use vstd::arithmetic::mul::lemma_mul_strict_inequality_converse;

verus! {

/// Law: live allocations never overlap. In a well-formed region any two
/// live byte ranges are disjoint; `allocate` only returns ranges whose
/// chunks were free and preserves well-formedness, and `free` removes a
/// range, so this holds at every point of any allocate/free sequence.
pub proof fn lemma_live_ranges_disjoint(m: RangeModel, i: int, j: int)
    requires
        m.wf(),
        0 <= i < m.live.len(),
        0 <= j < m.live.len(),
        i != j,
    ensures
        m.live[i].start + m.live[i].size <= m.live[j].start || m.live[j].start + m.live[j].size
            <= m.live[i].start,
{
    let a = m.live[i];
    let b = m.live[j];
    assert(span_wf(m, a));
    assert(span_wf(m, b));
    assert(spans_chunk_disjoint(a, b) || spans_chunk_disjoint(b, a));
    lemma_span_end_bound(a);
    lemma_span_end_bound(b);
    lemma_aligned_chunk(a.start);
    lemma_aligned_chunk(b.start);
}

/// A span's bytes end no later than its chunk range does.
proof fn lemma_span_end_bound(s: Span)
    requires
        0 <= s.start,
        s.start % (CHUNK_SIZE as int) == 0,
        1 <= s.size,
    ensures
        s.start + s.size <= (chunk_of(s.start) + chunks_for(s.size)) * CHUNK_SIZE,
{
    lemma_aligned_chunk(s.start);
    lemma_chunks_cover(s.size);
    lemma_mul_is_distributive_add_other_way(
        CHUNK_SIZE as int,
        chunk_of(s.start),
        chunks_for(s.size),
    );
}

/// Larger requests never need fewer chunks.
proof fn lemma_chunks_for_monotone(s1: int, s2: int)
    requires
        s1 <= s2,
    ensures
        chunks_for(s1) <= chunks_for(s2),
{
    lemma_div_is_ordered(s1 + CHUNK_SIZE - 1, s2 + CHUNK_SIZE - 1, CHUNK_SIZE as int);
}

/// Law: after freeing a live range, an equal-or-smaller request of the
/// same kind can be placed where the range was (the granularity-unit tags
/// it left behind carry its own kind, so they cannot conflict). Together
/// with `allocate`'s postcondition that `None` is returned only when no
/// placement exists, a request of at most the freed size and the same kind
/// is guaranteed to succeed. Holds when the granularity divides the chunk
/// size; a granularity above the chunk size may make the skip-ahead scan
/// pass over the freed range.
pub proof fn lemma_reuse_after_free(m: RangeModel, k: int, size2: int)
    requires
        m.wf(),
        0 <= k < m.live.len(),
        (CHUNK_SIZE as int) % m.gran == 0,
        1 <= size2 <= m.live[k].size,
    ensures
        can_place(spec_free(m, k), chunk_of(m.live[k].start), size2, m.live[k].ty),
{
    let s = m.live[k];
    assert(span_wf(m, s));
    let m2 = spec_free(m, k);
    let idx = chunk_of(s.start);
    let cf = chunks_for(s.size);
    let cf2 = chunks_for(size2);
    lemma_aligned_chunk(s.start);
    lemma_chunks_cover(s.size);
    lemma_chunks_for_monotone(size2, s.size);
    // idx + cf <= used.len(): the span's chunk range lies inside the region.
    assert((idx + cf) * CHUNK_SIZE <= s.start + s.size + CHUNK_SIZE - 1) by {
        lemma_mul_is_distributive_add_other_way(CHUNK_SIZE as int, idx, cf);
    }
    assert((idx + cf) * CHUNK_SIZE < (m.used.len() + 1) * CHUNK_SIZE) by {
        lemma_mul_is_distributive_add_other_way(CHUNK_SIZE as int, m.used.len() as int, 1);
    }
    assert(idx + cf < m.used.len() + 1) by {
        lemma_mul_strict_inequality_converse(idx + cf, m.used.len() as int + 1, CHUNK_SIZE as int);
    }
    // The needed chunks are free after the clear.
    assert forall|off: int| 0 <= off < cf2 implies !(#[trigger] m2.used[idx + off]) by {}
    // Both boundary units carry the span's own kind.
    lemma_div_is_ordered(s.start, s.start + size2 - 1, m.gran);
    lemma_div_is_ordered(s.start + size2 - 1, s.start + s.size - 1, m.gran);
    assert(m.tags[unit_of(s.start, m.gran)] == Some(s.ty));
    assert(m.tags[unit_of(s.start + size2 - 1, m.gran)] == Some(s.ty));
    vstd::arithmetic::div_mod::lemma_div_pos_is_pos(s.start, m.gran);
}

/// A fresh region takes any request that fits in it, provided the
/// granularity divides the region size so the last byte's unit exists.
pub proof fn lemma_fresh_can_place(m: RangeModel, size: int, ty: Type)
    requires
        m.wf(),
        m.is_fresh(),
        m.total % m.gran == 0,
        m.total % (CHUNK_SIZE as int) == 0,
        1 <= size <= m.total,
    ensures
        can_place(m, 0, size, ty),
{
    let c = CHUNK_SIZE as int;
    let g = m.gran;
    lemma_chunks_cover(size);
    // chunks_for(size) <= chunks_for(total) == total / CHUNK_SIZE.
    lemma_chunks_for_monotone(size, m.total);
    lemma_fundamental_div_mod(m.total, c);
    assert(m.total + c - 1 == (m.total / c) * c + (c - 1)) by (nonlinear_arith)
        requires
            m.total == c * (m.total / c) + m.total % c,
            m.total % c == 0,
    {
    }
    lemma_fundamental_div_mod_converse(m.total + c - 1, c, m.total / c, c - 1);
    // unit_of(size - 1) < total / gran.
    lemma_fundamental_div_mod(m.total, g);
    assert(m.total - 1 == (m.total / g - 1) * g + (g - 1)) by (nonlinear_arith)
        requires
            m.total == g * (m.total / g) + m.total % g,
            m.total % g == 0,
    {
    }
    lemma_fundamental_div_mod_converse(m.total - 1, g, m.total / g - 1, g - 1);
    lemma_div_is_ordered(size - 1, m.total - 1, g);
}

/// The interface of a region sub-allocator: hand out ranges of requested
/// size and kind from a fixed-size region, take them back on `free`.
pub trait RangeAlloc: Sized {
    /// Abstract region state.
    spec fn model(&self) -> RangeModel;

    /// Implementation invariant; implies the model is well formed.
    spec fn valid(&self) -> bool;

    /// A fresh region of `size` bytes.
    fn new(size: u64, buffer_image_granularity: u64) -> (r: Self)
        requires
            1 <= buffer_image_granularity <= 0x4000_0000,
            size <= 0x4000_0000,
        ensures
            r.valid(),
            r.model().wf(),
            r.model().is_fresh(),
            r.model().total == size,
            r.model().gran == buffer_image_granularity,
            r.model().live == Seq::<Span>::empty(),
    ;

    /// Allocate `size` bytes of kind `ty` at `align` alignment.
    fn allocate(&mut self, ty: Type, size: u64, align: u64) -> (r: Option<(u64, u64)>)
        requires
            old(self).valid(),
            1 <= size <= 0x4000_0000,
            1 <= align,
            CHUNK_SIZE % align == 0,
        ensures
            final(self).valid(),
            final(self).model().wf(),
            final(self).model().total == old(self).model().total,
            final(self).model().gran == old(self).model().gran,
            match r {
                Some(range) => {
                    &&& range.1 == range.0 + size
                    &&& range.0 % align == 0
                    &&& can_place(old(self).model(), chunk_of(range.0 as int), size as int, ty)
                    &&& (CHUNK_SIZE as int) % old(self).model().gran == 0 ==> forall|j: int|
                        0 <= j < chunk_of(range.0 as int) ==> !can_place(
                            old(self).model(),
                            j,
                            size as int,
                            ty,
                        )
                    &&& chunk_of(range.0 as int) * CHUNK_SIZE == range.0
                    &&& final(self).model() == spec_allocate(
                        old(self).model(),
                        chunk_of(range.0 as int),
                        size as int,
                        ty,
                    )
                },
                None => {
                    &&& final(self).model() == old(self).model()
                    &&& (CHUNK_SIZE as int) % old(self).model().gran == 0 ==> forall|j: int|
                        !can_place(old(self).model(), j, size as int, ty)
                },
            },
    ;

    /// Return a range previously handed out by `allocate`.
    fn free(&mut self, range: (u64, u64))
        requires
            old(self).valid(),
            exists|k: int|
                0 <= k < old(self).model().live.len() && (#[trigger] old(
                    self,
                ).model().live[k]).start == range.0 && old(self).model().live[k].start + old(
                    self,
                ).model().live[k].size == range.1,
        ensures
            final(self).valid(),
            final(self).model().wf(),
            final(self).model() == spec_free(
                old(self).model(),
                locate_span(old(self).model().live, range.0 as int),
            ),
    ;
}

impl RangeAlloc for ChunkAlloc {
    closed spec fn model(&self) -> RangeModel {
        self@
    }

    open spec fn valid(&self) -> bool {
        self.inv()
    }

    fn new(size: u64, buffer_image_granularity: u64) -> (r: Self) {
        ChunkAlloc::new_region(size, buffer_image_granularity)
    }

    fn allocate(&mut self, ty: Type, size: u64, align: u64) -> (r: Option<(u64, u64)>) {
        let r = ChunkAlloc::allocate(self, ty, size, align);
        proof {
            if let Some(range) = r {
                assert(self@ =~= spec_allocate(
                    old(self)@,
                    chunk_of(range.0 as int),
                    size as int,
                    ty,
                ));
            }
        }
        r
    }

    fn free(&mut self, range: (u64, u64)) {
        let ghost m = self@;
        let ghost k = locate_span(m.live, range.0 as int);
        ChunkAlloc::free(self, range);
        proof {
            assert(self@ =~= spec_free(m, k));
        }
    }
}

} // verus!

verus! {

/// A device memory type as the adapter reports it: a bitset of memory
/// properties (device-local, host-visible, and so on).
pub struct MemoryType {
    pub properties: u32,
}

/// What a resource needs from its memory: byte size, alignment, and the
/// bitmask of acceptable memory types.
pub struct Requirements {
    pub size: u64,
    pub alignment: u64,
    pub type_mask: u32,
}

/// A sub-allocated range: the pool and region that own it (indices into
/// the allocator's state, by which the caller finds the backing native
/// memory object) and the byte range inside that region.
#[derive(Debug, Clone, Copy, PartialEq, Eq)]
pub struct Allocation {
    pub owner: usize,
    pub region: usize,
    pub range: (u64, u64),
}

impl Allocation {
    /// The pair identifying the backing memory object: owning pool and
    /// region index within it.
    pub fn memory(&self) -> (r: (usize, usize))
        ensures
            r == (self.owner, self.region),
    {
        (self.owner, self.region)
    }
}

/// Abstract state of one memory pool: all regions of one device memory type.
#[verifier::ext_equal]
pub ghost struct PoolModel {
    pub type_id: int,
    pub properties: u32,
    pub regions: Seq<RangeModel>,
}

/// Abstract state of the GPU allocator: the device's memory type
/// properties, the buffer/image granularity, and the pools created so far.
#[verifier::ext_equal]
pub ghost struct GpuModel {
    pub memory_types: Seq<u32>,
    pub granularity: int,
    pub pools: Seq<PoolModel>,
}

/// The memory type at `type_id` is allowed by the request's type mask and
/// offers all requested properties.
pub open spec fn type_compatible(props: u32, type_id: int, mask: u32, req: u32) -> bool {
    mask & (1u32 << (type_id as u32)) != 0 && props & req == req
}

/// First index whose element satisfies `f`.
pub open spec fn first_where<T>(s: Seq<T>, f: spec_fn(T) -> bool) -> Option<int>
    decreases s.len(),
{
    if s.len() == 0 {
        None
    } else {
        match first_where(s.drop_last(), f) {
            Some(i) => Some(i),
            None => if f(s.last()) {
                Some(s.len() - 1)
            } else {
                None
            },
        }
    }
}

/// What `first_where` selects.
pub proof fn lemma_first_where<T>(s: Seq<T>, f: spec_fn(T) -> bool)
    ensures
        match first_where(s, f) {
            None => forall|i: int| 0 <= i < s.len() ==> !f(#[trigger] s[i]),
            Some(i) => {
                &&& 0 <= i < s.len()
                &&& f(s[i])
                &&& forall|j: int| 0 <= j < i ==> !f(#[trigger] s[j])
            },
        },
    decreases s.len(),
{
    if s.len() > 0 {
        lemma_first_where(s.drop_last(), f);
        assert forall|i: int| 0 <= i < s.len() - 1 implies s.drop_last()[i] == s[i] by {}
    }
}

/// The region can take a `size`-byte allocation of kind `ty` somewhere.
pub open spec fn has_room(r: RangeModel, size: int, ty: Type) -> bool {
    exists|idx: int| can_place(r, idx, size, ty)
}

/// Predicate form of `has_room` for `first_where`.
pub open spec fn room_pred(size: int, ty: Type) -> spec_fn(RangeModel) -> bool {
    |r: RangeModel| has_room(r, size, ty)
}

/// First region of the pool with room for the request.
pub open spec fn first_room_region(regions: Seq<RangeModel>, size: int, ty: Type) -> Option<int> {
    first_where(regions, room_pred(size, ty))
}

/// Predicate form of pool matching for `first_where`.
pub open spec fn pool_pred(mask: u32, req: u32) -> spec_fn(PoolModel) -> bool {
    |p: PoolModel| type_compatible(p.properties, p.type_id, mask, req)
}

/// First pool whose memory type the request accepts.
pub open spec fn first_matching_pool(m: GpuModel, mask: u32, req: u32) -> Option<int> {
    first_where(m.pools, pool_pred(mask, req))
}

/// Predicate form of memory-type compatibility; the index is part of the
/// element here, so pair each properties word with its position.
pub open spec fn type_pred(mask: u32, req: u32) -> spec_fn((int, u32)) -> bool {
    |t: (int, u32)| type_compatible(t.1, t.0, mask, req)
}

/// The device's memory types paired with their indices.
pub open spec fn indexed_types(types: Seq<u32>) -> Seq<(int, u32)> {
    Seq::new(types.len(), |i: int| (i, types[i]))
}

/// First device memory type the request accepts.
pub open spec fn first_compatible_type(types: Seq<u32>, mask: u32, req: u32) -> Option<int> {
    first_where(indexed_types(types), type_pred(mask, req))
}

/// The fresh region every pool creates on demand.
pub open spec fn fresh_region(gran: int) -> RangeModel {
    RangeModel {
        total: REGION_SIZE as int,
        gran: gran,
        used: Seq::new(((REGION_SIZE as int) / (CHUNK_SIZE as int)) as nat, |c: int| false),
        tags: Seq::new(((REGION_SIZE as int) / gran) as nat, |u: int| None),
        live: Seq::empty(),
    }
}

/// A pool is well formed within the allocator model.
pub open spec fn pool_wf(m: GpuModel, p: PoolModel) -> bool {
    &&& 0 <= p.type_id < m.memory_types.len()
    &&& p.properties == m.memory_types[p.type_id]
    &&& forall|r: int|
        0 <= r < p.regions.len() ==> (#[trigger] p.regions[r]).wf() && p.regions[r].total
            == REGION_SIZE && p.regions[r].gran == m.granularity
}

impl GpuModel {
    /// Allocator invariant over the abstract state.
    pub open spec fn wf(self) -> bool {
        &&& self.memory_types.len() <= 32
        &&& 1 <= self.granularity
        &&& (CHUNK_SIZE as int) % self.granularity == 0
        &&& forall|i: int| 0 <= i < self.pools.len() ==> pool_wf(self, #[trigger] self.pools[i])
    }
}

/// The allocation names a live range of an existing region.
pub open spec fn valid_allocation(m: GpuModel, a: Allocation) -> bool {
    &&& a.owner < m.pools.len()
    &&& a.region < m.pools[a.owner as int].regions.len()
    &&& exists|k: int|
        {
            let live = m.pools[a.owner as int].regions[a.region as int].live;
            &&& 0 <= k < live.len()
            &&& (#[trigger] m.pools[a.owner as int].regions[a.region as int].live[k]).start
                == a.range.0
            &&& live[k].start + live[k].size == a.range.1
        }
}

/// All regions of one device memory type, created lazily as requests
/// exhaust the existing ones.
struct GPUMemory<A: RangeAlloc> {
    id: usize,
    type_id: usize,
    properties: u32,
    regions: Vec<A>,
}

impl<A: RangeAlloc> View for GPUMemory<A> {
    type V = PoolModel;

    closed spec fn view(&self) -> PoolModel {
        PoolModel {
            type_id: self.type_id as int,
            properties: self.properties,
            regions: self.regions@.map_values(|a: A| a.model()),
        }
    }
}

impl<A: RangeAlloc> GPUMemory<A> {
    /// Pool invariant: the cached id is its index (kept by `GPUAlloc`),
    /// and every region value satisfies its implementation invariant.
    spec fn pool_valid(&self) -> bool {
        forall|r: int| 0 <= r < self.regions@.len() ==> (#[trigger] self.regions@[r]).valid()
    }
}

/// Owns every memory pool; routes an allocation request to an existing
/// compatible region, or creates a region (and pool, if none of the
/// request's memory types has one) to serve it.
pub struct GPUAlloc<A: RangeAlloc> {
    memory_types: Vec<MemoryType>,
    granularity: u64,
    memory: Vec<GPUMemory<A>>,
}

impl<A: RangeAlloc> View for GPUAlloc<A> {
    type V = GpuModel;

    closed spec fn view(&self) -> GpuModel {
        GpuModel {
            memory_types: self.memory_types@.map_values(|t: MemoryType| t.properties),
            granularity: self.granularity as int,
            pools: self.memory@.map_values(|p: GPUMemory<A>| p@),
        }
    }
}

impl<A: RangeAlloc> GPUAlloc<A> {
    /// Exec-level invariant: the model is well formed, pool ids equal
    /// their indices, and every region value is valid.
    pub closed spec fn inv(&self) -> bool {
        &&& self@.wf()
        &&& forall|i: int|
            0 <= i < self.memory@.len() ==> (#[trigger] self.memory@[i]).id == i
                && self.memory@[i].pool_valid()
    }

    /// The invariant implies the abstract state is well formed.
    pub proof fn lemma_inv_wf(&self)
        requires
            self.inv(),
        ensures
            self@.wf(),
    {
    }

    /// Fresh allocator for a device with the given memory types and
    /// buffer/image granularity. The granularity must divide the chunk
    /// size; coarser granularities are not supported by this allocator.
    pub fn new(memory_types: Vec<MemoryType>, buffer_image_granularity: u64) -> (r: GPUAlloc<A>)
        requires
            memory_types@.len() <= 32,
            1 <= buffer_image_granularity,
            CHUNK_SIZE % buffer_image_granularity == 0,
        ensures
            r.inv(),
            r@.memory_types == memory_types@.map_values(|t: MemoryType| t.properties),
            r@.granularity == buffer_image_granularity,
            r@.pools == Seq::<PoolModel>::empty(),
    {
        let r = GPUAlloc { memory_types, granularity: buffer_image_granularity, memory: Vec::new() };
        proof {
            assert(r@.pools =~= Seq::<PoolModel>::empty());
        }
        r
    }
}

/// A granularity that divides the chunk size also divides the region
/// size, and the chunk size divides the region size.
proof fn lemma_gran_divides_region(gran: int)
    requires
        1 <= gran,
        (CHUNK_SIZE as int) % gran == 0,
    ensures
        (REGION_SIZE as int) % gran == 0,
        (REGION_SIZE as int) % (CHUNK_SIZE as int) == 0,
        fresh_region(gran).wf(),
        fresh_region(gran).is_fresh(),
{
    let c = CHUNK_SIZE as int;
    let rg = REGION_SIZE as int;
    let q = c / gran;
    lemma_fundamental_div_mod(c, gran);
    assert(c == q * gran) by (nonlinear_arith)
        requires
            c == gran * q + c % gran,
            c % gran == 0,
    {
    }
    assert(rg == (q * 8192) * gran) by (nonlinear_arith)
        requires
            c == q * gran,
            rg == c * 8192,
    {
    }
    lemma_mod_multiples_basic(q * 8192, gran);
    lemma_mod_multiples_basic(8192, c);
    lemma_gran_le_chunk(gran);
}

/// A granularity that divides the chunk size is at most the chunk size.
proof fn lemma_gran_le_chunk(gran: int)
    requires
        1 <= gran,
        (CHUNK_SIZE as int) % gran == 0,
    ensures
        gran <= CHUNK_SIZE,
{
    let c = CHUNK_SIZE as int;
    let q = c / gran;
    lemma_fundamental_div_mod(c, gran);
    assert(gran <= c) by (nonlinear_arith)
        requires
            c == gran * q + c % gran,
            c % gran == 0,
            1 <= gran,
            1 <= c,
    {
    }
}

} // verus!

verus! {

/// Once a prefix has a first match, the whole sequence has the same one.
proof fn lemma_first_where_prefix_some<T>(s: Seq<T>, f: spec_fn(T) -> bool, n: int)
    requires
        0 <= n <= s.len(),
        first_where(s.take(n), f) is Some,
    ensures
        first_where(s, f) == first_where(s.take(n), f),
    decreases s.len() - n,
{
    if n < s.len() {
        assert(s.take(n + 1).drop_last() =~= s.take(n));
        lemma_first_where_prefix_some(s, f, n + 1);
    } else {
        assert(s.take(n) =~= s);
    }
}

impl<A: RangeAlloc> GPUAlloc<A> {
    /// Serve an allocation request. The first pool whose memory type is in
    /// the request's mask and offers the requested properties serves it:
    /// the first of its regions with room takes it, and when none has
    /// room a fresh region is created in that pool. When no pool matches,
    /// a pool is created for the first compatible device memory type. The
    /// request's size never exceeds a region, so the call always succeeds.
    pub fn allocate(&mut self, ty: Type, requirements: &Requirements, properties: u32) -> (a:
        Allocation)
        requires
            old(self).inv(),
            1 <= requirements.size <= REGION_SIZE,
            1 <= requirements.alignment,
            CHUNK_SIZE % requirements.alignment == 0,
            first_compatible_type(old(self)@.memory_types, requirements.type_mask, properties)
                is Some,
        ensures
            final(self).inv(),
            final(self)@.memory_types == old(self)@.memory_types,
            final(self)@.granularity == old(self)@.granularity,
            a.range.1 == a.range.0 + requirements.size,
            a.range.0 % requirements.alignment == 0,
            valid_allocation(final(self)@, a),
            ({
                let m0 = old(self)@;
                let m1 = final(self)@;
                let sz = requirements.size as int;
                match first_matching_pool(m0, requirements.type_mask, properties) {
                    Some(pi) => {
                        &&& a.owner == pi
                        &&& m1.pools.len() == m0.pools.len()
                        &&& forall|q: int|
                            0 <= q < m0.pools.len() && q != pi ==> m1.pools[q] == m0.pools[q]
                        &&& m1.pools[pi].type_id == m0.pools[pi].type_id
                        &&& m1.pools[pi].properties == m0.pools[pi].properties
                        &&& match first_room_region(m0.pools[pi].regions, sz, ty) {
                            Some(ri) => {
                                &&& a.region == ri
                                &&& m1.pools[pi].regions == m0.pools[pi].regions.update(
                                    ri,
                                    spec_allocate(
                                        m0.pools[pi].regions[ri],
                                        chunk_of(a.range.0 as int),
                                        sz,
                                        ty,
                                    ),
                                )
                            },
                            None => {
                                &&& a.region == m0.pools[pi].regions.len()
                                &&& m1.pools[pi].regions == m0.pools[pi].regions.push(
                                    spec_allocate(
                                        fresh_region(m0.granularity),
                                        chunk_of(a.range.0 as int),
                                        sz,
                                        ty,
                                    ),
                                )
                            },
                        }
                    },
                    None => {
                        &&& a.owner == m0.pools.len()
                        &&& a.region == 0
                        &&& m1.pools.len() == m0.pools.len() + 1
                        &&& forall|q: int| 0 <= q < m0.pools.len() ==> m1.pools[q] == m0.pools[q]
                        &&& m1.pools[a.owner as int].type_id == first_compatible_type(
                            m0.memory_types,
                            requirements.type_mask,
                            properties,
                        ).unwrap()
                        &&& m1.pools[a.owner as int].regions == seq![
                            spec_allocate(
                                fresh_region(m0.granularity),
                                chunk_of(a.range.0 as int),
                                sz,
                                ty,
                            ),
                        ]
                    },
                }
            }),
    {
        let ghost m0 = self@;
        let size = requirements.size;
        let align = requirements.alignment;
        let mask = requirements.type_mask;
        let ghost sz = size as int;
        proof {
            lemma_gran_le_chunk(m0.granularity);
            lemma_gran_divides_region(m0.granularity);
        }

        let mut pi: usize = 0;
        let mut pool_idx: Option<usize> = None;
        proof {
            if m0.pools.len() == 0 {
                assert(m0.pools.take(0) =~= m0.pools);
            }
        }
        while pi < self.memory.len()
            invariant_except_break
                pool_idx is None,
                first_where(m0.pools.take(pi as int), pool_pred(mask, properties)) is None,
            invariant
                self.inv(),
                self@ == m0,
                pi <= m0.pools.len(),
                self.memory@.len() == m0.pools.len(),
                pi == m0.pools.len() ==> m0.pools.take(pi as int) == m0.pools,
            ensures
                self@ == m0,
                self.inv(),
                match pool_idx {
                    None => first_matching_pool(m0, mask, properties) is None,
                    Some(p) => first_matching_pool(m0, mask, properties) == Some(p as int) && p
                        < m0.pools.len(),
                },
            decreases m0.pools.len() - pi,
        {
            proof {
                assert(m0.pools.take(pi as int + 1).drop_last() =~= m0.pools.take(pi as int));
                assert(m0.pools.take(pi as int + 1).last() == m0.pools[pi as int]);
                assert(self.memory@.map_values(|p: GPUMemory<A>| p@)[pi as int] == self.memory@[pi as int]@);
                assert(pool_wf(m0, m0.pools[pi as int]));
            }
            let tid = self.memory[pi].type_id;
            let p_props = self.memory[pi].properties;
            if mask & (1u32 << (tid as u32)) != 0 && (p_props & properties) == properties {
                pool_idx = Some(pi);
                proof {
                    assert(pool_pred(mask, properties)(m0.pools[pi as int]));
                    assert(first_where(m0.pools.take(pi as int + 1), pool_pred(mask, properties))
                        == Some(pi as int));
                    lemma_first_where_prefix_some(
                        m0.pools,
                        pool_pred(mask, properties),
                        pi as int + 1,
                    );
                }
                break;
            }
            proof {
                assert(!pool_pred(mask, properties)(m0.pools[pi as int]));
            }
            pi = pi + 1;
            proof {
                if pi == m0.pools.len() {
                    assert(m0.pools.take(pi as int) =~= m0.pools);
                }
            }
        }

        match pool_idx {
            Some(pi) => {
                let ghost pool_model0 = m0.pools[pi as int];
                proof {
                    assert(pool_wf(m0, pool_model0));
                    assert(self.memory@.map_values(|p: GPUMemory<A>| p@)[pi as int]
                        == self.memory@[pi as int]@);
                }
                let mut pool = self.memory.remove(pi);
                let ghost mem_rest = self.memory@;
                proof {
                    assert(pool@ == pool_model0);
                }
                let ghost regs0 = pool_model0.regions;
                let mut ri: usize = 0;
                let mut found: Option<(u64, u64)> = None;
                proof {
                    if regs0.len() == 0 {
                        assert(regs0.take(0) =~= regs0);
                    }
                }
                while ri < pool.regions.len()
                    invariant_except_break
                        found is None,
                        first_where(regs0.take(ri as int), room_pred(sz, ty)) is None,
                        pool@.regions == regs0,
                    invariant
                        ri <= regs0.len(),
                        pool.regions@.len() == regs0.len(),
                        pool.pool_valid(),
                        pool@.type_id == pool_model0.type_id,
                        pool@.properties == pool_model0.properties,
                        pool.id == pi,
                        sz == size as int,
                        1 <= size <= REGION_SIZE,
                        1 <= align,
                        CHUNK_SIZE % align == 0,
                        (CHUNK_SIZE as int) % m0.granularity == 0,
                        forall|r: int|
                            0 <= r < regs0.len() ==> (#[trigger] regs0[r]).wf() && regs0[r].total
                                == REGION_SIZE && regs0[r].gran == m0.granularity,
                        ri == regs0.len() ==> regs0.take(ri as int) == regs0,
                    ensures
                        pool.id == pi,
                        pool@.type_id == pool_model0.type_id,
                        pool@.properties == pool_model0.properties,
                        pool.pool_valid(),
                        pool.regions@.len() == regs0.len(),
                        sz == size as int,
                        match found {
                            None => pool@.regions == regs0 && first_room_region(regs0, sz, ty)
                                is None,
                            Some(range) => {
                                &&& ri < regs0.len()
                                &&& first_room_region(regs0, sz, ty) == Some(ri as int)
                                &&& range.1 == range.0 + size
                                &&& range.0 % align == 0
                                &&& chunk_of(range.0 as int) * CHUNK_SIZE == range.0
                                &&& pool@.regions == regs0.update(
                                    ri as int,
                                    spec_allocate(
                                        regs0[ri as int],
                                        chunk_of(range.0 as int),
                                        sz,
                                        ty,
                                    ),
                                )
                                &&& spec_allocate(
                                    regs0[ri as int],
                                    chunk_of(range.0 as int),
                                    sz,
                                    ty,
                                ).wf()
                            },
                        },
                    decreases regs0.len() - ri,
                {
                    proof {
                        assert(regs0.take(ri as int + 1).drop_last() =~= regs0.take(ri as int));
                        assert(regs0.take(ri as int + 1).last() == regs0[ri as int]);
                        assert(pool.regions@.map_values(|a: A| a.model())[ri as int]
                            == pool.regions@[ri as int].model());
                    }
                    let ghost regions_pre = pool.regions@;
                    let mut region = pool.regions.remove(ri);
                    proof {
                        assert(region.model() == regs0[ri as int]);
                        assert(region.valid());
                    }
                    let r = region.allocate(ty, size, align);
                    pool.regions.insert(ri, region);
                    proof {
                        assert(pool.regions@ =~= regions_pre.update(ri as int, region));
                    }
                    match r {
                        Some(range) => {
                            found = Some(range);
                            proof {
                                assert(has_room(regs0[ri as int], sz, ty)) by {
                                    assert(can_place(
                                        regs0[ri as int],
                                        chunk_of(range.0 as int),
                                        sz,
                                        ty,
                                    ));
                                }
                                assert(room_pred(sz, ty)(regs0[ri as int]));
                                assert(first_where(regs0.take(ri as int + 1), room_pred(sz, ty))
                                    == Some(ri as int));
                                lemma_first_where_prefix_some(
                                    regs0,
                                    room_pred(sz, ty),
                                    ri as int + 1,
                                );
                                assert(pool@.regions =~= regs0.update(
                                    ri as int,
                                    spec_allocate(
                                        regs0[ri as int],
                                        chunk_of(range.0 as int),
                                        sz,
                                        ty,
                                    ),
                                ));
                                lemma_allocate_preserves_wf(
                                    regs0[ri as int],
                                    chunk_of(range.0 as int),
                                    sz,
                                    ty,
                                );
                            }
                            break;
                        },
                        None => {
                            proof {
                                assert(!has_room(regs0[ri as int], sz, ty)) by {
                                    if exists|idx: int| can_place(regs0[ri as int], idx, sz, ty) {
                                        let idx = choose|idx: int|
                                            can_place(regs0[ri as int], idx, sz, ty);
                                        assert(!can_place(regs0[ri as int], idx, sz, ty));
                                    }
                                }
                                assert(!room_pred(sz, ty)(regs0[ri as int]));
                                assert(pool@.regions =~= regs0);
                            }
                            ri = ri + 1;
                            proof {
                                if ri == regs0.len() {
                                    assert(regs0.take(ri as int) =~= regs0);
                                }
                            }
                        },
                    }
                }

                match found {
                    Some(range) => {
                        self.memory.insert(pi, pool);
                        proof {
                            lemma_first_where(regs0, room_pred(sz, ty));
                            assert(self@.pools =~= m0.pools.update(pi as int, pool@));
                            assert(self@.memory_types =~= m0.memory_types);
                            assert forall|i: int| 0 <= i < self.memory@.len() implies (
                            #[trigger] self.memory@[i]).id == i && self.memory@[i].pool_valid()
                                by {}
                            assert(pool_wf(self@, pool@));
                            assert forall|i: int| 0 <= i < self@.pools.len() implies pool_wf(
                                self@,
                                #[trigger] self@.pools[i],
                            ) by {}
                            let live = self@.pools[pi as int].regions[ri as int].live;
                            assert(live == regs0[ri as int].live.push(
                                Span { start: chunk_of(range.0 as int) * CHUNK_SIZE, size: sz, ty },
                            ));
                            assert(live[live.len() - 1].start == range.0);
                            assert(valid_allocation(self@, Allocation { owner: pi, region: ri, range }));
                        }
                        Allocation { owner: pi, region: ri, range }
                    },
                    None => {
                        let mut region = A::new(REGION_SIZE, self.granularity);
                        proof {
                            assert(region.model() =~= fresh_region(m0.granularity));
                        }
                        let r = region.allocate(ty, size, align);
                        proof {
                            if r is None {
                                lemma_fresh_can_place(fresh_region(m0.granularity), sz, ty);
                                assert(false);
                            }
                        }
                        let range = match r {
                            Some(rg) => rg,
                            None => vstd::pervasive::unreached(),
                        };
                        let new_ri = pool.regions.len();
                        pool.regions.push(region);
                        proof {
                            assert(pool@.regions =~= regs0.push(
                                spec_allocate(
                                    fresh_region(m0.granularity),
                                    chunk_of(range.0 as int),
                                    sz,
                                    ty,
                                ),
                            ));
                            lemma_allocate_preserves_wf(
                                fresh_region(m0.granularity),
                                chunk_of(range.0 as int),
                                sz,
                                ty,
                            );
                        }
                        self.memory.insert(pi, pool);
                        proof {
                            assert(self@.pools =~= m0.pools.update(pi as int, pool@));
                            assert(self@.memory_types =~= m0.memory_types);
                            assert forall|i: int| 0 <= i < self.memory@.len() implies (
                            #[trigger] self.memory@[i]).id == i && self.memory@[i].pool_valid()
                                by {}
                            assert(pool_wf(self@, pool@));
                            assert forall|i: int| 0 <= i < self@.pools.len() implies pool_wf(
                                self@,
                                #[trigger] self@.pools[i],
                            ) by {}
                            let live = self@.pools[pi as int].regions[new_ri as int].live;
                            assert(live == fresh_region(m0.granularity).live.push(
                                Span { start: chunk_of(range.0 as int) * CHUNK_SIZE, size: sz, ty },
                            ));
                            assert(live[live.len() - 1].start == range.0);
                            assert(valid_allocation(
                                self@,
                                Allocation { owner: pi, region: new_ri, range },
                            ));
                        }
                        Allocation { owner: pi, region: new_ri, range }
                    },
                }
            },
            None => {
                let ghost types = m0.memory_types;
                let mut tix: usize = 0;
                let mut t_found: Option<usize> = None;
                proof {
                    if types.len() == 0 {
                        assert(indexed_types(types).take(0) =~= indexed_types(types));
                    }
                    assert(indexed_types(types).len() == types.len());
                }
                while tix < self.memory_types.len()
                    invariant_except_break
                        t_found is None,
                        first_where(indexed_types(types).take(tix as int), type_pred(mask, properties))
                            is None,
                    invariant
                        self.inv(),
                        self@ == m0,
                        types == m0.memory_types,
                        tix <= types.len(),
                        self.memory_types@.len() == types.len(),
                        types.len() <= 32,
                        tix == types.len() ==> indexed_types(types).take(tix as int)
                            == indexed_types(types),
                    ensures
                        self@ == m0,
                        self.inv(),
                        match t_found {
                            None => first_compatible_type(types, mask, properties) is None,
                            Some(t) => first_compatible_type(types, mask, properties) == Some(
                                t as int,
                            ) && t < types.len(),
                        },
                    decreases types.len() - tix,
                {
                    proof {
                        assert(indexed_types(types).take(tix as int + 1).drop_last()
                            =~= indexed_types(types).take(tix as int));
                        assert(indexed_types(types).take(tix as int + 1).last()
                            == indexed_types(types)[tix as int]);
                        assert(types[tix as int]
                            == self.memory_types@.map_values(|t: MemoryType| t.properties)[tix as int]);
                    }
                    let t_props = self.memory_types[tix].properties;
                    if mask & (1u32 << (tix as u32)) != 0 && (t_props & properties) == properties {
                        t_found = Some(tix);
                        proof {
                            assert(type_pred(mask, properties)(indexed_types(types)[tix as int]));
                            assert(first_where(
                                indexed_types(types).take(tix as int + 1),
                                type_pred(mask, properties),
                            ) == Some(tix as int));
                            lemma_first_where_prefix_some(
                                indexed_types(types),
                                type_pred(mask, properties),
                                tix as int + 1,
                            );
                        }
                        break;
                    }
                    proof {
                        assert(!type_pred(mask, properties)(indexed_types(types)[tix as int]));
                    }
                    tix = tix + 1;
                    proof {
                        if tix == types.len() {
                            assert(indexed_types(types).take(tix as int) =~= indexed_types(types));
                        }
                    }
                }
                let t = match t_found {
                    Some(t) => t,
                    None => vstd::pervasive::unreached(),
                };
                let t_props = self.memory_types[t].properties;
                let mut pool = GPUMemory {
                    id: self.memory.len(),
                    type_id: t,
                    properties: t_props,
                    regions: Vec::new(),
                };
                let mut region = A::new(REGION_SIZE, self.granularity);
                proof {
                    assert(region.model() =~= fresh_region(m0.granularity));
                }
                let r = region.allocate(ty, size, align);
                proof {
                    if r is None {
                        lemma_fresh_can_place(fresh_region(m0.granularity), sz, ty);
                        assert(false);
                    }
                }
                let range = match r {
                    Some(rg) => rg,
                    None => vstd::pervasive::unreached(),
                };
                pool.regions.push(region);
                let owner = self.memory.len();
                self.memory.push(pool);
                proof {
                    assert(self@.pools =~= m0.pools.push(self.memory@[owner as int]@));
                    assert(self@.memory_types =~= m0.memory_types);
                    assert(self@.pools[owner as int].regions =~= seq![
                        spec_allocate(
                            fresh_region(m0.granularity),
                            chunk_of(range.0 as int),
                            sz,
                            ty,
                        ),
                    ]);
                    lemma_allocate_preserves_wf(
                        fresh_region(m0.granularity),
                        chunk_of(range.0 as int),
                        sz,
                        ty,
                    );
                    assert forall|i: int| 0 <= i < self.memory@.len() implies (
                    #[trigger] self.memory@[i]).id == i && self.memory@[i].pool_valid() by {}
                    assert forall|i: int| 0 <= i < self@.pools.len() implies pool_wf(
                        self@,
                        #[trigger] self@.pools[i],
                    ) by {}
                    let live = self@.pools[owner as int].regions[0].live;
                    assert(live == fresh_region(m0.granularity).live.push(
                        Span { start: chunk_of(range.0 as int) * CHUNK_SIZE, size: sz, ty },
                    ));
                    assert(live[live.len() - 1].start == range.0);
                    assert(valid_allocation(self@, Allocation { owner, region: 0, range }));
                }
                Allocation { owner, region: 0, range }
            },
        }
    }
}

} // verus!

verus! {

/// Allocator state after returning `a`: its span is removed from the
/// region that owns it, everything else is untouched.
pub open spec fn spec_gpu_free(m: GpuModel, a: Allocation) -> GpuModel {
    let pool = m.pools[a.owner as int];
    let region = pool.regions[a.region as int];
    let k = locate_span(region.live, a.range.0 as int);
    GpuModel {
        pools: m.pools.update(
            a.owner as int,
            PoolModel { regions: pool.regions.update(a.region as int, spec_free(region, k)), ..pool },
        ),
        ..m
    }
}

impl<A: RangeAlloc> GPUAlloc<A> {
    /// Return an allocation to the region that owns it. The covered chunks
    /// become free again; the pool and region structure is unchanged.
    pub fn free(&mut self, alloc: Allocation)
        requires
            old(self).inv(),
            valid_allocation(old(self)@, alloc),
        ensures
            final(self).inv(),
            final(self)@ == spec_gpu_free(old(self)@, alloc),
    {
        let ghost m0 = self@;
        let ghost pool_model0 = m0.pools[alloc.owner as int];
        let ghost region_model0 = pool_model0.regions[alloc.region as int];
        let ghost k = locate_span(region_model0.live, alloc.range.0 as int);
        proof {
            assert(self.memory@.map_values(|p: GPUMemory<A>| p@)[alloc.owner as int]
                == self.memory@[alloc.owner as int]@);
            assert(pool_wf(m0, pool_model0));
        }
        let mut pool = self.memory.remove(alloc.owner);
        proof {
            assert(pool@ == pool_model0);
            assert(pool.regions@.map_values(|a: A| a.model())[alloc.region as int]
                == pool.regions@[alloc.region as int].model());
        }
        let ghost regions_pre = pool.regions@;
        let mut region = pool.regions.remove(alloc.region);
        proof {
            assert(region.model() == region_model0);
            assert(region.valid());
            let kk = choose|kk: int|
                {
                    let live = m0.pools[alloc.owner as int].regions[alloc.region as int].live;
                    &&& 0 <= kk < live.len()
                    &&& (#[trigger] m0.pools[alloc.owner as int].regions[alloc.region as int].live[kk]).start
                        == alloc.range.0
                    &&& live[kk].start + live[kk].size == alloc.range.1
                };
            assert(0 <= kk < region.model().live.len() && (region.model().live[kk]).start
                == alloc.range.0 && region.model().live[kk].start + region.model().live[kk].size
                == alloc.range.1);
        }
        region.free(alloc.range);
        pool.regions.insert(alloc.region, region);
        self.memory.insert(alloc.owner, pool);
        proof {
            assert(pool.regions@ =~= regions_pre.update(alloc.region as int, region));
            assert(pool@.regions =~= pool_model0.regions.update(
                alloc.region as int,
                spec_free(region_model0, k),
            ));
            assert(self@.pools =~= m0.pools.update(alloc.owner as int, pool@));
            assert(self@.memory_types =~= m0.memory_types);
            assert(self@ =~= spec_gpu_free(m0, alloc));
            assert forall|i: int| 0 <= i < self.memory@.len() implies (
            #[trigger] self.memory@[i]).id == i && self.memory@[i].pool_valid() by {}
            assert(pool_wf(self@, pool@));
            assert forall|i: int| 0 <= i < self@.pools.len() implies pool_wf(
                self@,
                #[trigger] self@.pools[i],
            ) by {}
        }
    }

    /// Tear the allocator down. The caller must have freed every
    /// allocation first; the native memory objects backing the regions are
    /// the caller's to release, keyed by pool and region index.
    pub fn destroy(self)
        requires
            self.inv(),
            forall|p: int, r: int|
                0 <= p < self@.pools.len() && 0 <= r < self@.pools[p].regions.len() ==> (
                #[trigger] self@.pools[p].regions[r].live).len() == 0,
    {
    }
}

/// Two sequences on which a predicate agrees pointwise have the same
/// first match.
proof fn lemma_first_where_congruent<T>(s1: Seq<T>, s2: Seq<T>, f: spec_fn(T) -> bool)
    requires
        s1.len() == s2.len(),
        forall|i: int| 0 <= i < s1.len() ==> f(#[trigger] s1[i]) == f(#[trigger] s2[i]),
    ensures
        first_where(s1, f) == first_where(s2, f),
    decreases s1.len(),
{
    if s1.len() > 0 {
        lemma_first_where_congruent(s1.drop_last(), s2.drop_last(), f);
        assert(s1.last() == s1[s1.len() - 1]);
        assert(s2.last() == s2[s1.len() - 1]);
        assert forall|i: int| 0 <= i < s1.len() - 1 implies f(#[trigger] s1.drop_last()[i]) == f(
            #[trigger] s2.drop_last()[i],
        ) by {
            assert(s1.drop_last()[i] == s1[i]);
            assert(s2.drop_last()[i] == s2[i]);
        }
    }
}

/// Law: freeing an allocation and re-requesting an equal-or-smaller size
/// of the same kind does not grow the allocator. After `free(a)`, the
/// pool that served `a` still is the first matching pool for the same
/// request mask and properties, and one of its regions has room for the
/// re-request; by `allocate`'s postcondition such a request is served by
/// an existing region of that pool, leaving the pool and region counts
/// unchanged.
pub proof fn lemma_reuse_preserves_region_count(
    m: GpuModel,
    a: Allocation,
    size2: int,
    mask: u32,
    req: u32,
)
    requires
        m.wf(),
        valid_allocation(m, a),
        first_matching_pool(m, mask, req) == Some(a.owner as int),
        ({
            let live = m.pools[a.owner as int].regions[a.region as int].live;
            let k = locate_span(live, a.range.0 as int);
            &&& 0 <= k < live.len()
            &&& 1 <= size2 <= live[k].size
        }),
    ensures
        ({
            let m1 = spec_gpu_free(m, a);
            let live = m.pools[a.owner as int].regions[a.region as int].live;
            let k = locate_span(live, a.range.0 as int);
            &&& first_matching_pool(m1, mask, req) == Some(a.owner as int)
            &&& first_room_region(m1.pools[a.owner as int].regions, size2, live[k].ty) is Some
            &&& m1.pools.len() == m.pools.len()
            &&& m1.pools[a.owner as int].regions.len() == m.pools[a.owner as int].regions.len()
        }),
{
    let m1 = spec_gpu_free(m, a);
    let pool = m.pools[a.owner as int];
    let region = pool.regions[a.region as int];
    let live = region.live;
    let k = locate_span(live, a.range.0 as int);
    assert(pool_wf(m, pool));
    assert(region.wf());
    lemma_reuse_after_free(region, k, size2);
    assert(has_room(spec_free(region, k), size2, live[k].ty)) by {
        assert(can_place(spec_free(region, k), chunk_of(live[k].start), size2, live[k].ty));
    }
    lemma_first_where_congruent(m.pools, m1.pools, pool_pred(mask, req));
    let f = room_pred(size2, live[k].ty);
    lemma_first_where(m1.pools[a.owner as int].regions, f);
    if first_where(m1.pools[a.owner as int].regions, f) is None {
        assert(!f(m1.pools[a.owner as int].regions[a.region as int]));
        assert(false);
    }
}

} // verus!

verus! {

/// Round a row's byte size up to the device's optimal buffer-copy pitch
/// alignment: the row pitch an image upload's staging buffer uses.
pub fn align_row_pitch(row_size: u32, alignment: u32) -> (r: u32)
    requires
        1 <= alignment,
        row_size + alignment <= 0xFFFF_FFFF,
    ensures
        r as int == ((row_size + alignment - 1) as int / alignment as int) * alignment,
        row_size <= r,
        r < row_size + alignment,
        r as int % alignment as int == 0,
{
    let a = alignment as u64;
    let x = row_size as u64 + a - 1;
    let q = x / a;
    proof {
        lemma_fundamental_div_mod(x as int, a as int);
        assert(q * a == x - x as int % a as int) by (nonlinear_arith)
            requires
                x == a * (x as int / a as int) + x as int % a as int,
                q == x as int / a as int,
        {
        }
        vstd::arithmetic::div_mod::lemma_mod_pos_bound(x as int, a as int);
        lemma_mod_multiples_basic(q as int, a as int);
    }
    (q * a) as u32
}

} // verus!
