//! Address spaces: the mapped regions of one task and the memory behind
//! them.

use crate::config::PAGE_SIZE;
use crate::loader::loaded;
use crate::loader::Image;
use crate::mm::frame::FrameAllocator;
use crate::mm::permission::MapPermission;
use vstd::prelude::*;

verus! {

/// Why a request on an address space was refused.
#[derive(Clone, Copy, Debug, PartialEq, Eq, Structural)]
pub enum MemoryError {
    /// The requested range intersects a mapped region.
    Overlap,
    /// No mapped region has exactly the requested bounds.
    NotFound,
    /// The requested permission grants no access at all.
    InvalidPermission,
}

/// A physical address: a frame and a byte offset inside it.
#[derive(Clone, Copy, Debug, PartialEq, Eq, Structural)]
pub struct PhysAddr {
    pub ppn: usize,
    pub offset: usize,
}

/// Bounds and permission of one mapped region: the addresses
/// `start <= a < end`.
#[derive(Clone, Copy, Debug, PartialEq, Eq, Structural)]
pub struct RegionView {
    pub start: usize,
    pub end: usize,
    pub perm: MapPermission,
}

impl RegionView {
    pub open spec fn contains(self, a: usize) -> bool {
        self.start <= a < self.end
    }

    pub open spec fn wf(self) -> bool {
        &&& self.start % PAGE_SIZE == 0
        &&& self.end % PAGE_SIZE == 0
        &&& self.start < self.end
    }
}

/// The mathematical content of an address space: its regions, and the
/// byte stored at every mapped address.
pub struct SpaceView {
    pub regions: Set<RegionView>,
    pub mem: Map<usize, u8>,
}

/// The least multiple of the page size that is not below `x`.
pub open spec fn page_ceil(x: int) -> int {
    ((x + PAGE_SIZE - 1) / (PAGE_SIZE as int)) * PAGE_SIZE
}

/// The contents of a fresh region `start..end` that begins with `data` and
/// is zero after it.
pub open spec fn fill(start: usize, end: usize, data: Seq<u8>) -> Map<usize, u8> {
    Map::new(
        |a: usize| start <= a < end,
        |a: usize|
            if a - start < data.len() {
                data[a - start]
            } else {
                0u8
            },
    )
}

/// The space after `n` pages from `from` on were mapped as zeroed regions
/// of one page each.
pub open spec fn with_pages(space: SpaceView, from: usize, n: nat, perm: MapPermission) -> SpaceView
    decreases n,
{
    if n == 0 {
        space
    } else {
        with_pages(space, from, (n - 1) as nat, perm).after_map(
            (from + (n - 1) * PAGE_SIZE) as usize,
            (from + n * PAGE_SIZE) as usize,
            perm,
            Seq::empty(),
        )
    }
}

/// The space after those of the `n` pages from `from` on that are regions
/// of one page were unmapped.
pub open spec fn without_pages(space: SpaceView, from: usize, n: nat) -> SpaceView
    decreases n,
{
    if n == 0 {
        space
    } else {
        let rest = without_pages(space, from, (n - 1) as nat);
        let a = (from + (n - 1) * PAGE_SIZE) as usize;
        let b = (from + n * PAGE_SIZE) as usize;
        if rest.has_region(a, b) {
            rest.after_free(a, b)
        } else {
            rest
        }
    }
}

impl SpaceView {
    pub open spec fn empty() -> SpaceView {
        SpaceView { regions: Set::empty(), mem: Map::empty() }
    }

    /// Some region holds the address `a`.
    pub open spec fn covers(self, a: usize) -> bool {
        exists|r: RegionView| #[trigger] self.regions.contains(r) && r.contains(a)
    }

    /// Some region intersects `start..end`.
    pub open spec fn overlaps(self, start: usize, end: usize) -> bool {
        exists|r: RegionView| #[trigger] self.regions.contains(r) && r.start < end && start < r.end
    }

    /// Some region has exactly the bounds `start..end`.
    pub open spec fn has_region(self, start: usize, end: usize) -> bool {
        exists|r: RegionView| #[trigger] self.regions.contains(r) && r.start == start && r.end == end
    }

    /// User code may read the byte at `a`.
    pub open spec fn readable(self, a: usize) -> bool {
        exists|r: RegionView| #[trigger]
            self.regions.contains(r) && r.contains(a) && r.perm.user && r.perm.read
    }

    /// User code may write the byte at `a`.
    pub open spec fn writable(self, a: usize) -> bool {
        exists|r: RegionView| #[trigger]
            self.regions.contains(r) && r.contains(a) && r.perm.user && r.perm.write
    }

    /// `a` is an address that user code may read.
    pub open spec fn readable_at(self, a: int) -> bool {
        0 <= a <= usize::MAX && self.readable(a as usize)
    }

    /// `a` is an address that user code may write.
    pub open spec fn writable_at(self, a: int) -> bool {
        0 <= a <= usize::MAX && self.writable(a as usize)
    }

    /// Every one of the `len` bytes from `va` on is an address and
    /// readable.
    pub open spec fn range_readable(self, va: usize, len: nat) -> bool {
        forall|a: int| va <= a < va + len ==> #[trigger] self.readable_at(a)
    }

    /// Every one of the `len` bytes from `va` on is an address and
    /// writable.
    pub open spec fn range_writable(self, va: usize, len: nat) -> bool {
        forall|a: int| va <= a < va + len ==> #[trigger] self.writable_at(a)
    }

    /// The `len` bytes stored from `va` on.
    pub open spec fn load(self, va: usize, len: nat) -> Seq<u8> {
        Seq::new(len, |i: int| self.mem[(va + i) as usize])
    }

    /// The space after `bytes` were stored from `va` on.
    pub open spec fn after_store(self, va: usize, bytes: Seq<u8>) -> SpaceView {
        SpaceView {
            regions: self.regions,
            mem: Map::new(
                |a: usize| self.mem.dom().contains(a),
                |a: usize|
                    if va <= a < va + bytes.len() {
                        bytes[a - va]
                    } else {
                        self.mem[a]
                    },
            ),
        }
    }

    /// The space after the region `start..end` was mapped with the
    /// contents `fill(start, end, data)`.
    pub open spec fn after_map(
        self,
        start: usize,
        end: usize,
        perm: MapPermission,
        data: Seq<u8>,
    ) -> SpaceView {
        SpaceView {
            regions: self.regions.insert(RegionView { start, end, perm }),
            mem: self.mem.union_prefer_right(fill(start, end, data)),
        }
    }

    /// The space after the region with the bounds `start..end` was
    /// unmapped.
    pub open spec fn after_free(self, start: usize, end: usize) -> SpaceView {
        SpaceView {
            regions: Set::new(
                |r: RegionView| self.regions.contains(r) && !(r.start == start && r.end == end),
            ),
            mem: Map::new(
                |a: usize| self.mem.dom().contains(a) && !(start <= a < end),
                |a: usize| self.mem[a],
            ),
        }
    }

    /// The outcome of a request to map `start..end` with `perm`: a range
    /// that intersects a region is refused first, then a permission that
    /// grants no access.
    pub open spec fn map_result(self, start: usize, end: usize, perm: MapPermission) -> Result<
        (),
        MemoryError,
    > {
        if self.overlaps(start, end) {
            Err(MemoryError::Overlap)
        } else if !perm.has_access() {
            Err(MemoryError::InvalidPermission)
        } else {
            Ok(())
        }
    }

    /// The outcome of a request to unmap `start..end`.
    pub open spec fn free_result(self, start: usize, end: usize) -> Result<(), MemoryError> {
        if self.has_region(start, end) {
            Ok(())
        } else {
            Err(MemoryError::NotFound)
        }
    }

    /// Regions are page aligned and not empty, no two of them intersect,
    /// and memory is defined on exactly the addresses that they hold.
    pub open spec fn wf(self) -> bool {
        &&& forall|r: RegionView| #[trigger] self.regions.contains(r) ==> r.wf()
        &&& forall|r: RegionView, s: RegionView|
            #[trigger] self.regions.contains(r) && #[trigger] self.regions.contains(s) && r.start
                < s.end && s.start < r.end ==> r == s
        &&& forall|a: usize| self.mem.dom().contains(a) <==> self.covers(a)
    }
}

/// One physical frame held by a region.
struct Frame {
    ppn: usize,
    bytes: Vec<u8>,
}

/// One mapped region with the frames behind its pages, in page order.
struct Region {
    start: usize,
    end: usize,
    perm: MapPermission,
    frames: Vec<Frame>,
}

impl Region {
    spec fn bounds(&self) -> RegionView {
        RegionView { start: self.start, end: self.end, perm: self.perm }
    }

    spec fn wf(&self) -> bool {
        &&& self.bounds().wf()
        &&& self.frames.len() * PAGE_SIZE == self.end - self.start
        &&& forall|k: int|
            0 <= k < self.frames.len() ==> (#[trigger] self.frames[k]).bytes.len() == PAGE_SIZE
        &&& forall|j: int, k: int|
            0 <= j < k < self.frames.len() ==> self.frames[j].ppn != self.frames[k].ppn
    }

    /// The byte stored at the address `a` of this region.
    spec fn byte(&self, a: usize) -> u8 {
        self.frames[(a - self.start) / (PAGE_SIZE as int)].bytes[(a - self.start) % (
        PAGE_SIZE as int)]
    }

    /// The frames that back this region.
    spec fn ppns(&self) -> Set<usize> {
        ppn_set(self.frames@)
    }

    /// The bytes of this region, from its start to its end.
    fn contents(&self) -> (v: Vec<u8>)
        requires
            self.wf(),
        ensures
            v.len() == self.end - self.start,
            forall|a: usize|
                self.start <= a < self.end ==> v[a - self.start] == #[trigger] self.byte(a),
    {
        let mut v: Vec<u8> = Vec::new();
        let mut k: usize = 0;
        while k < self.frames.len()
            invariant
                k <= self.frames.len(),
                self.wf(),
                v.len() == k * PAGE_SIZE,
                forall|j: int|
                    0 <= j < v.len() ==> #[trigger] v[j] == self.frames[j / (
                    PAGE_SIZE as int)].bytes[j % (PAGE_SIZE as int)],
            decreases self.frames.len() - k,
        {
            let mut o: usize = 0;
            assert(self.frames[k as int].bytes.len() == PAGE_SIZE);
            while o < PAGE_SIZE
                invariant
                    o <= PAGE_SIZE,
                    k < self.frames.len(),
                    self.frames[k as int].bytes.len() == PAGE_SIZE,
                    v.len() == k * PAGE_SIZE + o,
                    forall|j: int|
                        0 <= j < v.len() ==> #[trigger] v[j] == self.frames[j / (
                        PAGE_SIZE as int)].bytes[j % (PAGE_SIZE as int)],
                decreases PAGE_SIZE - o,
            {
                v.push(self.frames[k].bytes[o]);
                o += 1;
            }
            k += 1;
        }
        v
    }
}

/// The page numbers of a sequence of frames.
spec fn ppn_set(frames: Seq<Frame>) -> Set<usize> {
    Set::new(|p: usize| exists|k: int| 0 <= k < frames.len() && #[trigger] frames[k].ppn == p)
}

/// Byte `i` of a fresh region that begins with `data`.
spec fn initial_byte(data: Seq<u8>, i: int) -> u8 {
    if i < data.len() {
        data[i]
    } else {
        0u8
    }
}

/// A zeroed frame from `pool` that holds the page of `data` from `base`
/// on.
fn fresh_frame(pool: &mut FrameAllocator, data: &Vec<u8>, base: usize) -> (f: Frame)
    requires
        old(pool).wf(),
        base + PAGE_SIZE <= usize::MAX,
    ensures
        final(pool).wf(),
        !old(pool).allocated().contains(f.ppn),
        final(pool).allocated() == old(pool).allocated().insert(f.ppn),
        f.bytes.len() == PAGE_SIZE,
        forall|o: int| 0 <= o < PAGE_SIZE ==> f.bytes[o] == initial_byte(data@, base + o),
{
    let ppn = pool.acquire();
    let mut bytes: Vec<u8> = Vec::new();
    let mut o: usize = 0;
    while o < PAGE_SIZE
        invariant
            o <= PAGE_SIZE,
            base + PAGE_SIZE <= usize::MAX,
            bytes.len() == o,
            forall|j: int| 0 <= j < o ==> bytes[j] == initial_byte(data@, base + j),
        decreases PAGE_SIZE - o,
    {
        let b: u8 = if base + o < data.len() {
            data[base + o]
        } else {
            0
        };
        bytes.push(b);
        o += 1;
    }
    Frame { ppn, bytes }
}

/// Frames from `pool` for `pages` pages that begin with `data` and are
/// zero after it.
fn fresh_frames(pool: &mut FrameAllocator, pages: usize, data: &Vec<u8>) -> (fs: Vec<Frame>)
    requires
        old(pool).wf(),
        pages * PAGE_SIZE <= usize::MAX,
    ensures
        final(pool).wf(),
        fs.len() == pages,
        forall|k: int| 0 <= k < pages ==> (#[trigger] fs[k]).bytes.len() == PAGE_SIZE,
        forall|j: int, k: int| 0 <= j < k < pages ==> fs[j].ppn != fs[k].ppn,
        ppn_set(fs@).disjoint(old(pool).allocated()),
        final(pool).allocated() == old(pool).allocated().union(ppn_set(fs@)),
        forall|k: int, o: int|
            0 <= k < pages && 0 <= o < PAGE_SIZE ==> (#[trigger] fs[k].bytes[o]) == initial_byte(
                data@,
                k * PAGE_SIZE + o,
            ),
{
    let mut fs: Vec<Frame> = Vec::new();
    let mut k: usize = 0;
    assert(pool.allocated() =~= old(pool).allocated().union(ppn_set(fs@)));
    while k < pages
        invariant
            k <= pages,
            pages * PAGE_SIZE <= usize::MAX,
            pool.wf(),
            fs.len() == k,
            forall|i: int| 0 <= i < k ==> (#[trigger] fs[i]).bytes.len() == PAGE_SIZE,
            forall|i: int, j: int| 0 <= i < j < k ==> fs[i].ppn != fs[j].ppn,
            ppn_set(fs@).disjoint(old(pool).allocated()),
            pool.allocated() == old(pool).allocated().union(ppn_set(fs@)),
            forall|i: int, o: int|
                0 <= i < k && 0 <= o < PAGE_SIZE ==> (#[trigger] fs[i].bytes[o]) == initial_byte(
                    data@,
                    i * PAGE_SIZE + o,
                ),
        decreases pages - k,
    {
        assert((k + 1) * PAGE_SIZE <= pages * PAGE_SIZE) by (nonlinear_arith)
            requires
                k < pages,
        ;
        let ghost before = fs@;
        let ghost held = pool.allocated();
        let f = fresh_frame(pool, data, k * PAGE_SIZE);
        let ghost ppn = f.ppn;
        fs.push(f);
        proof {
            assert forall|i: int| 0 <= i < k implies fs[i].ppn != ppn by {
                assert(fs[i] == before[i]);
                assert(ppn_set(before).contains(before[i].ppn));
            }
            assert(ppn_set(fs@) =~= ppn_set(before).insert(ppn)) by {
                assert forall|p: usize| ppn_set(before).insert(ppn).contains(p) implies ppn_set(
                    fs@,
                ).contains(p) by {
                    if p == ppn {
                        assert(fs[k as int].ppn == p);
                    } else {
                        let i = choose|i: int| 0 <= i < before.len() && #[trigger] before[i].ppn == p;
                        assert(fs[i].ppn == p);
                    }
                }
                assert forall|p: usize| ppn_set(fs@).contains(p) implies ppn_set(before).insert(
                    ppn,
                ).contains(p) by {
                    let i = choose|i: int| 0 <= i < fs.len() && #[trigger] fs[i].ppn == p;
                    if i < k {
                        assert(before[i].ppn == p);
                    }
                }
            }
            assert(pool.allocated() =~= old(pool).allocated().union(ppn_set(fs@)));
        }
        k += 1;
    }
    fs
}

/// Gives the frames of an unmapped region back to `pool`.
fn release_frames(pool: &mut FrameAllocator, frames: &Vec<Frame>)
    requires
        old(pool).wf(),
        ppn_set(frames@).subset_of(old(pool).allocated()),
        forall|j: int, k: int| 0 <= j < k < frames.len() ==> frames[j].ppn != frames[k].ppn,
    ensures
        final(pool).wf(),
        final(pool).allocated() == old(pool).allocated().difference(ppn_set(frames@)),
{
    let mut k: usize = 0;
    assert(pool.allocated() =~= old(pool).allocated().difference(
        ppn_set(frames@.subrange(0, 0)),
    ));
    while k < frames.len()
        invariant
            k <= frames.len(),
            pool.wf(),
            ppn_set(frames@).subset_of(old(pool).allocated()),
            forall|i: int, j: int| 0 <= i < j < frames.len() ==> frames[i].ppn != frames[j].ppn,
            pool.allocated() == old(pool).allocated().difference(
                ppn_set(frames@.subrange(0, k as int)),
            ),
        decreases frames.len() - k,
    {
        let ppn = frames[k].ppn;
        let ghost done = frames@.subrange(0, k as int);
        proof {
            assert(ppn_set(frames@).contains(ppn));
            if ppn_set(done).contains(ppn) {
                let i = choose|i: int| 0 <= i < done.len() && #[trigger] done[i].ppn == ppn;
                assert(frames[i].ppn == frames[k as int].ppn);
            }
        }
        pool.release(ppn);
        proof {
            let next = frames@.subrange(0, k + 1);
            assert(ppn_set(next) =~= ppn_set(done).insert(ppn)) by {
                assert forall|p: usize| ppn_set(next).contains(p) implies ppn_set(done).insert(
                    ppn,
                ).contains(p) by {
                    let i = choose|i: int| 0 <= i < next.len() && #[trigger] next[i].ppn == p;
                    if i < k {
                        assert(done[i].ppn == p);
                    }
                }
                assert forall|p: usize| ppn_set(done).insert(ppn).contains(p) implies ppn_set(
                    next,
                ).contains(p) by {
                    if p == ppn {
                        assert(next[k as int].ppn == p);
                    } else {
                        let i = choose|i: int| 0 <= i < done.len() && #[trigger] done[i].ppn == p;
                        assert(next[i].ppn == p);
                    }
                }
            }
            assert(pool.allocated() =~= old(pool).allocated().difference(ppn_set(next)));
        }
        k += 1;
    }
    assert(frames@.subrange(0, frames.len() as int) =~= frames@);
}

/// The address space of one task: its regions in address order.
pub struct AddressSpace {
    regions: Vec<Region>,
}

impl View for AddressSpace {
    type V = SpaceView;

    closed spec fn view(&self) -> SpaceView {
        SpaceView {
            regions: Set::new(
                |r: RegionView|
                    exists|i: int|
                        0 <= i < self.regions.len() && #[trigger] self.regions[i].bounds() == r,
            ),
            mem: Map::new(
                |a: usize| exists|i: int| self.holds(i, a),
                |a: usize| self.regions[self.index_of(a)].byte(a),
            ),
        }
    }
}

impl AddressSpace {
    /// Region `i` exists and holds the address `a`.
    spec fn holds(&self, i: int, a: usize) -> bool {
        0 <= i < self.regions.len() && self.regions[i].start <= a < self.regions[i].end
    }

    spec fn index_of(&self, a: usize) -> int {
        choose|i: int| self.holds(i, a)
    }

    /// The frames that back this address space.
    pub closed spec fn frames(&self) -> Set<usize> {
        Set::new(
            |p: usize|
                exists|i: int|
                    0 <= i < self.regions.len() && (#[trigger] self.regions[i]).ppns().contains(p),
        )
    }

    /// The frame behind the page of the mapped address `a`.
    pub closed spec fn frame_of(&self, a: usize) -> usize {
        let r = self.regions[self.index_of(a)];
        r.frames[(a - r.start) / (PAGE_SIZE as int)].ppn
    }

    /// Regions are well formed, stand in address order without
    /// intersecting, and no frame backs two pages.
    pub closed spec fn wf(&self) -> bool {
        &&& forall|i: int| 0 <= i < self.regions.len() ==> (#[trigger] self.regions[i]).wf()
        &&& forall|i: int, j: int|
            0 <= i < j < self.regions.len() ==> self.regions[i].end <= self.regions[j].start
        &&& forall|i: int, j: int|
            0 <= i < j < self.regions.len() ==> self.regions[i].ppns().disjoint(
                self.regions[j].ppns(),
            )
    }

    /// Every address that is mapped in `before` and in this space has the
    /// frame that it had in `before`.
    pub open spec fn keeps_frames(&self, before: &AddressSpace) -> bool {
        forall|a: usize|
            before@.covers(a) && self@.covers(a) ==> #[trigger] self.frame_of(a)
                == before.frame_of(a)
    }

    /// Every frame of this space is handed out by `pool`.
    pub open spec fn backed_by(&self, pool: &FrameAllocator) -> bool {
        self.frames().subset_of(pool.allocated())
    }

    /// In a well-formed space an address lies in at most one region.
    proof fn lemma_index_unique(&self, i: int, a: usize)
        requires
            self.wf(),
            self.holds(i, a),
        ensures
            self.index_of(a) == i,
    {
        let j = self.index_of(a);
        assert(self.holds(j, a));
        if j < i {
            assert(self.regions[j].end <= self.regions[i].start);
        } else if i < j {
            assert(self.regions[i].end <= self.regions[j].start);
        }
    }

    /// The view of a well-formed space is well formed, and says of every
    /// address what the regions say.
    proof fn lemma_view(&self)
        requires
            self.wf(),
        ensures
            self@.wf(),
            forall|a: usize| self@.covers(a) <==> exists|i: int| self.holds(i, a),
            forall|i: int, a: usize| #[trigger]
                self.holds(i, a) ==> self@.mem[a] == self.regions[i].byte(a),
            forall|i: int|
                0 <= i < self.regions.len() ==> self@.regions.contains(
                    (#[trigger] self.regions[i]).bounds(),
                ),
    {
        let v = self@;
        assert forall|a: usize| v.covers(a) <==> exists|i: int| self.holds(i, a) by {
            if v.covers(a) {
                let r = choose|r: RegionView| #[trigger] v.regions.contains(r) && r.contains(a);
                let i = choose|i: int|
                    0 <= i < self.regions.len() && #[trigger] self.regions[i].bounds() == r;
                assert(self.holds(i, a));
            }
            if exists|i: int| self.holds(i, a) {
                let i = choose|i: int| self.holds(i, a);
                assert(v.regions.contains(self.regions[i].bounds()));
                assert(self.regions[i].bounds().contains(a));
            }
        }
        assert forall|i: int, a: usize| #[trigger] self.holds(i, a) implies v.mem[a]
            == self.regions[i].byte(a) by {
            self.lemma_index_unique(i, a);
        }
        assert forall|r: RegionView| #[trigger] v.regions.contains(r) implies r.wf() by {
            let i = choose|i: int|
                0 <= i < self.regions.len() && #[trigger] self.regions[i].bounds() == r;
            assert(self.regions[i].wf());
        }
        assert forall|r: RegionView, s: RegionView|
            #[trigger] v.regions.contains(r) && #[trigger] v.regions.contains(s) && r.start < s.end
                && s.start < r.end implies r == s by {
            let i = choose|i: int|
                0 <= i < self.regions.len() && #[trigger] self.regions[i].bounds() == r;
            let j = choose|j: int|
                0 <= j < self.regions.len() && #[trigger] self.regions[j].bounds() == s;
            assert(self.regions[i].wf());
            assert(self.regions[j].wf());
            if i < j {
                assert(self.regions[i].end <= self.regions[j].start);
            } else if j < i {
                assert(self.regions[j].end <= self.regions[i].start);
            }
        }
    }

    /// The view of a well-formed address space is well formed.
    pub proof fn lemma_view_wf(&self)
        requires
            self.wf(),
        ensures
            self@.wf(),
    {
        self.lemma_view();
    }

    /// The regions of a well-formed space are finitely many, and as many
    /// as `region_total` says; each is one of the numbered regions.
    pub proof fn lemma_regions(&self)
        requires
            self.wf(),
        ensures
            self@.regions.finite(),
            self@.regions.len() == self.region_total(),
            forall|r: RegionView|
                self@.regions.contains(r) <==> exists|i: int|
                    0 <= i < self.region_total() && #[trigger] self.region_at(i) == r,
            forall|i: int, j: int|
                0 <= i < j < self.region_total() ==> self.region_at(i).end <= self.region_at(
                    j,
                ).start,
    {
        let bounds = self.regions@.map_values(|r: Region| r.bounds());
        assert(bounds.no_duplicates()) by {
            assert forall|i: int, j: int|
                0 <= i < bounds.len() && 0 <= j < bounds.len() && i != j implies bounds[i]
                != bounds[j] by {
                assert(self.regions[i].wf() && self.regions[j].wf());
                if i < j {
                    assert(self.regions[i].end <= self.regions[j].start);
                } else {
                    assert(self.regions[j].end <= self.regions[i].start);
                }
            }
        }
        assert(bounds.to_set() =~= self@.regions) by {
            assert forall|r: RegionView| bounds.to_set().contains(r) implies self@.regions.contains(
                r,
            ) by {
                let i = choose|i: int| 0 <= i < bounds.len() && bounds[i] == r;
                assert(self.regions[i].bounds() == r);
            }
            assert forall|r: RegionView| self@.regions.contains(r) implies bounds.to_set().contains(
                r,
            ) by {
                let i = choose|i: int|
                    0 <= i < self.regions.len() && #[trigger] self.regions[i].bounds() == r;
                assert(bounds[i] == r);
            }
        }
        bounds.unique_seq_to_set();
        vstd::seq_lib::seq_to_set_is_finite(bounds);
        assert forall|r: RegionView| self@.regions.contains(r) <==> exists|i: int|
            0 <= i < self.region_total() && #[trigger] self.region_at(i) == r by {
            if self@.regions.contains(r) {
                let i = choose|i: int|
                    0 <= i < self.regions.len() && #[trigger] self.regions[i].bounds() == r;
                assert(self.region_at(i) == r);
            }
            if exists|i: int| 0 <= i < self.region_total() && #[trigger] self.region_at(i) == r {
                let i = choose|i: int|
                    0 <= i < self.region_total() && #[trigger] self.region_at(i) == r;
                assert(self.regions[i].bounds() == r);
            }
        }
    }

    /// The frames of a well-formed space are the frames behind its mapped
    /// addresses, and two mapped addresses have the same frame exactly if
    /// they lie on the same page.
    pub proof fn lemma_frames(&self)
        requires
            self.wf(),
        ensures
            forall|p: usize|
                self.frames().contains(p) <==> exists|a: usize|
                    self@.covers(a) && #[trigger] self.frame_of(a) == p,
            forall|a: usize, b: usize|
                self@.covers(a) && self@.covers(b) ==> ((#[trigger] self.frame_of(a)
                    == #[trigger] self.frame_of(b)) <==> a / PAGE_SIZE == b / PAGE_SIZE),
    {
        self.lemma_view();
        assert forall|a: usize| self@.covers(a) implies self.regions[self.index_of(a)].ppns().contains(
        #[trigger] self.frame_of(a)) && self.holds(self.index_of(a), a) by {
            let i = choose|i: int| self.holds(i, a);
            self.lemma_index_unique(i, a);
            let r = self.regions[i];
            assert(r.wf());
            let k = (a - r.start) / (PAGE_SIZE as int);
            assert(0 <= k < r.frames.len()) by (nonlinear_arith)
                requires
                    k == (a - r.start) / (PAGE_SIZE as int),
                    r.frames.len() * PAGE_SIZE == r.end - r.start,
                    r.start <= a < r.end,
                    PAGE_SIZE == 4096,
            ;
            assert(r.frames[k].ppn == self.frame_of(a));
        }
        assert forall|p: usize| self.frames().contains(p) implies exists|a: usize|
            self@.covers(a) && #[trigger] self.frame_of(a) == p by {
            let i = choose|i: int|
                0 <= i < self.regions.len() && (#[trigger] self.regions[i]).ppns().contains(p);
            let r = self.regions[i];
            assert(r.wf());
            let k = choose|k: int| 0 <= k < r.frames.len() && #[trigger] r.frames[k].ppn == p;
            let a = (r.start + k * PAGE_SIZE) as usize;
            assert(r.start + k * PAGE_SIZE < r.end) by (nonlinear_arith)
                requires
                    0 <= k < r.frames.len(),
                    r.frames.len() * PAGE_SIZE == r.end - r.start,
                    PAGE_SIZE == 4096,
            ;
            assert(self.holds(i, a));
            self.lemma_index_unique(i, a);
            assert((a - r.start) / (PAGE_SIZE as int) == k);
            assert(self.frame_of(a) == p);
        }
        assert forall|a: usize, b: usize| self@.covers(a) && self@.covers(b) implies ((
        #[trigger] self.frame_of(a) == #[trigger] self.frame_of(b)) <==> a / PAGE_SIZE == b
            / PAGE_SIZE) by {
            let i = self.index_of(a);
            let j = self.index_of(b);
            let r = self.regions[i];
            let t = self.regions[j];
            assert(self.holds(i, a) && self.holds(j, b));
            assert(r.wf() && t.wf());
            let ka = (a - r.start) / (PAGE_SIZE as int);
            let kb = (b - t.start) / (PAGE_SIZE as int);
            assert(0 <= ka < r.frames.len()) by (nonlinear_arith)
                requires
                    ka == (a - r.start) / (PAGE_SIZE as int),
                    r.frames.len() * PAGE_SIZE == r.end - r.start,
                    r.start <= a < r.end,
                    PAGE_SIZE == 4096,
            ;
            assert(0 <= kb < t.frames.len()) by (nonlinear_arith)
                requires
                    kb == (b - t.start) / (PAGE_SIZE as int),
                    t.frames.len() * PAGE_SIZE == t.end - t.start,
                    t.start <= b < t.end,
                    PAGE_SIZE == 4096,
            ;
            if i == j {
                if ka != kb {
                    if ka < kb {
                        assert(r.frames[ka].ppn != r.frames[kb].ppn);
                    } else {
                        assert(r.frames[kb].ppn != r.frames[ka].ppn);
                    }
                }
                assert((ka == kb) <==> (a / PAGE_SIZE == b / PAGE_SIZE));
            } else {
                assert(r.ppns().contains(r.frames[ka].ppn));
                assert(t.ppns().contains(t.frames[kb].ppn));
                if i < j {
                    assert(r.ppns().disjoint(t.ppns()));
                    assert(r.end <= t.start);
                } else {
                    assert(t.ppns().disjoint(r.ppns()));
                    assert(t.end <= r.start);
                }
                assert(a / PAGE_SIZE != b / PAGE_SIZE);
            }
        }
    }

    /// What a space becomes when the region `new.regions[idx]`, which
    /// lies between its neighbours and brings frames of its own, is put at
    /// index `idx`.
    proof fn lemma_inserted(&self, new: &AddressSpace, idx: int, data: Seq<u8>)
        requires
            self.wf(),
            0 <= idx <= self.regions.len(),
            new.regions@ == self.regions@.insert(idx, new.regions[idx]),
            new.regions[idx].wf(),
            forall|i: int| 0 <= i < idx ==> self.regions[i].end <= new.regions[idx].start,
            forall|i: int|
                idx <= i < self.regions.len() ==> new.regions[idx].end <= self.regions[i].start,
            new.regions[idx].ppns().disjoint(self.frames()),
            forall|a: usize|
                new.regions[idx].start <= a < new.regions[idx].end ==> #[trigger] new.regions[idx].byte(
                    a,
                ) == initial_byte(data, a - new.regions[idx].start),
        ensures
            new.wf(),
            new@ == self@.after_map(
                new.regions[idx].start,
                new.regions[idx].end,
                new.regions[idx].perm,
                data,
            ),
            new.frames() == self.frames().union(new.regions[idx].ppns()),
            new.keeps_frames(self),
    {
        let r = new.regions[idx];
        let n = self.regions.len() as int;
        assert(new.regions.len() == n + 1);
        assert forall|i: int| 0 <= i < idx implies #[trigger] new.regions[i] == self.regions[i] by {}
        assert forall|i: int| idx < i <= n implies #[trigger] new.regions[i] == self.regions[i - 1] by {}
        assert forall|i: int| 0 <= i < n implies (#[trigger] self.regions[i]).ppns().subset_of(
            self.frames(),
        ) by {
            assert forall|p: usize| self.regions[i].ppns().contains(p) implies self.frames().contains(
                p,
            ) by {}
        }
        assert(new.wf()) by {
            assert forall|i: int| 0 <= i < new.regions.len() implies (#[trigger] new.regions[i]).wf() by {
                if i < idx {
                    assert(self.regions[i].wf());
                } else if i > idx {
                    assert(self.regions[i - 1].wf());
                }
            }
            assert forall|i: int, j: int| 0 <= i < j < new.regions.len() implies new.regions[i].end
                <= new.regions[j].start by {
                if i != idx && j != idx {
                    let i0 = if i < idx { i } else { i - 1 };
                    let j0 = if j < idx { j } else { j - 1 };
                    assert(self.regions[i0].end <= self.regions[j0].start);
                }
            }
            assert forall|i: int, j: int| 0 <= i < j < new.regions.len() implies new.regions[i].ppns().disjoint(
            new.regions[j].ppns()) by {
                let i0 = if i < idx { i } else { i - 1 };
                let j0 = if j < idx { j } else { j - 1 };
                if i != idx && j != idx {
                    assert(self.regions[i0].ppns().disjoint(self.regions[j0].ppns()));
                } else if i == idx {
                    assert(self.regions[j0].ppns().subset_of(self.frames()));
                } else {
                    assert(self.regions[i0].ppns().subset_of(self.frames()));
                }
            }
        }
        assert(new.frames() =~= self.frames().union(r.ppns())) by {
            assert forall|p: usize| new.frames().contains(p) implies self.frames().union(
                r.ppns(),
            ).contains(p) by {
                let i = choose|i: int|
                    0 <= i < new.regions.len() && (#[trigger] new.regions[i]).ppns().contains(p);
                if i < idx {
                    assert(self.regions[i].ppns().contains(p));
                } else if i > idx {
                    assert(self.regions[i - 1].ppns().contains(p));
                }
            }
            assert forall|p: usize| self.frames().union(r.ppns()).contains(p) implies new.frames().contains(
            p) by {
                if r.ppns().contains(p) {
                    assert(new.regions[idx].ppns().contains(p));
                } else {
                    let i = choose|i: int|
                        0 <= i < self.regions.len() && (#[trigger] self.regions[i]).ppns().contains(
                            p,
                        );
                    let i1 = if i < idx { i } else { i + 1 };
                    assert(new.regions[i1].ppns().contains(p));
                }
            }
        }
        let target = self@.after_map(r.start, r.end, r.perm, data);
        assert(new@.regions =~= target.regions) by {
            assert forall|rv: RegionView| new@.regions.contains(rv) implies target.regions.contains(
                rv,
            ) by {
                let i = choose|i: int|
                    0 <= i < new.regions.len() && #[trigger] new.regions[i].bounds() == rv;
                if i < idx {
                    assert(self.regions[i].bounds() == rv);
                } else if i > idx {
                    assert(self.regions[i - 1].bounds() == rv);
                }
            }
            assert forall|rv: RegionView| target.regions.contains(rv) implies new@.regions.contains(
                rv,
            ) by {
                if rv == r.bounds() {
                    assert(new.regions[idx].bounds() == rv);
                } else {
                    let i = choose|i: int|
                        0 <= i < self.regions.len() && #[trigger] self.regions[i].bounds() == rv;
                    let i1 = if i < idx { i } else { i + 1 };
                    assert(new.regions[i1].bounds() == rv);
                }
            }
        }
        assert(new@.mem =~= target.mem) by {
            assert forall|a: usize| #[trigger]
                new@.mem.dom().contains(a) implies target.mem.dom().contains(a) && new@.mem[a]
                == target.mem[a] by {
                let i = choose|i: int| new.holds(i, a);
                new.lemma_index_unique(i, a);
                if i != idx {
                    let i0 = if i < idx { i } else { i - 1 };
                    assert(self.holds(i0, a));
                    self.lemma_index_unique(i0, a);
                    assert(self@.mem.dom().contains(a));
                } else {
                    assert(fill(r.start, r.end, data).dom().contains(a));
                }
            }
            assert forall|a: usize| #[trigger]
                target.mem.dom().contains(a) implies new@.mem.dom().contains(a) by {
                if r.start <= a < r.end {
                    assert(new.holds(idx, a));
                } else {
                    assert(self@.mem.dom().contains(a));
                    let i = choose|i: int| self.holds(i, a);
                    let i1 = if i < idx { i } else { i + 1 };
                    assert(new.holds(i1, a));
                }
            }
            assert(new@.mem.dom() =~= target.mem.dom());
        }
        self.lemma_view();
        assert forall|a: usize| self@.covers(a) && new@.covers(a) implies #[trigger] new.frame_of(
            a,
        ) == self.frame_of(a) by {
            let i = choose|i: int| self.holds(i, a);
            self.lemma_index_unique(i, a);
            let i1 = if i < idx { i } else { i + 1 };
            assert(new.holds(i1, a));
            new.lemma_index_unique(i1, a);
        }
    }

    /// What a space becomes when its region `idx` is taken out.
    proof fn lemma_removed(&self, new: &AddressSpace, idx: int)
        requires
            self.wf(),
            0 <= idx < self.regions.len(),
            new.regions@ == self.regions@.remove(idx),
        ensures
            new.wf(),
            new@ == self@.after_free(self.regions[idx].start, self.regions[idx].end),
            new.frames() == self.frames().difference(self.regions[idx].ppns()),
            self.regions[idx].ppns().subset_of(self.frames()),
            new.keeps_frames(self),
    {
        let r = self.regions[idx];
        let n = self.regions.len() as int;
        assert(new.regions.len() == n - 1);
        assert forall|i: int| 0 <= i < idx implies #[trigger] new.regions[i] == self.regions[i] by {}
        assert forall|i: int| idx <= i < n - 1 implies #[trigger] new.regions[i] == self.regions[i
            + 1] by {}
        assert(self.regions[idx].wf());
        assert(new.wf()) by {
            assert forall|i: int| 0 <= i < new.regions.len() implies (#[trigger] new.regions[i]).wf() by {
                let i1 = if i < idx { i } else { i + 1 };
                assert(self.regions[i1].wf());
            }
            assert forall|i: int, j: int| 0 <= i < j < new.regions.len() implies new.regions[i].end
                <= new.regions[j].start by {
                let i1 = if i < idx { i } else { i + 1 };
                let j1 = if j < idx { j } else { j + 1 };
                assert(self.regions[i1].end <= self.regions[j1].start);
            }
            assert forall|i: int, j: int| 0 <= i < j < new.regions.len() implies new.regions[i].ppns().disjoint(
            new.regions[j].ppns()) by {
                let i1 = if i < idx { i } else { i + 1 };
                let j1 = if j < idx { j } else { j + 1 };
                assert(self.regions[i1].ppns().disjoint(self.regions[j1].ppns()));
            }
        }
        assert(self.regions[idx].ppns().subset_of(self.frames()));
        assert(new.frames() =~= self.frames().difference(r.ppns())) by {
            assert forall|p: usize| new.frames().contains(p) implies self.frames().difference(
                r.ppns(),
            ).contains(p) by {
                let i = choose|i: int|
                    0 <= i < new.regions.len() && (#[trigger] new.regions[i]).ppns().contains(p);
                let i1 = if i < idx { i } else { i + 1 };
                assert(self.regions[i1].ppns().contains(p));
                if i1 < idx {
                    assert(self.regions[i1].ppns().disjoint(self.regions[idx].ppns()));
                } else {
                    assert(self.regions[idx].ppns().disjoint(self.regions[i1].ppns()));
                }
            }
            assert forall|p: usize| self.frames().difference(r.ppns()).contains(p) implies new.frames().contains(
            p) by {
                let i = choose|i: int|
                    0 <= i < self.regions.len() && (#[trigger] self.regions[i]).ppns().contains(p);
                let i0 = if i < idx { i } else { i - 1 };
                assert(new.regions[i0].ppns().contains(p));
            }
        }
        let target = self@.after_free(r.start, r.end);
        assert(new@.regions =~= target.regions) by {
            assert forall|rv: RegionView| new@.regions.contains(rv) implies target.regions.contains(
                rv,
            ) by {
                let i = choose|i: int|
                    0 <= i < new.regions.len() && #[trigger] new.regions[i].bounds() == rv;
                let i1 = if i < idx { i } else { i + 1 };
                assert(self.regions[i1].bounds() == rv);
                assert(self.regions[i1].wf());
                if i1 < idx {
                    assert(self.regions[i1].end <= self.regions[idx].start);
                } else {
                    assert(self.regions[idx].end <= self.regions[i1].start);
                }
            }
            assert forall|rv: RegionView| target.regions.contains(rv) implies new@.regions.contains(
                rv,
            ) by {
                let i = choose|i: int|
                    0 <= i < self.regions.len() && #[trigger] self.regions[i].bounds() == rv;
                let i0 = if i < idx { i } else { i - 1 };
                assert(new.regions[i0].bounds() == rv);
            }
        }
        assert(new@.mem =~= target.mem) by {
            assert forall|a: usize| #[trigger]
                new@.mem.dom().contains(a) implies target.mem.dom().contains(a) && new@.mem[a]
                == target.mem[a] by {
                let i = choose|i: int| new.holds(i, a);
                new.lemma_index_unique(i, a);
                let i1 = if i < idx { i } else { i + 1 };
                assert(self.holds(i1, a));
                self.lemma_index_unique(i1, a);
                assert(self@.mem.dom().contains(a));
                if i1 < idx {
                    assert(self.regions[i1].end <= self.regions[idx].start);
                } else {
                    assert(self.regions[idx].end <= self.regions[i1].start);
                }
            }
            assert forall|a: usize| #[trigger]
                target.mem.dom().contains(a) implies new@.mem.dom().contains(a) by {
                assert(self@.mem.dom().contains(a));
                let i = choose|i: int| self.holds(i, a);
                let i0 = if i < idx { i } else { i - 1 };
                assert(new.holds(i0, a));
            }
            assert(new@.mem.dom() =~= target.mem.dom());
        }
        new.lemma_view();
        assert forall|a: usize| self@.covers(a) && new@.covers(a) implies #[trigger] new.frame_of(
            a,
        ) == self.frame_of(a) by {
            let i = choose|i: int| new.holds(i, a);
            new.lemma_index_unique(i, a);
            let i1 = if i < idx { i } else { i + 1 };
            assert(self.holds(i1, a));
            self.lemma_index_unique(i1, a);
        }
    }

    /// An address space with no region.
    pub fn new() -> (r: AddressSpace)
        ensures
            r.wf(),
            r@ == SpaceView::empty(),
            r.frames() == Set::<usize>::empty(),
            r.region_total() == 0,
    {
        let r = AddressSpace { regions: Vec::new() };
        assert(r@.regions =~= Set::<RegionView>::empty());
        assert(r@.mem =~= Map::<usize, u8>::empty());
        assert(r.frames() =~= Set::<usize>::empty());
        r
    }

    /// The index of the region that holds `va`.
    fn find(&self, va: usize) -> (r: Option<usize>)
        ensures
            match r {
                Some(i) => self.holds(i as int, va),
                None => forall|i: int| !self.holds(i, va),
            },
    {
        let mut i: usize = 0;
        while i < self.regions.len()
            invariant
                i <= self.regions.len(),
                forall|j: int| 0 <= j < i ==> !self.holds(j, va),
            decreases self.regions.len() - i,
        {
            if self.regions[i].start <= va && va < self.regions[i].end {
                return Some(i);
            }
            i += 1;
        }
        None
    }

    /// The number of mapped regions.
    pub fn region_count(&self) -> (n: usize)
        ensures
            n == self.region_total(),
    {
        self.regions.len()
    }

    pub closed spec fn region_total(&self) -> nat {
        self.regions@.len()
    }

    /// The bounds of region `i`, in address order.
    pub closed spec fn region_at(&self, i: int) -> RegionView {
        self.regions[i].bounds()
    }

    /// The bounds and permission of region `i`; regions are numbered in
    /// address order.
    pub fn region(&self, i: usize) -> (r: RegionView)
        requires
            self.wf(),
            i < self.region_total(),
        ensures
            r == self.region_at(i as int),
            self@.regions.contains(r),
            forall|j: int| 0 <= j < i ==> self.region_at(j).end <= r.start,
    {
        proof {
            self.lemma_view();
        }
        RegionView {
            start: self.regions[i].start,
            end: self.regions[i].end,
            perm: self.regions[i].perm,
        }
    }

    /// The physical address behind the virtual address `va`, if `va` is
    /// mapped.
    pub fn translate(&self, va: usize) -> (r: Option<PhysAddr>)
        requires
            self.wf(),
        ensures
            r is Some <==> self@.covers(va),
            r matches Some(pa) ==> pa.offset == va % PAGE_SIZE && pa.ppn == self.frame_of(va)
                && self.frames().contains(pa.ppn),
    {
        proof {
            self.lemma_view();
        }
        match self.find(va) {
            Some(i) => {
                proof {
                    self.lemma_index_unique(i as int, va);
                    assert(self.regions[i as int].wf());
                }
                let region = &self.regions[i];
                let k = (va - region.start) / PAGE_SIZE;
                assert(k < region.frames.len()) by (nonlinear_arith)
                    requires
                        k == (va - region.start) / (PAGE_SIZE as int),
                        region.frames.len() * PAGE_SIZE == region.end - region.start,
                        region.start <= va < region.end,
                        PAGE_SIZE == 4096,
                ;
                assert(region.ppns().contains(region.frames[k as int].ppn));
                Some(PhysAddr { ppn: region.frames[k].ppn, offset: va % PAGE_SIZE })
            },
            None => None,
        }
    }

    /// The byte at `va`, if user code may read it.
    pub fn peek(&self, va: usize) -> (r: Option<u8>)
        requires
            self.wf(),
        ensures
            r == if self@.readable(va) {
                Some(self@.mem[va])
            } else {
                None::<u8>
            },
    {
        proof {
            self.lemma_view();
        }
        match self.find(va) {
            Some(i) => {
                proof {
                    self.lemma_index_unique(i as int, va);
                    assert(self.regions[i as int].wf());
                    let here = self.regions[i as int].bounds();
                    assert(self@.regions.contains(here));
                    assert(here.contains(va));
                    if self@.readable(va) {
                        let rv = choose|rv: RegionView| #[trigger]
                            self@.regions.contains(rv) && rv.contains(va) && rv.perm.user
                                && rv.perm.read;
                        assert(rv == here);
                    }
                }
                let region = &self.regions[i];
                if !(region.perm.user && region.perm.read) {
                    return None;
                }
                let k = (va - region.start) / PAGE_SIZE;
                let o = (va - region.start) % PAGE_SIZE;
                assert(k < region.frames.len()) by (nonlinear_arith)
                    requires
                        k == (va - region.start) / (PAGE_SIZE as int),
                        region.frames.len() * PAGE_SIZE == region.end - region.start,
                        region.start <= va < region.end,
                        PAGE_SIZE == 4096,
                ;
                Some(region.frames[k].bytes[o])
            },
            None => {
                proof {
                    if self@.readable(va) {
                        let rv = choose|rv: RegionView| #[trigger]
                            self@.regions.contains(rv) && rv.contains(va) && rv.perm.user
                                && rv.perm.read;
                        assert(self@.covers(va));
                    }
                }
                None
            },
        }
    }

    /// Two spaces with the same regions and the same bytes in them have
    /// the same view.
    proof fn lemma_same_view(&self, other: &AddressSpace)
        requires
            self.wf(),
            other.wf(),
            self.regions.len() == other.regions.len(),
            forall|i: int|
                0 <= i < self.regions.len() ==> (#[trigger] self.regions[i]).bounds()
                    == other.regions[i].bounds(),
            forall|i: int, a: usize| #[trigger]
                self.holds(i, a) ==> self.regions[i].byte(a) == other.regions[i].byte(a),
        ensures
            self@ == other@,
    {
        assert(self@.regions =~= other@.regions) by {
            assert forall|rv: RegionView| self@.regions.contains(rv) implies other@.regions.contains(
                rv,
            ) by {
                let i = choose|i: int|
                    0 <= i < self.regions.len() && #[trigger] self.regions[i].bounds() == rv;
                assert(other.regions[i].bounds() == rv);
            }
            assert forall|rv: RegionView| other@.regions.contains(rv) implies self@.regions.contains(
                rv,
            ) by {
                let i = choose|i: int|
                    0 <= i < other.regions.len() && #[trigger] other.regions[i].bounds() == rv;
                assert(self.regions[i].bounds() == rv);
            }
        }
        assert(self@.mem =~= other@.mem) by {
            assert forall|a: usize| #[trigger]
                self@.mem.dom().contains(a) implies other@.mem.dom().contains(a) && self@.mem[a]
                == other@.mem[a] by {
                let i = choose|i: int| self.holds(i, a);
                self.lemma_index_unique(i, a);
                assert(self.regions[i].bounds() == other.regions[i].bounds());
                assert(other.holds(i, a));
                other.lemma_index_unique(i, a);
            }
            assert forall|a: usize| #[trigger]
                other@.mem.dom().contains(a) implies self@.mem.dom().contains(a) by {
                let i = choose|i: int| other.holds(i, a);
                assert(self.regions[i].bounds() == other.regions[i].bounds());
                assert(self.holds(i, a));
            }
            assert(self@.mem.dom() =~= other@.mem.dom());
        }
    }

    /// A copy of this space on frames of its own.
    pub fn duplicate(&self, pool: &mut FrameAllocator) -> (copy: AddressSpace)
        requires
            self.wf(),
            old(pool).wf(),
        ensures
            copy.wf(),
            final(pool).wf(),
            copy@ == self@,
            copy.frames().disjoint(old(pool).allocated()),
            final(pool).allocated() == old(pool).allocated().union(copy.frames()),
    {
        let mut copy = AddressSpace::new();
        let mut i: usize = 0;
        assert(copy.foreign(pool) =~= old(pool).allocated());
        while i < self.regions.len()
            invariant
                i <= self.regions.len(),
                self.wf(),
                copy.wf(),
                pool.wf(),
                copy.backed_by(pool),
                copy.foreign(pool) == old(pool).allocated(),
                copy.regions.len() == i,
                forall|j: int|
                    0 <= j < i ==> (#[trigger] copy.regions[j]).bounds()
                        == self.regions[j].bounds(),
                forall|j: int, a: usize|
                    0 <= j < i && #[trigger] self.holds(j, a) ==> self.regions[j].byte(a)
                        == copy.regions[j].byte(a),
            decreases self.regions.len() - i,
        {
            let region = &self.regions[i];
            assert(region.wf());
            let bytes = region.contents();
            let ghost before = copy;
            proof {
                assert forall|j: int| 0 <= j < i implies copy.regions[j].end <= region.start by {
                    assert(copy.regions[j].bounds() == self.regions[j].bounds());
                    assert(self.regions[j].end <= self.regions[i as int].start);
                }
            }
            copy.insert_region(pool, i, region.start, region.end, region.perm, &bytes);
            proof {
                assert forall|j: int| 0 <= j < i implies #[trigger] copy.regions[j]
                    == before.regions[j] by {}
            }
            i += 1;
        }
        proof {
            self.lemma_same_view(&copy);
            assert(copy.frames().disjoint(old(pool).allocated()));
            assert(pool.allocated() =~= old(pool).allocated().union(copy.frames()));
        }
        copy
    }

    /// The frames handed out by `pool` that this space does not hold.
    pub open spec fn foreign(&self, pool: &FrameAllocator) -> Set<usize> {
        pool.allocated().difference(self.frames())
    }

    /// What every change of a space leaves of its frames: the space `after`
    /// is well formed and stands on frames of `pool_after`, and the frames
    /// that the pool hands out and the space does not hold are the same as
    /// before.
    pub open spec fn accounted(
        before: &AddressSpace,
        pool_before: &FrameAllocator,
        after: &AddressSpace,
        pool_after: &FrameAllocator,
    ) -> bool {
        &&& after.wf()
        &&& pool_after.wf()
        &&& after.backed_by(pool_after)
        &&& after.foreign(pool_after) == before.foreign(pool_before)
    }

    /// Puts a fresh region `start..end` with the initial contents `data`
    /// at index `idx`, between its neighbours.
    fn insert_region(
        &mut self,
        pool: &mut FrameAllocator,
        idx: usize,
        start: usize,
        end: usize,
        perm: MapPermission,
        data: &Vec<u8>,
    )
        requires
            old(self).wf(),
            old(pool).wf(),
            old(self).backed_by(old(pool)),
            start % PAGE_SIZE == 0,
            end % PAGE_SIZE == 0,
            start < end,
            idx <= old(self).regions.len(),
            forall|i: int| 0 <= i < idx ==> old(self).regions[i].end <= start,
            forall|i: int| idx <= i < old(self).regions.len() ==> end <= old(self).regions[i].start,
        ensures
            final(self).wf(),
            final(pool).wf(),
            final(self).backed_by(final(pool)),
            final(self).foreign(final(pool)) == old(self).foreign(old(pool)),
            final(self)@ == old(self)@.after_map(start, end, perm, data@),
            final(self).keeps_frames(old(self)),
            final(self).regions@ == old(self).regions@.insert(
                idx as int,
                final(self).regions[idx as int],
            ),
            final(self).regions[idx as int].bounds() == (RegionView { start, end, perm }),
            forall|a: usize|
                start <= a < end ==> #[trigger] final(self).regions[idx as int].byte(a)
                    == initial_byte(data@, a - start),
    {
        let pages = (end - start) / PAGE_SIZE;
        let frames = fresh_frames(pool, pages, data);
        let region = Region { start, end, perm, frames };
        proof {
            assert(region.wf());
            assert forall|a: usize| start <= a < end implies #[trigger] region.byte(a)
                == initial_byte(data@, a - start) by {
                let k = (a - start) / (PAGE_SIZE as int);
                let o = (a - start) % (PAGE_SIZE as int);
                assert(region.frames[k].bytes[o] == initial_byte(data@, k * PAGE_SIZE + o));
            }
            assert(region.ppns().disjoint(old(self).frames()));
        }
        self.regions.insert(idx, region);
        proof {
            old(self).lemma_inserted(self, idx as int, data@);
            assert(self.foreign(pool) =~= old(self).foreign(old(pool)));
        }
    }

    /// Maps the region from `start` to the end of the page that holds
    /// `end - 1`, with the initial contents `data` and zeroes after them.
    pub fn map_region(
        &mut self,
        pool: &mut FrameAllocator,
        start: usize,
        end: usize,
        perm: MapPermission,
        data: &Vec<u8>,
    ) -> (r: Result<(), MemoryError>)
        requires
            old(self).wf(),
            old(pool).wf(),
            old(self).backed_by(old(pool)),
            start % PAGE_SIZE == 0,
            start < end,
            end + PAGE_SIZE - 1 <= usize::MAX,
        ensures
            final(self).wf(),
            final(pool).wf(),
            final(self).backed_by(final(pool)),
            final(self).foreign(final(pool)) == old(self).foreign(old(pool)),
            r == old(self)@.map_result(start, end, perm),
            r is Ok ==> final(self)@ == old(self)@.after_map(
                start,
                page_ceil(end as int) as usize,
                perm,
                data@,
            ),
            r is Err ==> *final(self) == *old(self) && *final(pool) == *old(pool),
            final(self).keeps_frames(old(self)),
    {
        let e = ((end + (PAGE_SIZE - 1)) / PAGE_SIZE) * PAGE_SIZE;
        assert(e == page_ceil(end as int));
        let mut idx: usize = 0;
        while idx < self.regions.len() && self.regions[idx].end <= start
            invariant
                idx <= self.regions.len(),
                forall|i: int| 0 <= i < idx ==> self.regions[i].end <= start,
            decreases self.regions.len() - idx,
        {
            idx += 1;
        }
        let clash = idx < self.regions.len() && self.regions[idx].start < e;
        proof {
            self.lemma_view();
            if clash {
                let rv = self.regions[idx as int].bounds();
                assert(self.regions[idx as int].wf());
                assert(self@.regions.contains(rv));
                assert(rv.start < end);
            }
            if self@.overlaps(start, end) {
                let rv = choose|rv: RegionView| #[trigger]
                    self@.regions.contains(rv) && rv.start < end && start < rv.end;
                let i = choose|i: int|
                    0 <= i < self.regions.len() && #[trigger] self.regions[i].bounds() == rv;
                assert(self.regions[i].wf());
                if i > idx {
                    assert(self.regions[idx as int].wf());
                    assert(self.regions[idx as int].end <= self.regions[i].start);
                }
            }
            assert(clash == self@.overlaps(start, end));
        }
        if clash {
            return Err(MemoryError::Overlap);
        }
        if !perm.grants_access() {
            return Err(MemoryError::InvalidPermission);
        }
        proof {
            assert forall|i: int| idx <= i < self.regions.len() implies e
                <= self.regions[i].start by {
                if i > idx {
                    assert(self.regions[idx as int].wf());
                    assert(self.regions[idx as int].end <= self.regions[i].start);
                }
            }
        }
        self.insert_region(pool, idx, start, e, perm, data);
        Ok(())
    }

    /// Maps the zeroed region from `start` to the end of the page that
    /// holds `end - 1`.
    pub fn allocate_region(
        &mut self,
        pool: &mut FrameAllocator,
        start: usize,
        end: usize,
        perm: MapPermission,
    ) -> (r: Result<(), MemoryError>)
        requires
            old(self).wf(),
            old(pool).wf(),
            old(self).backed_by(old(pool)),
            start % PAGE_SIZE == 0,
            start < end,
            end + PAGE_SIZE - 1 <= usize::MAX,
        ensures
            final(self).wf(),
            final(pool).wf(),
            final(self).backed_by(final(pool)),
            final(self).foreign(final(pool)) == old(self).foreign(old(pool)),
            r == old(self)@.map_result(start, end, perm),
            r is Ok ==> final(self)@ == old(self)@.after_map(
                start,
                page_ceil(end as int) as usize,
                perm,
                Seq::empty(),
            ),
            r is Err ==> *final(self) == *old(self) && *final(pool) == *old(pool),
            final(self).keeps_frames(old(self)),
    {
        let zeroes: Vec<u8> = Vec::new();
        self.map_region(pool, start, end, perm, &zeroes)
    }

    /// Unmaps the region whose bounds are exactly `start..end` and gives
    /// its frames back to `pool`.
    pub fn free_region(&mut self, pool: &mut FrameAllocator, start: usize, end: usize) -> (r:
        Result<(), MemoryError>)
        requires
            old(self).wf(),
            old(pool).wf(),
            old(self).backed_by(old(pool)),
        ensures
            final(self).wf(),
            final(pool).wf(),
            final(self).backed_by(final(pool)),
            final(self).foreign(final(pool)) == old(self).foreign(old(pool)),
            r == old(self)@.free_result(start, end),
            r is Ok ==> final(self)@ == old(self)@.after_free(start, end),
            r is Err ==> *final(self) == *old(self) && *final(pool) == *old(pool),
            final(self).keeps_frames(old(self)),
    {
        let mut i: usize = 0;
        while i < self.regions.len() && !(self.regions[i].start == start && self.regions[i].end
            == end)
            invariant
                i <= self.regions.len(),
                forall|j: int|
                    0 <= j < i ==> !(self.regions[j].start == start && self.regions[j].end == end),
            decreases self.regions.len() - i,
        {
            i += 1;
        }
        proof {
            self.lemma_view();
            if i < self.regions.len() {
                assert(self@.regions.contains(self.regions[i as int].bounds()));
            }
            if self@.has_region(start, end) {
                let rv = choose|rv: RegionView| #[trigger]
                    self@.regions.contains(rv) && rv.start == start && rv.end == end;
                let j = choose|j: int|
                    0 <= j < self.regions.len() && #[trigger] self.regions[j].bounds() == rv;
                assert(j >= i);
            }
        }
        if i == self.regions.len() {
            return Err(MemoryError::NotFound);
        }
        let region = self.regions.remove(i);
        proof {
            old(self).lemma_removed(self, i as int);
            assert(old(self).regions[i as int].wf());
        }
        release_frames(pool, &region.frames);
        proof {
            assert(self.foreign(pool) =~= old(self).foreign(old(pool)));
        }
        Ok(())
    }

    /// Unmaps every region and gives all frames back to `pool`.
    pub fn clear(&mut self, pool: &mut FrameAllocator)
        requires
            old(self).wf(),
            old(pool).wf(),
            old(self).backed_by(old(pool)),
        ensures
            final(self).wf(),
            final(pool).wf(),
            final(self)@ == SpaceView::empty(),
            final(self).frames() == Set::<usize>::empty(),
            final(self).region_total() == 0,
            final(pool).allocated() == old(self).foreign(old(pool)),
    {
        while self.regions.len() > 0
            invariant
                self.wf(),
                pool.wf(),
                self.backed_by(pool),
                self.foreign(pool) == old(self).foreign(old(pool)),
            decreases self.regions.len(),
        {
            let ghost before = *self;
            let ghost held = pool.allocated();
            let last = self.regions.len() - 1;
            let region = self.regions.remove(last);
            proof {
                before.lemma_removed(self, last as int);
                assert(before.regions[last as int].wf());
            }
            release_frames(pool, &region.frames);
            proof {
                assert(self.foreign(pool) =~= held.difference(before.frames()));
            }
        }
        proof {
            assert(self@.regions =~= Set::<RegionView>::empty());
            assert(self@.mem =~= Map::<usize, u8>::empty());
            assert(self.frames() =~= Set::<usize>::empty());
            assert(pool.allocated() =~= self.foreign(pool));
        }
    }

    /// Discards every region and maps the segments of `image` instead.
    pub fn replace_with(&mut self, pool: &mut FrameAllocator, image: &Image)
        requires
            old(self).wf(),
            old(pool).wf(),
            old(self).backed_by(old(pool)),
            image.wf(),
        ensures
            final(self).wf(),
            final(pool).wf(),
            final(self).backed_by(final(pool)),
            final(self).foreign(final(pool)) == old(self).foreign(old(pool)),
            final(self)@ == image.space(),
    {
        self.clear(pool);
        assert(self.foreign(pool) =~= old(self).foreign(old(pool)));
        let mut i: usize = 0;
        while i < image.segments.len()
            invariant
                i <= image.segments.len(),
                image.wf(),
                self.wf(),
                pool.wf(),
                self.backed_by(pool),
                self.foreign(pool) == old(self).foreign(old(pool)),
                self.regions.len() == i,
                forall|j: int|
                    0 <= j < i ==> (#[trigger] self.regions[j]).end == image.segments[j].end,
                self@ == loaded(image.segments@, i as nat),
            decreases image.segments.len() - i,
        {
            let s = &image.segments[i];
            assert(s.wf());
            let ghost before = *self;
            self.insert_region(pool, i, s.start, s.end, s.perm, &s.data);
            proof {
                assert forall|j: int| 0 <= j < i implies #[trigger] self.regions[j]
                    == before.regions[j] by {}
            }
            i += 1;
        }
    }

    /// Whether a region intersects `start..end`.
    pub fn intersects(&self, start: usize, end: usize) -> (r: bool)
        requires
            self.wf(),
        ensures
            r == self@.overlaps(start, end),
    {
        proof {
            self.lemma_view();
        }
        let mut i: usize = 0;
        while i < self.regions.len()
            invariant
                i <= self.regions.len(),
                forall|j: int|
                    0 <= j < i ==> !(self.regions[j].start < end && start < self.regions[j].end),
            decreases self.regions.len() - i,
        {
            if self.regions[i].start < end && start < self.regions[i].end {
                assert(self@.regions.contains(self.regions[i as int].bounds()));
                return true;
            }
            i += 1;
        }
        proof {
            if self@.overlaps(start, end) {
                let rv = choose|rv: RegionView| #[trigger]
                    self@.regions.contains(rv) && rv.start < end && start < rv.end;
                let j = choose|j: int|
                    0 <= j < self.regions.len() && #[trigger] self.regions[j].bounds() == rv;
                assert(!(self.regions[j].start < end && start < self.regions[j].end));
            }
        }
        false
    }

    /// Maps `pages` zeroed pages from `start` on, each as a region of its
    /// own, unless one of them intersects a mapped region: then nothing
    /// is mapped.
    pub fn map_pages(
        &mut self,
        pool: &mut FrameAllocator,
        start: usize,
        pages: usize,
        perm: MapPermission,
    ) -> (ok: bool)
        requires
            old(self).wf(),
            old(pool).wf(),
            old(self).backed_by(old(pool)),
            start % PAGE_SIZE == 0,
            start + pages * PAGE_SIZE + PAGE_SIZE - 1 <= usize::MAX,
            perm.has_access(),
        ensures
            final(self).wf(),
            final(pool).wf(),
            final(self).backed_by(final(pool)),
            final(self).foreign(final(pool)) == old(self).foreign(old(pool)),
            ok == (pages == 0 || !old(self)@.overlaps(
                start,
                (start + pages * PAGE_SIZE) as usize,
            )),
            ok ==> final(self)@ == with_pages(old(self)@, start, pages as nat, perm),
            !ok ==> *final(self) == *old(self) && *final(pool) == *old(pool),
            final(self).keeps_frames(old(self)),
    {
        if pages == 0 {
            return true;
        }
        let end = start + pages * PAGE_SIZE;
        if self.intersects(start, end) {
            return false;
        }
        let mut k: usize = 0;
        while k < pages
            invariant
                k <= pages,
                start % PAGE_SIZE == 0,
                start + pages * PAGE_SIZE + PAGE_SIZE - 1 <= usize::MAX,
                end == start + pages * PAGE_SIZE,
                perm.has_access(),
                self.wf(),
                pool.wf(),
                self.backed_by(pool),
                self.foreign(pool) == old(self).foreign(old(pool)),
                self@ == with_pages(old(self)@, start, k as nat, perm),
                !self@.overlaps((start + k * PAGE_SIZE) as usize, end),
                forall|x: usize| #[trigger] old(self)@.covers(x) ==> self@.covers(x),
                forall|x: usize|
                    old(self)@.covers(x) ==> #[trigger] self.frame_of(x) == old(self).frame_of(x),
            decreases pages - k,
        {
            let a = start + k * PAGE_SIZE;
            let b = a + PAGE_SIZE;
            let ghost before = self@;
            let ghost was = *self;
            proof {
                if before.overlaps(a, b) {
                    let rv = choose|rv: RegionView| #[trigger]
                        before.regions.contains(rv) && rv.start < b && a < rv.end;
                    assert(rv.start < end && a < rv.end);
                }
            }
            let r = self.allocate_region(pool, a, b, perm);
            proof {
                assert(r is Ok);
                assert(page_ceil(b as int) == b);
                if self@.overlaps(b, end) {
                    let rv = choose|rv: RegionView| #[trigger]
                        self@.regions.contains(rv) && rv.start < end && b < rv.end;
                    if rv != (RegionView { start: a, end: b, perm }) {
                        assert(before.regions.contains(rv));
                        assert(rv.start < end && a < rv.end);
                    }
                }
                assert forall|x: usize| #[trigger] old(self)@.covers(x) implies self@.covers(
                    x,
                ) by {
                    assert(before.covers(x));
                    let rv = choose|rv: RegionView| #[trigger]
                        before.regions.contains(rv) && rv.contains(x);
                    assert(self@.regions.contains(rv) && rv.contains(x));
                }
                assert forall|x: usize| old(self)@.covers(x) implies #[trigger] self.frame_of(x)
                    == old(self).frame_of(x) by {
                    assert(was.frame_of(x) == old(self).frame_of(x));
                    assert(was@.covers(x) && self@.covers(x));
                }
            }
            k += 1;
        }
        true
    }

    /// Unmaps those of the `pages` pages from `start` on that are regions
    /// of one page.
    pub fn unmap_pages(&mut self, pool: &mut FrameAllocator, start: usize, pages: usize)
        requires
            old(self).wf(),
            old(pool).wf(),
            old(self).backed_by(old(pool)),
            start + pages * PAGE_SIZE <= usize::MAX,
        ensures
            final(self).wf(),
            final(pool).wf(),
            final(self).backed_by(final(pool)),
            final(self).foreign(final(pool)) == old(self).foreign(old(pool)),
            final(self)@ == without_pages(old(self)@, start, pages as nat),
            final(self).keeps_frames(old(self)),
    {
        let mut k: usize = 0;
        while k < pages
            invariant
                k <= pages,
                start + pages * PAGE_SIZE <= usize::MAX,
                self.wf(),
                pool.wf(),
                self.backed_by(pool),
                self.foreign(pool) == old(self).foreign(old(pool)),
                self@ == without_pages(old(self)@, start, k as nat),
                forall|x: usize| #[trigger] self@.covers(x) ==> old(self)@.covers(x),
                forall|x: usize|
                    self@.covers(x) ==> #[trigger] self.frame_of(x) == old(self).frame_of(x),
            decreases pages - k,
        {
            assert((k + 1) * PAGE_SIZE <= pages * PAGE_SIZE) by (nonlinear_arith)
                requires
                    k < pages,
            ;
            let a = start + k * PAGE_SIZE;
            let b = a + PAGE_SIZE;
            let ghost before = *self;
            let r = self.free_region(pool, a, b);
            proof {
                if r is Err {
                    assert(self@ == before@);
                }
                assert forall|x: usize| #[trigger] self@.covers(x) implies before@.covers(x) by {
                    let rv = choose|rv: RegionView| #[trigger]
                        self@.regions.contains(rv) && rv.contains(x);
                    assert(before@.regions.contains(rv) && rv.contains(x));
                }
                assert forall|x: usize| self@.covers(x) implies #[trigger] self.frame_of(x)
                    == old(self).frame_of(x) by {
                    assert(before@.covers(x));
                    assert(before.frame_of(x) == old(self).frame_of(x));
                }
            }
            k += 1;
        }
    }

    /// Whether user code may write the byte at `va`.
    pub fn can_write(&self, va: usize) -> (ok: bool)
        requires
            self.wf(),
        ensures
            ok == self@.writable(va),
    {
        proof {
            self.lemma_view();
        }
        match self.find(va) {
            Some(i) => {
                proof {
                    self.lemma_index_unique(i as int, va);
                    assert(self.regions[i as int].wf());
                    let here = self.regions[i as int].bounds();
                    assert(self@.regions.contains(here));
                    assert(here.contains(va));
                    if self@.writable(va) {
                        let rv = choose|rv: RegionView| #[trigger]
                            self@.regions.contains(rv) && rv.contains(va) && rv.perm.user
                                && rv.perm.write;
                        assert(rv == here);
                    }
                }
                self.regions[i].perm.user && self.regions[i].perm.write
            },
            None => {
                proof {
                    if self@.writable(va) {
                        let rv = choose|rv: RegionView| #[trigger]
                            self@.regions.contains(rv) && rv.contains(va) && rv.perm.user
                                && rv.perm.write;
                        assert(self@.covers(va));
                    }
                }
                false
            },
        }
    }

    /// Stores `b` at `va` if user code may write there, and says whether
    /// it did.
    pub fn poke(&mut self, va: usize, b: u8) -> (ok: bool)
        requires
            old(self).wf(),
        ensures
            final(self).wf(),
            final(self).frames() == old(self).frames(),
            ok == old(self)@.writable(va),
            ok ==> final(self)@ == old(self)@.after_store(va, seq![b]),
            !ok ==> *final(self) == *old(self),
            final(self).keeps_frames(old(self)),
    {
        proof {
            self.lemma_view();
        }
        match self.find(va) {
            Some(i) => {
                proof {
                    self.lemma_index_unique(i as int, va);
                    assert(self.regions[i as int].wf());
                    assert(self@.regions.contains(self.regions[i as int].bounds()));
                }
                let perm = self.regions[i].perm;
                proof {
                    let here = self.regions[i as int].bounds();
                    assert(here.contains(va));
                    if self@.writable(va) {
                        let rv = choose|rv: RegionView| #[trigger]
                            self@.regions.contains(rv) && rv.contains(va) && rv.perm.user
                                && rv.perm.write;
                        assert(rv == here);
                    }
                }
                if !(perm.user && perm.write) {
                    return false;
                }
                let k = (va - self.regions[i].start) / PAGE_SIZE;
                let o = (va - self.regions[i].start) % PAGE_SIZE;
                assert(k < self.regions[i as int].frames.len()) by (nonlinear_arith)
                    requires
                        k == (va - self.regions[i as int].start) / (PAGE_SIZE as int),
                        self.regions[i as int].frames.len() * PAGE_SIZE == self.regions[i as int].end
                            - self.regions[i as int].start,
                        self.regions[i as int].start <= va < self.regions[i as int].end,
                        PAGE_SIZE == 4096,
                ;
                self.regions[i].frames[k].bytes[o] = b;
                proof {
                    old(self).lemma_poked(self, i as int, va, b);
                }
                true
            },
            None => {
                proof {
                    if self@.writable(va) {
                        let rv = choose|rv: RegionView| #[trigger]
                            self@.regions.contains(rv) && rv.contains(va) && rv.perm.user
                                && rv.perm.write;
                        assert(self@.covers(va));
                    }
                }
                false
            },
        }
    }

    /// What a space becomes when the byte at `va`, in region `i`, is
    /// replaced by `b`.
    proof fn lemma_poked(&self, new: &AddressSpace, i: int, va: usize, b: u8)
        requires
            self.wf(),
            self.holds(i, va),
            new.regions.len() == self.regions.len(),
            forall|j: int| 0 <= j < self.regions.len() && j != i ==> new.regions[j] == self.regions[j],
            new.regions[i].bounds() == self.regions[i].bounds(),
            new.regions[i].frames.len() == self.regions[i].frames.len(),
            forall|m: int|
                0 <= m < self.regions[i].frames.len() ==> (#[trigger] new.regions[i].frames[m]).ppn
                    == self.regions[i].frames[m].ppn,
            forall|m: int|
                0 <= m < self.regions[i].frames.len() && m != (va - self.regions[i].start) / (
                PAGE_SIZE as int) ==> (#[trigger] new.regions[i].frames[m]).bytes
                    == self.regions[i].frames[m].bytes,
            new.regions[i].frames[(va - self.regions[i].start) / (PAGE_SIZE as int)].bytes@
                == self.regions[i].frames[(va - self.regions[i].start) / (
            PAGE_SIZE as int)].bytes@.update((va - self.regions[i].start) % (PAGE_SIZE as int), b),
        ensures
            new.wf(),
            new.frames() == self.frames(),
            new@ == self@.after_store(va, seq![b]),
            new.keeps_frames(self),
    {
        let r = self.regions[i];
        let k = (va - r.start) / (PAGE_SIZE as int);
        let o = (va - r.start) % (PAGE_SIZE as int);
        assert(r.wf());
        assert(0 <= k < r.frames.len()) by (nonlinear_arith)
            requires
                k == (va - r.start) / (PAGE_SIZE as int),
                r.frames.len() * PAGE_SIZE == r.end - r.start,
                r.start <= va < r.end,
                PAGE_SIZE == 4096,
        ;
        assert(new.regions[i].ppns() =~= r.ppns()) by {
            assert forall|p: usize| new.regions[i].ppns().contains(p) implies r.ppns().contains(
                p,
            ) by {
                let m = choose|m: int|
                    0 <= m < new.regions[i].frames.len() && #[trigger] new.regions[i].frames[m].ppn
                        == p;
                assert(r.frames[m].ppn == p);
            }
            assert forall|p: usize| r.ppns().contains(p) implies new.regions[i].ppns().contains(
                p,
            ) by {
                let m = choose|m: int| 0 <= m < r.frames.len() && #[trigger] r.frames[m].ppn == p;
                assert(new.regions[i].frames[m].ppn == p);
            }
        }
        assert forall|j: int| 0 <= j < self.regions.len() implies (#[trigger] new.regions[j]).ppns()
            == self.regions[j].ppns() && new.regions[j].bounds() == self.regions[j].bounds() by {}
        assert(new.regions[i].wf()) by {
            assert forall|m: int| 0 <= m < new.regions[i].frames.len() implies (
            #[trigger] new.regions[i].frames[m]).bytes.len() == PAGE_SIZE by {
                assert(r.frames[m].bytes.len() == PAGE_SIZE);
            }
        }
        assert(new.wf()) by {
            assert forall|j: int| 0 <= j < new.regions.len() implies (#[trigger] new.regions[j]).wf() by {
                if j != i {
                    assert(self.regions[j].wf());
                }
            }
            assert forall|j: int, l: int| 0 <= j < l < new.regions.len() implies new.regions[j].end
                <= new.regions[l].start by {
                assert(self.regions[j].end <= self.regions[l].start);
                assert(new.regions[j].bounds() == self.regions[j].bounds());
                assert(new.regions[l].bounds() == self.regions[l].bounds());
            }
            assert forall|j: int, l: int| 0 <= j < l < new.regions.len() implies new.regions[j].ppns().disjoint(
            new.regions[l].ppns()) by {
                assert(self.regions[j].ppns().disjoint(self.regions[l].ppns()));
            }
        }
        assert(new.frames() =~= self.frames()) by {
            assert forall|p: usize| new.frames().contains(p) implies self.frames().contains(p) by {
                let j = choose|j: int|
                    0 <= j < new.regions.len() && (#[trigger] new.regions[j]).ppns().contains(p);
                assert(self.regions[j].ppns().contains(p));
            }
            assert forall|p: usize| self.frames().contains(p) implies new.frames().contains(p) by {
                let j = choose|j: int|
                    0 <= j < self.regions.len() && (#[trigger] self.regions[j]).ppns().contains(p);
                assert(new.regions[j].ppns().contains(p));
            }
        }
        let target = self@.after_store(va, seq![b]);
        assert(new@.regions =~= target.regions) by {
            assert forall|rv: RegionView| new@.regions.contains(rv) implies target.regions.contains(
                rv,
            ) by {
                let j = choose|j: int|
                    0 <= j < new.regions.len() && #[trigger] new.regions[j].bounds() == rv;
                assert(self.regions[j].bounds() == rv);
            }
            assert forall|rv: RegionView| target.regions.contains(rv) implies new@.regions.contains(
                rv,
            ) by {
                let j = choose|j: int|
                    0 <= j < self.regions.len() && #[trigger] self.regions[j].bounds() == rv;
                assert(new.regions[j].bounds() == rv);
            }
        }
        assert(new@.mem =~= target.mem) by {
            assert forall|a: usize| #[trigger]
                new@.mem.dom().contains(a) implies target.mem.dom().contains(a) && new@.mem[a]
                == target.mem[a] by {
                let j = choose|j: int| new.holds(j, a);
                new.lemma_index_unique(j, a);
                assert(new.regions[j].bounds() == self.regions[j].bounds());
                assert(self.holds(j, a));
                self.lemma_index_unique(j, a);
                assert(self@.mem.dom().contains(a));
                if j == i {
                    let ka = (a - r.start) / (PAGE_SIZE as int);
                    let oa = (a - r.start) % (PAGE_SIZE as int);
                    assert(0 <= ka < r.frames.len()) by (nonlinear_arith)
                        requires
                            ka == (a - r.start) / (PAGE_SIZE as int),
                            r.frames.len() * PAGE_SIZE == r.end - r.start,
                            r.start <= a < r.end,
                            PAGE_SIZE == 4096,
                    ;
                    if a != va {
                        assert(ka != k || oa != o);
                    }
                }
            }
            assert forall|a: usize| #[trigger]
                target.mem.dom().contains(a) implies new@.mem.dom().contains(a) by {
                assert(self@.mem.dom().contains(a));
                let j = choose|j: int| self.holds(j, a);
                assert(new.regions[j].bounds() == self.regions[j].bounds());
                assert(new.holds(j, a));
            }
            assert(new@.mem.dom() =~= target.mem.dom());
        }
        self.lemma_view();
        assert forall|a: usize| self@.covers(a) && new@.covers(a) implies #[trigger] new.frame_of(
            a,
        ) == self.frame_of(a) by {
            let j = choose|j: int| self.holds(j, a);
            self.lemma_index_unique(j, a);
            assert(new.regions[j].bounds() == self.regions[j].bounds());
            assert(new.holds(j, a));
            new.lemma_index_unique(j, a);
            if j == i {
                let ka = (a - r.start) / (PAGE_SIZE as int);
                assert(0 <= ka < r.frames.len()) by (nonlinear_arith)
                    requires
                        ka == (a - r.start) / (PAGE_SIZE as int),
                        r.frames.len() * PAGE_SIZE == r.end - r.start,
                        r.start <= a < r.end,
                        PAGE_SIZE == 4096,
                ;
                assert(new.regions[i].frames[ka].ppn == r.frames[ka].ppn);
            }
        }
    }
}

} // verus!
