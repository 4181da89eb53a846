//! Program images and the table that finds them by name.
//!
//! An image is a program already laid out for loading: its segments with
//! their initial bytes, its entry point and the top of its user stack.

use crate::config::PAGE_SIZE;
use crate::mm::permission::MapPermission;
use crate::mm::space::SpaceView;
use vstd::prelude::*;

verus! {

/// One region of an image: `data` is stored from `start` on, zeroes fill
/// the rest up to `end`.
pub struct Segment {
    pub start: usize,
    pub end: usize,
    pub perm: MapPermission,
    pub data: Vec<u8>,
}

/// A named program.
pub struct Image {
    pub name: Vec<u8>,
    pub entry: usize,
    pub stack_top: usize,
    pub segments: Vec<Segment>,
}

impl Segment {
    /// The segment is page aligned, not empty, grants some access and
    /// holds its data.
    pub open spec fn wf(&self) -> bool {
        &&& self.start % PAGE_SIZE == 0
        &&& self.end % PAGE_SIZE == 0
        &&& self.start < self.end
        &&& self.perm.has_access()
        &&& self.data.len() <= self.end - self.start
    }
}

/// The address space that holds the first `n` of `segments`.
pub open spec fn loaded(segments: Seq<Segment>, n: nat) -> SpaceView
    decreases n,
{
    if n == 0 {
        SpaceView::empty()
    } else {
        let s = segments[n - 1];
        loaded(segments, (n - 1) as nat).after_map(s.start, s.end, s.perm, s.data@)
    }
}

impl Image {
    /// Every segment is well formed, and the segments stand in address
    /// order without intersecting.
    pub open spec fn wf(&self) -> bool {
        &&& forall|i: int| 0 <= i < self.segments.len() ==> (#[trigger] self.segments[i]).wf()
        &&& forall|i: int, j: int|
            0 <= i < j < self.segments.len() ==> self.segments[i].end <= self.segments[j].start
    }

    /// The address space of a task that runs this image.
    pub open spec fn space(&self) -> SpaceView {
        loaded(self.segments@, self.segments.len() as nat)
    }

    /// Whether the image is well formed.
    pub fn check(&self) -> (ok: bool)
        ensures
            ok == self.wf(),
    {
        let mut i: usize = 0;
        while i < self.segments.len()
            invariant
                i <= self.segments.len(),
                forall|j: int| 0 <= j < i ==> (#[trigger] self.segments[j]).wf(),
                forall|j: int, k: int|
                    0 <= j < k < i ==> self.segments[j].end <= self.segments[k].start,
            decreases self.segments.len() - i,
        {
            let s = &self.segments[i];
            let fine = s.start % PAGE_SIZE == 0 && s.end % PAGE_SIZE == 0 && s.start < s.end
                && s.perm.grants_access() && s.data.len() <= s.end - s.start;
            if !fine {
                assert(!self.segments[i as int].wf());
                return false;
            }
            if i > 0 && self.segments[i - 1].end > s.start {
                return false;
            }
            proof {
                assert forall|j: int| 0 <= j < i implies self.segments[j].end
                    <= self.segments[i as int].start by {
                    if j < i - 1 {
                        assert(self.segments[i - 1].wf());
                        assert(self.segments[j].end <= self.segments[i - 1].start);
                    }
                }
            }
            i += 1;
        }
        true
    }
}

/// Whether two byte strings are the same.
pub fn same_bytes(a: &Vec<u8>, b: &Vec<u8>) -> (same: bool)
    ensures
        same == (a@ == b@),
{
    if a.len() != b.len() {
        return false;
    }
    let mut i: usize = 0;
    while i < a.len()
        invariant
            i <= a.len(),
            a.len() == b.len(),
            forall|j: int| 0 <= j < i ==> a[j] == b[j],
        decreases a.len() - i,
    {
        if a[i] != b[i] {
            return false;
        }
        i += 1;
    }
    assert(a@ =~= b@);
    true
}

/// The first of `images` that is called `name`.
pub open spec fn find_image(images: Seq<Image>, name: Seq<u8>) -> Option<Image>
    decreases images.len(),
{
    if images.len() == 0 {
        None
    } else if images[0].name@ == name {
        Some(images[0])
    } else {
        find_image(images.drop_first(), name)
    }
}

/// `images` without the first image that is called `name`.
pub open spec fn drop_image(images: Seq<Image>, name: Seq<u8>) -> Seq<Image>
    decreases images.len(),
{
    if images.len() == 0 {
        images
    } else if images[0].name@ == name {
        images.drop_first()
    } else {
        seq![images[0]] + drop_image(images.drop_first(), name)
    }
}

/// Taking out the image at `i`, which is the first called `name`, drops
/// that image.
proof fn lemma_drop_at(images: Seq<Image>, name: Seq<u8>, i: int)
    requires
        0 <= i < images.len(),
        images[i].name@ == name,
        forall|j: int| 0 <= j < i ==> images[j].name@ != name,
    ensures
        drop_image(images, name) == images.remove(i),
    decreases i,
{
    if i == 0 {
        assert(images.drop_first() =~= images.remove(0));
    } else {
        let rest = images.drop_first();
        assert(rest[i - 1] == images[i]);
        assert forall|j: int| 0 <= j < i - 1 implies rest[j].name@ != name by {
            assert(rest[j] == images[j + 1]);
        }
        lemma_drop_at(rest, name, i - 1);
        assert(seq![images[0]] + rest.remove(i - 1) =~= images.remove(i));
    }
}

/// Without an image called `name` there is nothing to drop.
proof fn lemma_drop_none(images: Seq<Image>, name: Seq<u8>)
    requires
        forall|j: int| 0 <= j < images.len() ==> images[j].name@ != name,
    ensures
        drop_image(images, name) == images,
        find_image(images, name) is None,
    decreases images.len(),
{
    if images.len() > 0 {
        let rest = images.drop_first();
        assert forall|j: int| 0 <= j < rest.len() implies rest[j].name@ != name by {
            assert(rest[j] == images[j + 1]);
        }
        lemma_drop_none(rest, name);
        assert(seq![images[0]] + rest =~= images);
    }
}

/// The images that tasks can be started from.
pub struct Loader {
    images: Vec<Image>,
}

impl View for Loader {
    type V = Seq<Image>;

    closed spec fn view(&self) -> Seq<Image> {
        self.images@
    }
}

impl Loader {
    /// Every image of the table is well formed.
    pub open spec fn wf(&self) -> bool {
        forall|i: int| 0 <= i < self@.len() ==> (#[trigger] self@[i]).wf()
    }

    /// The image that `name` stands for, if there is one.
    pub open spec fn image(&self, name: Seq<u8>) -> Option<Image> {
        find_image(self@, name)
    }

    /// A table without images.
    pub fn new() -> (r: Loader)
        ensures
            r.wf(),
            r@ == Seq::<Image>::empty(),
    {
        Loader { images: Vec::new() }
    }

    /// Adds `image` behind the images of the table, if it is well formed.
    pub fn register(&mut self, image: Image) -> (ok: bool)
        requires
            old(self).wf(),
        ensures
            final(self).wf(),
            ok == image.wf(),
            ok ==> final(self)@ == old(self)@.push(image),
            !ok ==> final(self)@ == old(self)@,
    {
        if image.check() {
            self.images.push(image);
            proof {
                assert forall|i: int| 0 <= i < self@.len() implies (#[trigger] self@[i]).wf() by {
                    if i < old(self)@.len() {
                        assert(old(self)@[i].wf());
                    }
                }
            }
            true
        } else {
            false
        }
    }

    /// Takes the first image called `name` out of the table, and says
    /// whether there was one.
    pub fn unregister(&mut self, name: &Vec<u8>) -> (found: bool)
        requires
            old(self).wf(),
        ensures
            final(self).wf(),
            found == old(self).image(name@) is Some,
            final(self)@ == drop_image(old(self)@, name@),
    {
        let mut i: usize = 0;
        assert(self.images@.subrange(0, self.images.len() as int) =~= self.images@);
        while i < self.images.len()
            invariant
                i <= self.images.len(),
                *self == *old(self),
                old(self).wf(),
                forall|j: int| 0 <= j < i ==> self.images[j].name@ != name@,
                find_image(self.images@, name@) == find_image(
                    self.images@.subrange(i as int, self.images.len() as int),
                    name@,
                ),
            decreases self.images.len() - i,
        {
            let ghost rest = self.images@.subrange(i as int, self.images.len() as int);
            assert(rest[0] == self.images[i as int]);
            assert(rest.drop_first() =~= self.images@.subrange(i + 1, self.images.len() as int));
            if same_bytes(&self.images[i].name, name) {
                proof {
                    lemma_drop_at(self.images@, name@, i as int);
                }
                self.images.remove(i);
                proof {
                    assert forall|j: int| 0 <= j < self@.len() implies (#[trigger] self@[j]).wf() by {
                        if j < i {
                            assert(old(self)@[j].wf());
                        } else {
                            assert(old(self)@[j + 1].wf());
                        }
                    }
                }
                return true;
            }
            i += 1;
        }
        proof {
            lemma_drop_none(self.images@, name@);
        }
        false
    }

    /// The image that `name` stands for.
    pub fn lookup(&self, name: &Vec<u8>) -> (r: Option<&Image>)
        requires
            self.wf(),
        ensures
            match r {
                Some(image) => self.image(name@) == Some(*image) && image.wf(),
                None => self.image(name@) is None,
            },
    {
        let mut i: usize = 0;
        assert(self.images@.subrange(0, self.images.len() as int) =~= self.images@);
        while i < self.images.len()
            invariant
                i <= self.images.len(),
                self.wf(),
                find_image(self.images@, name@) == find_image(
                    self.images@.subrange(i as int, self.images.len() as int),
                    name@,
                ),
            decreases self.images.len() - i,
        {
            let ghost rest = self.images@.subrange(i as int, self.images.len() as int);
            assert(rest[0] == self.images[i as int]);
            assert(rest.drop_first() =~= self.images@.subrange(i + 1, self.images.len() as int));
            if same_bytes(&self.images[i].name, name) {
                assert(self@[i as int].wf());
                return Some(&self.images[i]);
            }
            i += 1;
        }
        None
    }
}

} // verus!
