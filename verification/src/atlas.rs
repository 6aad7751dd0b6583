//! The packing engine: images, the next-fit linear scan, and placement.

use vstd::prelude::*;

use crate::geometry::Rect;

verus! {

/// Errors of the packing pipeline. Input, packing and write failures are all
/// fatal for a run; an empty input set is not an error.
#[derive(Debug, PartialEq, Eq)]
pub enum AtlasError {
    /// A file was not a decodable RGBA8 image, or its pixel count overflows.
    Decode,
    /// An image cannot be placed on the canvas; carries the image's name.
    Pack(String),
    /// Placements would write outside the output buffer or on each other.
    Composite,
    /// The image or archive encoder refused the composited data.
    Archive,
}

/// A decoded source image: name, dimensions, and RGBA8 pixel rows.
#[derive(PartialEq, Eq)]
pub struct Image {
    pub name: String,
    pub width: u32,
    pub height: u32,
    pub data: Vec<u8>,
}

impl Image {
    /// The ordering key used by the packer.
    pub open spec fn area_spec(self) -> int {
        self.width * self.height
    }

    /// A well-formed image: RGBA8 rows of `width` pixels, and a pixel count
    /// that fits the `u32` area key.
    pub open spec fn wf(self) -> bool {
        &&& self.data@.len() == self.width * self.height * 4
        &&& self.width * self.height <= u32::MAX
    }

    pub fn area(&self) -> (r: u32)
        requires
            self.width * self.height <= u32::MAX,
        ensures
            r == self.area_spec(),
    {
        self.width * self.height
    }
}

/// True when some already placed rectangle contains a corner of `pos`.
pub open spec fn collides(records: Seq<Rect>, pos: Rect) -> bool {
    exists|i: int| 0 <= i < records.len() && (#[trigger] records[i]).contains_spec(pos)
}

/// A slot the scan accepts: collision-free, and within the scan bound.
/// The bound compares `x + height` against the canvas width, exactly as the
/// scan does; the quirk is kept deliberately, since placements would shift
/// if it were changed to `x + width`.
pub open spec fn slot_free(records: Seq<Rect>, canvas_width: u32, pos: Rect) -> bool {
    &&& !collides(records, pos)
    &&& pos.x + pos.height <= canvas_width
}

/// Position of a candidate in the scan order: row by row, left to right.
pub open spec fn slot_rank(canvas_width: u32, pos: Rect) -> int {
    pos.y * canvas_width + pos.x
}

/// Maximum of `y + height` over the placements; 0 when there are none.
pub open spec fn max_yh(records: Seq<Rect>) -> int
    decreases records.len(),
{
    if records.len() == 0 {
        0
    } else {
        let rest = max_yh(records.drop_last());
        let last = records.last().y + records.last().height;
        if last > rest {
            last
        } else {
            rest
        }
    }
}

pub proof fn lemma_max_yh_ge(records: Seq<Rect>, i: int)
    requires
        0 <= i < records.len(),
    ensures
        records[i].y + records[i].height <= max_yh(records),
    decreases records.len(),
{
    if i < records.len() - 1 {
        lemma_max_yh_ge(records.drop_last(), i);
    }
}

pub proof fn lemma_max_yh_nonneg(records: Seq<Rect>)
    ensures
        max_yh(records) >= 0,
    decreases records.len(),
{
    if records.len() > 0 {
        lemma_max_yh_nonneg(records.drop_last());
    }
}

pub proof fn lemma_max_yh_le(records: Seq<Rect>, b: int)
    requires
        b >= 0,
        forall|i: int|
            0 <= i < records.len() ==> (#[trigger] records[i]).y + records[i].height <= b,
    ensures
        max_yh(records) <= b,
    decreases records.len(),
{
    if records.len() > 0 {
        lemma_max_yh_le(records.drop_last(), b);
    }
}

/// A candidate in the first scan row above every placement is always free.
proof fn lemma_above_all_is_free(records: Seq<Rect>, canvas_width: u32, pos: Rect)
    requires
        pos.y > max_yh(records),
        pos.x + pos.height <= canvas_width,
    ensures
        slot_free(records, canvas_width, pos),
{
    assert forall|i: int| 0 <= i < records.len() implies !(#[trigger] records[i]).contains_spec(
        pos,
    ) by {
        lemma_max_yh_ge(records, i);
    }
}

/// Two candidates of one rank in one scan row are the same position.
proof fn lemma_rank_inj(canvas_width: u32, p: Rect, q: Rect)
    requires
        p.x < canvas_width,
        q.x < canvas_width,
        slot_rank(canvas_width, p) == slot_rank(canvas_width, q),
    ensures
        p.x == q.x && p.y == q.y,
{
    assert(p.x == q.x && p.y == q.y) by (nonlinear_arith)
        requires
            p.x < canvas_width,
            q.x < canvas_width,
            p.y * canvas_width + p.x == q.y * canvas_width + q.x,
    ;
}

/// Insert an image into a sequence ordered by descending area, after every
/// image of equal or larger area, so that equal areas keep their input order.
pub open spec fn sort_desc_insert(img: Image, s: Seq<Image>) -> Seq<Image>
    decreases s.len(),
{
    if s.len() == 0 {
        seq![img]
    } else if img.area_spec() > s[0].area_spec() {
        seq![img] + s
    } else {
        seq![s[0]] + sort_desc_insert(img, s.drop_first())
    }
}

/// Stable sort by descending pixel area: ties keep their input order.
pub open spec fn sort_desc(s: Seq<Image>) -> Seq<Image>
    decreases s.len(),
{
    if s.len() == 0 {
        Seq::empty()
    } else {
        sort_desc_insert(s.last(), sort_desc(s.drop_last()))
    }
}

proof fn lemma_sort_desc_insert_at(img: Image, s: Seq<Image>, j: int)
    requires
        0 <= j <= s.len(),
        forall|k: int| 0 <= k < j ==> img.area_spec() <= (#[trigger] s[k]).area_spec(),
        j < s.len() ==> img.area_spec() > s[j].area_spec(),
    ensures
        sort_desc_insert(img, s) == s.insert(j, img),
    decreases j,
{
    if j == 0 {
        assert(sort_desc_insert(img, s) =~= s.insert(0, img));
    } else {
        let t = s.drop_first();
        assert(forall|k: int| 0 <= k < j - 1 ==> img.area_spec() <= (#[trigger] t[k]).area_spec())
            by {
            assert(forall|k: int| 0 <= k < j - 1 ==> t[k] == s[k + 1]);
        }
        lemma_sort_desc_insert_at(img, t, j - 1);
        assert(seq![s[0]] + t.insert(j - 1, img) =~= s.insert(j, img));
    }
}

/// The images stand in weakly descending area order.
pub open spec fn sorted_by_area_desc(s: Seq<Image>) -> bool {
    forall|i: int, j: int|
        0 <= i < j < s.len() ==> (#[trigger] s[i]).area_spec() >= (#[trigger] s[j]).area_spec()
}

proof fn lemma_sort_desc_insert_sorted(img: Image, s: Seq<Image>)
    requires
        sorted_by_area_desc(s),
    ensures
        sorted_by_area_desc(sort_desc_insert(img, s)),
        forall|k: int|
            0 <= k < sort_desc_insert(img, s).len() ==> ((#[trigger] sort_desc_insert(
                img,
                s,
            )[k]).area_spec() <= img.area_spec() || (s.len() > 0 && sort_desc_insert(
                img,
                s,
            )[k].area_spec() <= s[0].area_spec())),
    decreases s.len(),
{
    let res = sort_desc_insert(img, s);
    if s.len() == 0 {
        assert(res =~= seq![img]);
    } else if img.area_spec() > s[0].area_spec() {
        assert(res == seq![img] + s);
        assert forall|i: int, j: int| 0 <= i < j < res.len() implies (
        #[trigger] res[i]).area_spec() >= (#[trigger] res[j]).area_spec() by {
            assert(res[j] == s[j - 1]);
            if i > 0 {
                assert(res[i] == s[i - 1]);
            } else if j - 1 > 0 {
                assert(s[0].area_spec() >= s[j - 1].area_spec());
            }
        }
        assert forall|k: int| 0 <= k < res.len() implies ((#[trigger] res[k]).area_spec()
            <= img.area_spec() || (s.len() > 0 && res[k].area_spec() <= s[0].area_spec())) by {
            if k > 0 {
                assert(res[k] == s[k - 1]);
                if k - 1 > 0 {
                    assert(s[0].area_spec() >= s[k - 1].area_spec());
                }
            }
        }
    } else {
        let rest = s.drop_first();
        assert forall|i: int, j: int| 0 <= i < j < rest.len() implies (
        #[trigger] rest[i]).area_spec() >= (#[trigger] rest[j]).area_spec() by {
            assert(rest[i] == s[i + 1] && rest[j] == s[j + 1]);
        }
        lemma_sort_desc_insert_sorted(img, rest);
        let sub = sort_desc_insert(img, rest);
        assert(res == seq![s[0]] + sub);
        assert forall|k: int| 0 <= k < sub.len() implies (#[trigger] sub[k]).area_spec()
            <= s[0].area_spec() by {
            if rest.len() > 0 {
                assert(rest[0] == s[1]);
                assert(s[0].area_spec() >= s[1].area_spec());
            }
        }
        assert forall|i: int, j: int| 0 <= i < j < res.len() implies (
        #[trigger] res[i]).area_spec() >= (#[trigger] res[j]).area_spec() by {
            assert(res[j] == sub[j - 1]);
            if i > 0 {
                assert(res[i] == sub[i - 1]);
            }
        }
        assert forall|k: int| 0 <= k < res.len() implies ((#[trigger] res[k]).area_spec()
            <= img.area_spec() || (s.len() > 0 && res[k].area_spec() <= s[0].area_spec())) by {
            if k > 0 {
                assert(res[k] == sub[k - 1]);
            }
        }
    }
}

proof fn lemma_sort_desc_insert_multiset(img: Image, s: Seq<Image>)
    ensures
        sort_desc_insert(img, s).to_multiset() == s.to_multiset().insert(img),
    decreases s.len(),
{
    broadcast use vstd::seq_lib::group_to_multiset_ensures;
    broadcast use vstd::multiset::group_multiset_axioms;

    if s.len() == 0 {
        assert(sort_desc_insert(img, s) =~= Seq::<Image>::empty().push(img));
        assert(s.to_multiset() =~= Seq::<Image>::empty().to_multiset());
        assert(sort_desc_insert(img, s).to_multiset() =~= s.to_multiset().insert(img));
    } else if img.area_spec() > s[0].area_spec() {
        vstd::seq_lib::lemma_multiset_commutative(seq![img], s);
        assert(seq![img] =~= Seq::<Image>::empty().push(img));
        assert(sort_desc_insert(img, s).to_multiset() =~= s.to_multiset().insert(img));
    } else {
        let rest = s.drop_first();
        lemma_sort_desc_insert_multiset(img, rest);
        vstd::seq_lib::lemma_multiset_commutative(seq![s[0]], sort_desc_insert(img, rest));
        vstd::seq_lib::lemma_multiset_commutative(seq![s[0]], rest);
        assert(seq![s[0]] =~= Seq::<Image>::empty().push(s[0]));
        assert(s =~= seq![s[0]] + rest);
        assert(sort_desc_insert(img, s).to_multiset() =~= s.to_multiset().insert(img));
    }
}

/// Permutation law: the packer's processing sequence holds exactly the
/// input images, reordered and none lost or invented.
pub proof fn lemma_sort_desc_multiset(s: Seq<Image>)
    ensures
        sort_desc(s).to_multiset() == s.to_multiset(),
    decreases s.len(),
{
    broadcast use vstd::seq_lib::group_to_multiset_ensures;
    broadcast use vstd::multiset::group_multiset_axioms;

    if s.len() > 0 {
        lemma_sort_desc_multiset(s.drop_last());
        lemma_sort_desc_insert_multiset(s.last(), sort_desc(s.drop_last()));
        assert(s =~= s.drop_last().push(s.last()));
        assert(sort_desc(s).to_multiset() =~= s.to_multiset());
    }
}

/// Order law: the packer's processing sequence stands in weakly descending
/// pixel-area order; equal areas keep their input order by construction of
/// `sort_desc_insert`, which walks past every image of equal or larger area.
pub proof fn lemma_sort_desc_sorted(s: Seq<Image>)
    ensures
        sorted_by_area_desc(sort_desc(s)),
    decreases s.len(),
{
    if s.len() > 0 {
        lemma_sort_desc_sorted(s.drop_last());
        lemma_sort_desc_insert_sorted(s.last(), sort_desc(s.drop_last()));
    }
}

/// The placement at index `i` is the first free slot of the scan for the
/// matching image, relative to the placements made before it.
pub open spec fn placed_minimal(records: Seq<Rect>, imgs: Seq<Image>, w: u32, i: int) -> bool
    recommends
        0 <= i < records.len(),
        i < imgs.len(),
{
    let rect = records[i];
    &&& rect.width == imgs[i].width
    &&& rect.height == imgs[i].height
    &&& rect.x < w
    &&& rect.y + rect.height <= u32::MAX
    &&& slot_free(records.take(i), w, rect)
    &&& forall|p: Rect|
        p.width == rect.width && p.height == rect.height && p.x < w && slot_rank(w, p) < slot_rank(
            w,
            rect,
        ) ==> !(#[trigger] slot_free(records.take(i), w, p))
}

/// The packing state: placements, source images, and the canvas width
/// (the maximum width among the images, fixed before packing starts).
pub struct Atlas {
    pub records: Vec<Rect>,
    pub images: Vec<Image>,
    pub width: u32,
}

impl Atlas {
    /// Every image is well formed and no wider than the canvas.
    pub open spec fn images_wf(self) -> bool {
        forall|i: int|
            0 <= i < self.images@.len() ==> ((#[trigger] self.images@[i]).wf()
                && self.images@[i].width <= self.width)
    }

    pub fn new() -> (a: Atlas)
        ensures
            a.records@.len() == 0,
            a.images@.len() == 0,
            a.width == 0,
    {
        Atlas { records: Vec::new(), images: Vec::new(), width: 0 }
    }

    /// Decode one PNG byte stream and append it to the input set, widening
    /// the canvas to the image's width where needed. Rejects streams that
    /// are not 8-bit RGBA and images whose pixel count overflows the `u32`
    /// area key.
    pub fn add_image(&mut self, name: String, bytes: &Vec<u8>) -> (r: Result<(), AtlasError>)
        ensures
            r is Err <==> (crate::codec::png_decoded(bytes@) is None || (
            crate::codec::png_decoded(bytes@) matches Some(t) && t.0 * t.1 > u32::MAX)),
            r is Err ==> *final(self) == *old(self),
            r matches Err(e) ==> e is Decode,
            r is Ok ==> (crate::codec::png_decoded(bytes@) matches Some(t) && {
                let img = final(self).images@.last();
                &&& final(self).images@ == old(self).images@.push(img)
                &&& img.name == name
                &&& img.width == t.0
                &&& img.height == t.1
                &&& img.data@ == t.2
                &&& final(self).width == (if old(self).width < t.0 {
                    t.0
                } else {
                    old(self).width
                })
            }),
            final(self).records@ == old(self).records@,
            old(self).images_wf() ==> final(self).images_wf(),
    {
        let (w, h, data) = match crate::codec::decode_rgba8(bytes) {
            Ok(t) => t,
            Err(e) => return Err(e),
        };
        proof {
            assert((w as int) * (h as int) <= 0xffff_ffff * 0xffff_ffff) by (nonlinear_arith)
                requires
                    w as int <= 0xffff_ffff,
                    h as int <= 0xffff_ffff,
            ;
        }
        if w as u64 * h as u64 > u32::MAX as u64 {
            return Err(AtlasError::Decode);
        }
        let ghost pre = self.images@;
        self.images.push(Image { name, width: w, height: h, data });
        if self.width < w {
            self.width = w;
        }
        proof {
            assert forall|i: int|
                0 <= i < self.images@.len() && old(self).images_wf() implies ((
            #[trigger] self.images@[i]).wf() && self.images@[i].width <= self.width) by {
                if i < pre.len() {
                    assert(self.images@[i] == pre[i]);
                }
            }
        }
        Ok(())
    }

    fn collides_any(&self, pos: &Rect) -> (r: bool)
        ensures
            r == collides(self.records@, *pos),
    {
        let n = self.records.len();
        let mut i: usize = 0;
        while i < n
            invariant
                n == self.records@.len(),
                i <= n,
                forall|j: int| 0 <= j < i ==> !(#[trigger] self.records@[j]).contains_spec(*pos),
            decreases n - i,
        {
            if self.records[i].contains(pos) {
                return true;
            }
            i += 1;
        }
        false
    }

    fn max_y_extent(&self) -> (r: u64)
        ensures
            r == max_yh(self.records@),
    {
        let n = self.records.len();
        let mut m: u64 = 0;
        let mut i: usize = 0;
        proof {
            assert(self.records@.take(0) =~= Seq::<Rect>::empty());
        }
        while i < n
            invariant
                n == self.records@.len(),
                i <= n,
                m == max_yh(self.records@.take(i as int)),
            decreases n - i,
        {
            let rec = self.records[i];
            let e = rec.y as u64 + rec.height as u64;
            proof {
                assert(self.records@.take(i + 1).drop_last() =~= self.records@.take(i as int));
                assert(self.records@.take(i + 1).last() == self.records@[i as int]);
                lemma_max_yh_nonneg(self.records@.take(i as int));
            }
            if e > m {
                m = e;
            }
            i += 1;
        }
        proof {
            assert(self.records@.take(n as int) =~= self.records@);
        }
        m
    }

    /// The next-fit linear scan: starting at the top left corner, walk the
    /// canvas row by row and return the first candidate that no placed
    /// rectangle corner-collides with and that passes the scan bound.
    ///
    /// Fails exactly when no candidate can ever pass (a zero-width canvas or
    /// an image taller than the canvas is wide), or when the accepted row
    /// would push `y + height` past `u32::MAX`.
    pub fn next_slot(&self, width: u32, height: u32) -> (r: Result<Rect, AtlasError>)
        ensures
            r matches Ok(rect) ==> rect.width == width && rect.height == height,
            r matches Ok(rect) ==> rect.x < self.width,
            r matches Ok(rect) ==> rect.y + rect.height <= u32::MAX,
            r matches Ok(rect) ==> slot_free(self.records@, self.width, rect),
            r matches Ok(rect) ==> forall|p: Rect|
                p.width == width && p.height == height && p.x < self.width && slot_rank(
                    self.width,
                    p,
                ) < slot_rank(self.width, rect) ==> !(#[trigger] slot_free(
                    self.records@,
                    self.width,
                    p,
                )),
            r is Err <==> (self.width == 0 || height > self.width || max_yh(self.records@) + 1
                + height > u32::MAX),
            r matches Err(e) ==> e is Pack,
    {
        let w = self.width;
        if w == 0 || height > w {
            proof {
                lemma_max_yh_nonneg(self.records@);
            }
            return Err(AtlasError::Pack(String::new()));
        }
        let maxyh: u64 = self.max_y_extent();
        proof {
            lemma_max_yh_le(self.records@, 2 * (u32::MAX as int));
            lemma_max_yh_nonneg(self.records@);
        }
        if maxyh + 1 + (height as u64) > u32::MAX as u64 {
            return Err(AtlasError::Pack(String::new()));
        }
        let mut x: u32 = 0;
        let mut y: u32 = 0;
        loop
            invariant
                w == self.width,
                1 <= w,
                height <= w,
                x < w,
                y <= maxyh + 1,
                y == maxyh + 1 ==> x == 0,
                maxyh == max_yh(self.records@),
                maxyh + 1 + height <= u32::MAX,
                forall|p: Rect|
                    p.width == width && p.height == height && p.x < w && slot_rank(w, p) < y * w
                        + x ==> !(#[trigger] slot_free(self.records@, w, p)),
            decreases (maxyh + 1) * w - (y * w + x),
        {
            let pos = Rect { x, y, width, height };
            let free = !self.collides_any(&pos) && (x as u64 + height as u64 <= w as u64);
            if free {
                return Ok(pos);
            }
            proof {
                // The first candidate of the row above every placement is
                // free, so the scan never walks past it.
                if y == maxyh + 1 {
                    lemma_above_all_is_free(self.records@, w, pos);
                    assert(false);
                }
                // Extend the minimality invariant past the rejected rank.
                assert forall|p: Rect|
                    p.width == width && p.height == height && p.x < w && slot_rank(w, p) < y * w + x
                        + 1 implies !(#[trigger] slot_free(self.records@, w, p)) by {
                    if slot_rank(w, p) == y * w + x {
                        lemma_rank_inj(w, p, pos);
                        assert(p == pos);
                    }
                }
            }
            if x == w - 1 {
                proof {
                    assert((y + 1) * w == y * w + x + 1) by (nonlinear_arith)
                        requires
                            x == w - 1,
                            1 <= w,
                    ;
                    assert((y + 1) * w <= (maxyh + 1) * w) by (nonlinear_arith)
                        requires
                            y + 1 <= maxyh + 1,
                            1 <= w,
                    ;
                }
                x = 0;
                y = y + 1;
            } else {
                proof {
                    assert(y * w + x + 1 <= (maxyh + 1) * w) by (nonlinear_arith)
                        requires
                            y <= maxyh,
                            x < w,
                            1 <= w,
                    ;
                }
                x = x + 1;
            }
        }
    }

    /// Sort the images by descending area (stable) and place each in turn at
    /// the first free slot of the scan. On failure the offending image's
    /// name is reported and the placements stop at the partial prefix.
    pub fn pack(&mut self) -> (r: Result<(), AtlasError>)
        requires
            old(self).records@.len() == 0,
            old(self).images_wf(),
        ensures
            final(self).width == old(self).width,
            final(self).images@ == sort_desc(old(self).images@),
            final(self).images_wf(),
            r is Ok ==> final(self).records@.len() == final(self).images@.len(),
            r is Err ==> final(self).records@.len() < final(self).images@.len(),
            forall|i: int|
                0 <= i < final(self).records@.len() ==> placed_minimal(
                    final(self).records@,
                    final(self).images@,
                    final(self).width,
                    i,
                ),
            r is Err ==> (final(self).width == 0
                || final(self).images@[final(self).records@.len() as int].height > final(self).width
                || max_yh(final(self).records@) + 1
                    + final(self).images@[final(self).records@.len() as int].height > u32::MAX),
            r matches Err(e) ==> e == AtlasError::Pack(
                final(self).images@[final(self).records@.len() as int].name,
            ),
    {
        let ghost orig = self.images@;
        let mut sorted: Vec<Image> = Vec::new();
        proof {
            assert(orig.take(0) =~= Seq::<Image>::empty());
        }
        while self.images.len() > 0
            invariant
                orig == old(self).images@,
                self.width == old(self).width,
                self.records@ == old(self).records@,
                self.images@.len() <= orig.len(),
                sorted@ == sort_desc(orig.take(orig.len() - self.images@.len())),
                self.images@ == orig.skip(orig.len() - self.images@.len()),
                forall|i: int|
                    0 <= i < sorted@.len() ==> ((#[trigger] sorted@[i]).wf() && sorted@[i].width
                        <= self.width),
                forall|i: int|
                    0 <= i < orig.len() ==> ((#[trigger] orig[i]).wf() && orig[i].width
                        <= self.width),
            decreases self.images@.len(),
        {
            let ghost d = orig.len() - self.images@.len();
            let img = self.images.remove(0);
            proof {
                assert(img == orig[d]);
                assert(self.images@ =~= orig.skip(d + 1));
            }
            let a = img.area();
            let mut j: usize = 0;
            while j < sorted.len() && sorted[j].area() >= a
                invariant
                    j <= sorted@.len(),
                    a == img.area_spec(),
                    forall|k: int|
                        0 <= k < j ==> img.area_spec() <= (#[trigger] sorted@[k]).area_spec(),
                    forall|i: int|
                        0 <= i < sorted@.len() ==> ((#[trigger] sorted@[i]).wf() && sorted@[i].width
                            <= self.width),
                decreases sorted@.len() - j,
            {
                j += 1;
            }
            let ghost pre = sorted@;
            sorted.insert(j, img);
            proof {
                lemma_sort_desc_insert_at(img, pre, j as int);
                assert(orig.take(d + 1).drop_last() =~= orig.take(d));
                assert(orig.take(d + 1).last() == orig[d]);
                assert(sorted@ == sort_desc(orig.take(d + 1)));
            }
        }
        proof {
            assert(orig.take(orig.len() - self.images@.len()) =~= orig);
        }
        self.images = sorted;
        let n = self.images.len();
        let mut i: usize = 0;
        while i < n
            invariant
                orig == old(self).images@,
                n == self.images@.len(),
                i <= n,
                self.width == old(self).width,
                self.images@ == sort_desc(orig),
                self.records@.len() == i,
                forall|k: int|
                    0 <= k < self.images@.len() ==> ((#[trigger] self.images@[k]).wf()
                        && self.images@[k].width <= self.width),
                forall|k: int|
                    0 <= k < i ==> placed_minimal(self.records@, self.images@, self.width, k),
            decreases n - i,
        {
            let iw = self.images[i].width;
            let ih = self.images[i].height;
            let ghost pre_records = self.records@;
            match self.next_slot(iw, ih) {
                Ok(slot) => {
                    self.records.push(slot);
                    proof {
                        assert forall|k: int| 0 <= k < i + 1 implies placed_minimal(
                            self.records@,
                            self.images@,
                            self.width,
                            k,
                        ) by {
                            assert(self.records@.take(k) =~= pre_records.take(k));
                            if k < i {
                                assert(placed_minimal(pre_records, self.images@, self.width, k));
                                assert(self.records@[k] == pre_records[k]);
                            } else {
                                assert(self.records@.take(k) =~= pre_records);
                                assert(self.records@[k] == slot);
                            }
                        }
                    }
                },
                Err(_) => {
                    let nm = self.images[i].name.clone();
                    return Err(AtlasError::Pack(nm));
                },
            }
            i += 1;
        }
        Ok(())
    }

    /// Canvas height after packing: the maximum of `y + height` over the
    /// placements, which is meaningful only once at least one placement
    /// exists.
    pub fn height(&self) -> (r: u32)
        requires
            self.records@.len() > 0,
            forall|i: int|
                0 <= i < self.records@.len() ==> (#[trigger] self.records@[i]).y
                    + self.records@[i].height <= u32::MAX,
        ensures
            r == max_yh(self.records@),
    {
        proof {
            lemma_max_yh_le(self.records@, u32::MAX as int);
            lemma_max_yh_nonneg(self.records@);
        }
        let m = self.max_y_extent();
        m as u32
    }

    /// Each placement's rectangle has its image's dimensions.
    pub open spec fn placements_match(self) -> bool {
        &&& self.records@.len() == self.images@.len()
        &&& forall|i: int|
            0 <= i < self.records@.len() ==> (#[trigger] self.records@[i]).width
                == self.images@[i].width && self.records@[i].height == self.images@[i].height
    }

    /// Every placement's pixel region lies on the canvas.
    pub open spec fn placements_within(self, height: u32) -> bool {
        forall|i: int|
            0 <= i < self.records@.len() ==> (#[trigger] self.records@[i]).x
                + self.records@[i].width <= self.width && self.records@[i].y
                + self.records@[i].height <= height
    }

    /// No two placements' pixel regions share a canvas pixel.
    pub open spec fn placements_disjoint(self) -> bool {
        forall|i: int, j: int|
            0 <= i < j < self.records@.len() ==> disjoint_rects(
                #[trigger] self.records@[i],
                #[trigger] self.records@[j],
            )
    }

    pub open spec fn is_covered(self, px: int, py: int) -> bool {
        exists|i: int| 0 <= i < self.records@.len() && covers(#[trigger] self.records@[i], px, py)
    }

    pub open spec fn cover_of(self, px: int, py: int) -> int {
        choose|i: int| 0 <= i < self.records@.len() && covers(#[trigger] self.records@[i], px, py)
    }

    /// The source byte that placement `i` puts at channel `pix` of canvas
    /// pixel (px, py).
    pub open spec fn pixel_at(self, i: int, px: int, py: int, pix: int) -> u8 {
        let rect = self.records@[i];
        let img = self.images@[i];
        img.data@[((py - rect.y) * img.width + (px - rect.x)) * 4 + pix]
    }

    /// The composited value of channel `pix` of canvas pixel (px, py):
    /// the covering image's byte, or zero (transparent black).
    pub open spec fn pixel_spec(self, px: int, py: int, pix: int) -> u8 {
        if self.is_covered(px, py) {
            self.pixel_at(self.cover_of(px, py), px, py, pix)
        } else {
            0u8
        }
    }

    /// The composited byte at flat buffer index `k`, read as channel
    /// `k % 4` of canvas pixel ((k/4) mod width, (k/4) div width).
    pub open spec fn pixel_flat(self, k: int) -> u8 {
        self.pixel_spec((k / 4) % (self.width as int), (k / 4) / (self.width as int), k % 4)
    }

    /// The whole composited canvas buffer as one mathematical value.
    pub open spec fn composited(self, height: u32) -> Seq<u8> {
        Seq::new((self.width * height * 4) as nat, |k: int| self.pixel_flat(k))
    }

    proof fn lemma_cover_unique(self, i: int, j: int, px: int, py: int)
        requires
            self.placements_disjoint(),
            0 <= i < self.records@.len(),
            0 <= j < self.records@.len(),
            covers(self.records@[i], px, py),
            covers(self.records@[j], px, py),
        ensures
            i == j,
    {
        if i < j {
            assert(disjoint_rects(self.records@[i], self.records@[j]));
        } else if j < i {
            assert(disjoint_rects(self.records@[j], self.records@[i]));
        }
    }

    fn find_cover(&self, px: u32, py: u32) -> (r: Option<usize>)
        ensures
            r matches Some(i) ==> i < self.records@.len() && covers(
                self.records@[i as int],
                px as int,
                py as int,
            ),
            r is None ==> !self.is_covered(px as int, py as int),
    {
        let n = self.records.len();
        let mut i: usize = 0;
        while i < n
            invariant
                n == self.records@.len(),
                i <= n,
                forall|j: int|
                    0 <= j < i ==> !covers(#[trigger] self.records@[j], px as int, py as int),
            decreases n - i,
        {
            let rect = self.records[i];
            if rect.x <= px && (px as u64) < rect.x as u64 + rect.width as u64 && rect.y <= py
                && (py as u64) < rect.y as u64 + rect.height as u64 {
                return Some(i);
            }
            i += 1;
        }
        None
    }

    fn check_within(&self, height: u32) -> (r: bool)
        ensures
            r == self.placements_within(height),
    {
        let n = self.records.len();
        let mut i: usize = 0;
        while i < n
            invariant
                n == self.records@.len(),
                i <= n,
                forall|j: int|
                    0 <= j < i ==> (#[trigger] self.records@[j]).x + self.records@[j].width
                        <= self.width && self.records@[j].y + self.records@[j].height <= height,
            decreases n - i,
        {
            let rect = self.records[i];
            if rect.x as u64 + rect.width as u64 > self.width as u64 || rect.y as u64
                + rect.height as u64 > height as u64 {
                return false;
            }
            i += 1;
        }
        true
    }

    fn check_disjoint(&self) -> (r: bool)
        ensures
            r == self.placements_disjoint(),
    {
        let n = self.records.len();
        let mut i: usize = 0;
        while i < n
            invariant
                n == self.records@.len(),
                i <= n,
                forall|a: int, b: int|
                    0 <= a < b < n && a < i ==> disjoint_rects(
                        #[trigger] self.records@[a],
                        #[trigger] self.records@[b],
                    ),
            decreases n - i,
        {
            let ra = self.records[i];
            let mut j: usize = i + 1;
            while j < n
                invariant
                    n == self.records@.len(),
                    i < j <= n,
                    ra == self.records@[i as int],
                    forall|b: int|
                        i < b < j ==> disjoint_rects(
                            self.records@[i as int],
                            #[trigger] self.records@[b],
                        ),
                decreases n - j,
            {
                let rb = self.records[j];
                let ok = ra.x as u64 + ra.width as u64 <= rb.x as u64 || rb.x as u64
                    + rb.width as u64 <= ra.x as u64 || ra.y as u64 + ra.height as u64
                    <= rb.y as u64 || rb.y as u64 + rb.height as u64 <= ra.y as u64;
                if !ok {
                    return false;
                }
                j += 1;
            }
            i += 1;
        }
        true
    }

    /// Composite the source images into one zero-initialized RGBA8 canvas
    /// buffer of `self.width * height * 4` bytes. Every covered canvas
    /// pixel holds the covering image's byte for that channel, every other
    /// byte is zero. A placement set that would write outside the buffer or
    /// on top of itself is a fatal configuration error.
    pub fn composite(&self, height: u32) -> (r: Result<Vec<u8>, AtlasError>)
        requires
            self.images_wf(),
            self.placements_match(),
        ensures
            r is Err <==> !(self.width * height * 4 <= u32::MAX && self.placements_within(height)
                && self.placements_disjoint()),
            r matches Err(e) ==> e is Composite,
            r matches Ok(buf) ==> buf@.len() == self.width * height * 4,
            r matches Ok(buf) ==> forall|px: int, py: int, pix: int|
                0 <= px < self.width && 0 <= py < height && 0 <= pix < 4 ==> buf@[flat_idx(
                    self.width,
                    px,
                    py,
                    pix,
                )] == self.pixel_spec(px, py, pix),
            r matches Ok(buf) ==> buf@ == self.composited(height),
    {
        let w = self.width;
        proof {
            assert((w as int) * (height as int) <= 0xffff_ffff * 0xffff_ffff) by (nonlinear_arith)
                requires
                    w as int <= 0xffff_ffff,
                    height as int <= 0xffff_ffff,
            ;
        }
        let prod = (w as u64) * (height as u64);
        if prod > (u32::MAX / 4) as u64 {
            proof {
                assert(!((w as int) * (height as int) * 4 <= u32::MAX));
            }
            return Err(AtlasError::Composite);
        }
        if !self.check_within(height) {
            return Err(AtlasError::Composite);
        }
        if !self.check_disjoint() {
            return Err(AtlasError::Composite);
        }
        let mut buf: Vec<u8> = Vec::new();
        let mut py: u32 = 0;
        while py < height
            invariant
                w == self.width,
                self.images_wf(),
                self.placements_match(),
                self.placements_disjoint(),
                self.placements_within(height),
                (w as int) * (height as int) * 4 <= u32::MAX,
                py <= height,
                buf@.len() == (py as int) * w * 4,
                forall|px2: int, py2: int, pix2: int|
                    0 <= px2 < w && 0 <= py2 < height && 0 <= pix2 < 4 && flat_idx(
                        w,
                        px2,
                        py2,
                        pix2,
                    ) < buf@.len() ==> buf@[flat_idx(w, px2, py2, pix2)] == self.pixel_spec(
                        px2,
                        py2,
                        pix2,
                    ),
            decreases height - py,
        {
            let mut px: u32 = 0;
            while px < w
                invariant
                    w == self.width,
                    self.images_wf(),
                    self.placements_match(),
                    self.placements_disjoint(),
                    self.placements_within(height),
                    (w as int) * (height as int) * 4 <= u32::MAX,
                    py < height,
                    px <= w,
                    buf@.len() == (py as int) * w * 4 + (px as int) * 4,
                    forall|px2: int, py2: int, pix2: int|
                        0 <= px2 < w && 0 <= py2 < height && 0 <= pix2 < 4 && flat_idx(
                            w,
                            px2,
                            py2,
                            pix2,
                        ) < buf@.len() ==> buf@[flat_idx(w, px2, py2, pix2)] == self.pixel_spec(
                            px2,
                            py2,
                            pix2,
                        ),
                decreases w - px,
            {
                let cov = self.find_cover(px, py);
                let mut pix: usize = 0;
                while pix < 4
                    invariant
                        w == self.width,
                        self.images_wf(),
                        self.placements_match(),
                        self.placements_disjoint(),
                        self.placements_within(height),
                        (w as int) * (height as int) * 4 <= u32::MAX,
                        py < height,
                        px < w,
                        pix <= 4,
                        cov matches Some(i) ==> i < self.records@.len() && covers(
                            self.records@[i as int],
                            px as int,
                            py as int,
                        ),
                        cov is None ==> !self.is_covered(px as int, py as int),
                        buf@.len() == (py as int) * w * 4 + (px as int) * 4 + pix,
                        forall|px2: int, py2: int, pix2: int|
                            0 <= px2 < w && 0 <= py2 < height && 0 <= pix2 < 4 && flat_idx(
                                w,
                                px2,
                                py2,
                                pix2,
                            ) < buf@.len() ==> buf@[flat_idx(w, px2, py2, pix2)] == self.pixel_spec(
                                px2,
                                py2,
                                pix2,
                            ),
                    decreases 4 - pix,
                {
                    let v: u8 = match cov {
                        Some(i) => {
                            let rect = self.records[i];
                            let img = &self.images[i];
                            let dlen = img.data.len();
                            let dx = px - rect.x;
                            let dy = py - rect.y;
                            proof {
                                lemma_src_bound(img.width, img.height, dx as int, dy as int,
                                    pix as int);
                            }
                            let idx = (dy as usize * img.width as usize + dx as usize) * 4 + pix;
                            img.data[idx]
                        },
                        None => 0u8,
                    };
                    proof {
                        if cov is Some {
                            let i = cov->0 as int;
                            let c = self.cover_of(px as int, py as int);
                            assert(self.is_covered(px as int, py as int));
                            self.lemma_cover_unique(i, c, px as int, py as int);
                            assert(v == self.pixel_spec(px as int, py as int, pix as int));
                        } else {
                            assert(v == self.pixel_spec(px as int, py as int, pix as int));
                        }
                    }
                    let ghost pre = buf@;
                    buf.push(v);
                    proof {
                        assert(buf@.len() == pre.len() + 1);
                        assert forall|px2: int, py2: int, pix2: int|
                            0 <= px2 < w && 0 <= py2 < height && 0 <= pix2 < 4 && flat_idx(
                                w,
                                px2,
                                py2,
                                pix2,
                            ) < buf@.len() implies buf@[flat_idx(w, px2, py2, pix2)]
                            == self.pixel_spec(px2, py2, pix2) by {
                            if flat_idx(w, px2, py2, pix2) < pre.len() {
                                assert(buf@[flat_idx(w, px2, py2, pix2)] == pre[flat_idx(
                                    w,
                                    px2,
                                    py2,
                                    pix2,
                                )]);
                            } else {
                                assert(flat_idx(w, px2, py2, pix2) == pre.len());
                                assert(pre.len() == flat_idx(w, px as int, py as int, pix as int))
                                    by (nonlinear_arith)
                                    requires
                                        pre.len() == (py as int) * w * 4 + (px as int) * 4 + pix,
                                ;
                                lemma_flat_inj(w, px2, py2, pix2, px as int, py as int, pix as int);
                            }
                        }
                    }
                    pix += 1;
                }
                proof {
                    assert((py as int) * w * 4 + (px as int) * 4 + 4 == (py as int) * w * 4 + ((
                    px as int) + 1) * 4) by (nonlinear_arith);
                }
                px += 1;
            }
            proof {
                assert((py as int) * w * 4 + (w as int) * 4 == ((py as int) + 1) * w * 4)
                    by (nonlinear_arith);
            }
            py += 1;
        }
        proof {
            assert((height as int) * w * 4 == (w as int) * (height as int) * 4)
                by (nonlinear_arith);
            assert forall|px2: int, py2: int, pix2: int|
                0 <= px2 < w && 0 <= py2 < height && 0 <= pix2 < 4 implies flat_idx(
                w,
                px2,
                py2,
                pix2,
            ) < buf@.len() by {
                assert((py2 * w + px2) * 4 + pix2 < (height as int) * w * 4) by (nonlinear_arith)
                    requires
                        0 <= px2 < w,
                        0 <= py2 < height,
                        0 <= pix2 < 4,
                ;
            }
            assert forall|k: int| 0 <= k < buf@.len() implies buf@[k] == self.pixel_flat(k) by {
                lemma_flat_decompose(w, height, k);
                let px2 = (k / 4) % (w as int);
                let py2 = (k / 4) / (w as int);
                let pix2 = k % 4;
                assert(buf@[flat_idx(w, px2, py2, pix2)] == self.pixel_spec(px2, py2, pix2));
            }
            assert(buf@ =~= self.composited(height));
        }
        Ok(buf)
    }

    /// Every placement's bottom edge fits the `u32` coordinate space.
    pub open spec fn records_fit(self) -> bool {
        forall|i: int|
            0 <= i < self.records@.len() ==> (#[trigger] self.records@[i]).y
                + self.records@[i].height <= u32::MAX
    }

    /// The archive bytes the pipeline emits for this atlas and record set:
    /// the composited canvas through the png encoder, paired with the
    /// serialized records, in the two-entry container. `None` where either
    /// encoder refuses the data.
    pub open spec fn archive_bytes(self, recs: Seq<crate::records::RecordV>) -> Option<Seq<u8>> {
        let h = max_yh(self.records@) as u32;
        match crate::codec::png_encoded(self.width, h, self.composited(h)) {
            Some(pb) => crate::codec::zip_archive(
                "atlas.png"@,
                pb,
                "atlas.data"@,
                crate::records::records_bytes(recs),
            ),
            None => None,
        }
    }

    /// Composite the canvas, encode it as a PNG, serialize the records, and
    /// wrap both as the two entries of the output archive, all in memory.
    /// An empty input set yields no archive (an explicit no-op, not an
    /// error); the caller is expected to hand over one record per image.
    /// Success is owed exactly where the placements pass the compositing
    /// checks and the named encoders accept the data.
    pub fn build_archive(&self, recs: &Vec<crate::records::AtlasRecord>) -> (r: Result<
        Option<Vec<u8>>,
        AtlasError,
    >)
        requires
            self.images_wf(),
            self.placements_match(),
            self.records_fit(),
        ensures
            self.images@.len() == 0 ==> (r matches Ok(o) && o is None),
            r matches Ok(o) ==> (o is None ==> self.images@.len() == 0),
            (r matches Err(e) && e is Composite) <==> (self.images@.len() > 0 && !(self.width
                * max_yh(self.records@) * 4 <= u32::MAX && self.placements_within(
                max_yh(self.records@) as u32,
            ) && self.placements_disjoint())),
            r matches Err(e) ==> e is Composite || e is Archive,
            (r matches Err(e) && e is Archive) <==> (self.images@.len() > 0 && self.width * max_yh(
                self.records@,
            ) * 4 <= u32::MAX && self.placements_within(max_yh(self.records@) as u32)
                && self.placements_disjoint() && self.archive_bytes(recs.deep_view()) is None),
            r matches Ok(o) ==> (o matches Some(b) ==> self.archive_bytes(recs.deep_view())
                == Some(b@)),
    {
        if self.images.len() == 0 {
            return Ok(None);
        }
        let h = self.height();
        let buf = match self.composite(h) {
            Ok(b) => b,
            Err(e) => return Err(e),
        };
        let png = match crate::codec::encode_rgba8(self.width, h, &buf) {
            Ok(p) => p,
            Err(e) => {
                proof {
                    assert(max_yh(self.records@) as u32 == h);
                    assert(crate::codec::png_encoded(self.width, h, self.composited(h)) is None);
                    assert(self.archive_bytes(recs.deep_view()) is None);
                }
                return Err(e);
            },
        };
        let data = crate::records::encode_records(recs);
        let archive = match crate::codec::zip_two_entries("atlas.png", &png, "atlas.data", &data) {
            Ok(a) => a,
            Err(e) => {
                proof {
                    assert(max_yh(self.records@) as u32 == h);
                    assert(crate::codec::png_encoded(self.width, h, self.composited(h))
                        == Some(png@));
                    assert(self.archive_bytes(recs.deep_view()) is None);
                }
                return Err(e);
            },
        };
        proof {
            assert(max_yh(self.records@) as u32 == h);
            assert(crate::codec::png_encoded(self.width, h, self.composited(h)) == Some(png@));
            assert(crate::codec::zip_archive(
                "atlas.png"@,
                png@,
                "atlas.data"@,
                crate::records::records_bytes(recs.deep_view()),
            ) == Some(archive@));
            assert(self.archive_bytes(recs.deep_view()) == Some(archive@));
        }
        Ok(Some(archive))
    }
}

/// One placement covers the canvas pixel (px, py): half-open region.
pub open spec fn covers(rect: Rect, px: int, py: int) -> bool {
    &&& rect.x <= px < rect.x + rect.width
    &&& rect.y <= py < rect.y + rect.height
}

/// The pixel regions of two placements share no canvas pixel.
pub open spec fn disjoint_rects(a: Rect, b: Rect) -> bool {
    ||| a.x + a.width <= b.x
    ||| b.x + b.width <= a.x
    ||| a.y + a.height <= b.y
    ||| b.y + b.height <= a.y
}

/// Flat index of channel `pix` of canvas pixel (px, py) in a row-major
/// RGBA8 buffer of row length `w`.
pub open spec fn flat_idx(w: u32, px: int, py: int, pix: int) -> int {
    (py * w + px) * 4 + pix
}

proof fn lemma_flat_inj(w: u32, px1: int, py1: int, pix1: int, px2: int, py2: int, pix2: int)
    requires
        0 <= px1 < w,
        0 <= px2 < w,
        0 <= pix1 < 4,
        0 <= pix2 < 4,
        0 <= py1,
        0 <= py2,
        flat_idx(w, px1, py1, pix1) == flat_idx(w, px2, py2, pix2),
    ensures
        px1 == px2 && py1 == py2 && pix1 == pix2,
{
    assert(px1 == px2 && py1 == py2 && pix1 == pix2) by (nonlinear_arith)
        requires
            0 <= px1 < w,
            0 <= px2 < w,
            0 <= pix1 < 4,
            0 <= pix2 < 4,
            0 <= py1,
            0 <= py2,
            (py1 * w + px1) * 4 + pix1 == (py2 * w + px2) * 4 + pix2,
    ;
}

proof fn lemma_flat_decompose(w: u32, height: u32, k: int)
    requires
        1 <= w,
        0 <= k < w * height * 4,
    ensures
        0 <= k % 4 < 4,
        0 <= (k / 4) % (w as int) < w,
        0 <= (k / 4) / (w as int) < height,
        flat_idx(w, (k / 4) % (w as int), (k / 4) / (w as int), k % 4) == k,
{
    vstd::arithmetic::div_mod::lemma_fundamental_div_mod(k, 4);
    vstd::arithmetic::div_mod::lemma_mod_bound(k, 4);
    vstd::arithmetic::div_mod::lemma_fundamental_div_mod(k / 4, w as int);
    vstd::arithmetic::div_mod::lemma_mod_bound(k / 4, w as int);
    let q = k / 4;
    let pix = k % 4;
    let py = q / (w as int);
    let px = q % (w as int);
    assert(0 <= q && 4 * q <= k) by (nonlinear_arith)
        requires
            k == 4 * q + pix,
            0 <= pix < 4,
            0 <= k,
    ;
    assert(q < w * height) by (nonlinear_arith)
        requires
            4 * q <= k,
            k < w * height * 4,
    ;
    assert(0 <= py && py < height) by (nonlinear_arith)
        requires
            q == w * py + px,
            0 <= px < w,
            0 <= q,
            q < w * height,
            1 <= w,
    ;
    assert(flat_idx(w, px, py, pix) == k) by (nonlinear_arith)
        requires
            k == 4 * q + pix,
            q == w * py + px,
    ;
}

proof fn lemma_src_bound(w: u32, h: u32, dx: int, dy: int, pix: int)
    requires
        0 <= dx < w,
        0 <= dy < h,
        0 <= pix < 4,
    ensures
        0 <= (dy * w + dx) * 4 + pix < w * h * 4,
{
    assert(0 <= (dy * w + dx) * 4 + pix < w * h * 4) by (nonlinear_arith)
        requires
            0 <= dx < w,
            0 <= dy < h,
            0 <= pix < 4,
    ;
}

/// No-overlap law: among the placements of one packing run, no earlier
/// placement's closed box contains a corner of any later placement.
pub proof fn lemma_no_overlap(records: Seq<Rect>, imgs: Seq<Image>, w: u32, i: int, j: int)
    requires
        forall|k: int| 0 <= k < records.len() ==> placed_minimal(records, imgs, w, k),
        0 <= i < j < records.len(),
    ensures
        !records[i].contains_spec(records[j]),
{
    assert(placed_minimal(records, imgs, w, j));
    assert(!collides(records.take(j), records[j]));
    if records[i].contains_spec(records[j]) {
        assert(records.take(j)[i] == records[i]);
        assert(collides(records.take(j), records[j]));
        assert(false);
    }
}

/// Bounding law, as the scan enforces it: every placement passes the scan
/// bound, which compares `x + height` against the canvas width.
pub proof fn lemma_scan_bound(records: Seq<Rect>, imgs: Seq<Image>, w: u32, i: int)
    requires
        forall|k: int| 0 <= k < records.len() ==> placed_minimal(records, imgs, w, k),
        0 <= i < records.len(),
    ensures
        records[i].x + records[i].height <= w,
{
    assert(placed_minimal(records, imgs, w, i));
}

/// Bounding law in terms of width: for a placement whose rectangle is no
/// wider than it is tall, `x + width` stays within the canvas width. (An
/// image wider than tall can end past the canvas edge, because the scan
/// bound checks the height; see `slot_free`.)
pub proof fn lemma_bounding_width(records: Seq<Rect>, imgs: Seq<Image>, w: u32, i: int)
    requires
        forall|k: int| 0 <= k < records.len() ==> placed_minimal(records, imgs, w, k),
        0 <= i < records.len(),
        records[i].width <= records[i].height,
    ensures
        records[i].x + records[i].width <= w,
{
    assert(placed_minimal(records, imgs, w, i));
}

proof fn lemma_pack_det_prefix(r1: Seq<Rect>, r2: Seq<Rect>, imgs: Seq<Image>, w: u32, n: int)
    requires
        r1.len() == r2.len(),
        r1.len() <= imgs.len(),
        0 <= n <= r1.len(),
        forall|k: int| 0 <= k < r1.len() ==> placed_minimal(r1, imgs, w, k),
        forall|k: int| 0 <= k < r2.len() ==> placed_minimal(r2, imgs, w, k),
    ensures
        r1.take(n) == r2.take(n),
    decreases n,
{
    if n > 0 {
        lemma_pack_det_prefix(r1, r2, imgs, w, n - 1);
        let a = r1[n - 1];
        let b = r2[n - 1];
        assert(placed_minimal(r1, imgs, w, n - 1));
        assert(placed_minimal(r2, imgs, w, n - 1));
        if slot_rank(w, a) < slot_rank(w, b) {
            assert(!slot_free(r2.take(n - 1), w, a));
            assert(false);
        }
        if slot_rank(w, b) < slot_rank(w, a) {
            assert(!slot_free(r1.take(n - 1), w, b));
            assert(false);
        }
        lemma_rank_inj(w, a, b);
        assert(a == b);
        assert(r1.take(n) =~= r1.take(n - 1).push(a));
        assert(r2.take(n) =~= r2.take(n - 1).push(b));
    } else {
        assert(r1.take(0) =~= r2.take(0));
    }
}

/// Determinism law: the placement sequence is uniquely determined by the
/// sorted image sequence and the canvas width, so two complete packing runs
/// over the same input produce identical placements.
pub proof fn lemma_pack_deterministic(r1: Seq<Rect>, r2: Seq<Rect>, imgs: Seq<Image>, w: u32)
    requires
        r1.len() == r2.len(),
        r1.len() <= imgs.len(),
        forall|k: int| 0 <= k < r1.len() ==> placed_minimal(r1, imgs, w, k),
        forall|k: int| 0 <= k < r2.len() ==> placed_minimal(r2, imgs, w, k),
    ensures
        r1 == r2,
{
    lemma_pack_det_prefix(r1, r2, imgs, w, r1.len() as int);
    assert(r1.take(r1.len() as int) =~= r1);
    assert(r2.take(r2.len() as int) =~= r2);
}

} // verus!
