//! A glyph atlas: a binary space partition of a fixed canvas whose leaves hold
//! cached glyph rectangles, with recency aggregated bottom-up so that stale
//! subtrees can be evicted as a unit.
use vstd::prelude::*;

use crate::pixels::{ceil_pow2, lemma_pow2_from_ge, nearest_pow_2};
use std::collections::HashMap;

verus! {

broadcast use vstd::std_specs::hash::group_hash_axioms;

/// The cache key of one rasterized glyph: font, pixel scale and glyph index.
#[derive(Clone, Copy, Debug, PartialEq, Eq, Hash, Structural)]
pub struct GlyphId {
    pub font: usize,
    pub scale: u32,
    pub glyph: u16,
}

/// An axis-aligned rectangle in canvas pixels, origin top-left.
#[derive(Clone, Copy, Debug, PartialEq, Eq, Structural)]
pub struct Rect {
    pub x: u32,
    pub y: u32,
    pub w: u32,
    pub h: u32,
}

/// The axis along which a branch cuts its rectangle.
#[derive(Clone, Copy, Debug, PartialEq, Eq, Structural)]
pub enum Axis {
    /// A vertical cut: the children sit side by side.
    X,
    /// A horizontal cut: the children sit one above the other.
    Y,
}

/// What a node of the partition holds.
pub enum NodeKind {
    /// Free space.
    Empty,
    /// One cached glyph, placed at `rect` inside the node's region.
    Leaf { key: GlyphId, rect: Rect },
    /// The region cut along `axis` at `split` pixels from its start; `extent`
    /// is the region's size along `axis`.
    Branch { axis: Axis, split: u32, extent: u32, first: Box<Node>, second: Box<Node> },
}

/// A node of the partition with its recency: `age` is the frame it was last
/// touched in, `avg_age` the recency aggregated over its subtree.
pub struct Node {
    pub kind: NodeKind,
    pub age: u64,
    pub avg_age: u64,
}

pub open spec fn overlap(a: Rect, b: Rect) -> bool {
    &&& a.x < b.x + b.w
    &&& b.x < a.x + a.w
    &&& a.y < b.y + b.h
    &&& b.y < a.y + a.h
}

pub open spec fn inside(r: Rect, region: Rect) -> bool {
    &&& region.x <= r.x
    &&& r.x + r.w <= region.x + region.w
    &&& region.y <= r.y
    &&& r.y + r.h <= region.y + region.h
}

pub open spec fn extent_along(region: Rect, axis: Axis) -> u32 {
    match axis {
        Axis::X => region.w,
        Axis::Y => region.h,
    }
}

/// The part of `region` before the cut.
pub open spec fn first_region(region: Rect, axis: Axis, split: u32) -> Rect {
    match axis {
        Axis::X => Rect { x: region.x, y: region.y, w: split, h: region.h },
        Axis::Y => Rect { x: region.x, y: region.y, w: region.w, h: split },
    }
}

/// The part of `region` after the cut.
pub open spec fn second_region(region: Rect, axis: Axis, split: u32) -> Rect {
    match axis {
        Axis::X => Rect {
            x: (region.x + split) as u32,
            y: region.y,
            w: (region.w - split) as u32,
            h: region.h,
        },
        Axis::Y => Rect {
            x: region.x,
            y: (region.y + split) as u32,
            w: region.w,
            h: (region.h - split) as u32,
        },
    }
}

/// The average of two children's recency, each weighted by its share of the extent.
pub open spec fn weighted_avg(a: u64, b: u64, split: u32, extent: u32) -> u64 {
    ((a * split + b * (extent - split)) / (extent as int)) as u64
}

/// The glyphs cached in a subtree, with their rectangles.
pub open spec fn cache(n: Node) -> Map<GlyphId, Rect>
    decreases n,
{
    match n.kind {
        NodeKind::Empty => Map::empty(),
        NodeKind::Leaf { key, rect } => map![key => rect],
        NodeKind::Branch { first, second, .. } => cache(*first).union_prefer_right(
            cache(*second),
        ),
    }
}

/// The glyphs of a subtree that were touched in frame `frame`.
pub open spec fn used_in(n: Node, frame: u64) -> Set<GlyphId>
    decreases n,
{
    match n.kind {
        NodeKind::Empty => Set::empty(),
        NodeKind::Leaf { key, .. } => if n.age == frame {
            set![key]
        } else {
            Set::empty()
        },
        NodeKind::Branch { first, second, .. } => used_in(*first, frame).union(
            used_in(*second, frame),
        ),
    }
}

/// A subtree that partitions `region`: every branch cuts its region strictly
/// inside, every leaf's glyph lies in its region, no glyph is cached twice,
/// no child is more recent than its parent, and each branch's `avg_age` is the
/// weighted average of its children's.
pub open spec fn wf(n: Node, region: Rect) -> bool
    decreases n,
{
    &&& region.x + region.w <= u32::MAX
    &&& region.y + region.h <= u32::MAX
    &&& n.avg_age <= n.age
    &&& match n.kind {
        NodeKind::Empty => true,
        NodeKind::Leaf { rect, .. } => inside(rect, region),
        NodeKind::Branch { axis, split, extent, first, second } => {
            &&& extent == extent_along(region, axis)
            &&& 0 < split < extent
            &&& first.age <= n.age
            &&& second.age <= n.age
            &&& n.avg_age == weighted_avg(first.avg_age, second.avg_age, split, extent)
            &&& wf(*first, first_region(region, axis, split))
            &&& wf(*second, second_region(region, axis, split))
            &&& cache(*first).dom().disjoint(cache(*second).dom())
        },
    }
}

pub open spec fn empty_node() -> Node {
    Node { kind: NodeKind::Empty, age: 0, avg_age: 0 }
}

/// A branch touched in `frame`, its recency recomputed from its children.
pub open spec fn branch(
    axis: Axis,
    split: u32,
    extent: u32,
    first: Node,
    second: Node,
    frame: u64,
) -> Node {
    Node {
        kind: NodeKind::Branch {
            axis,
            split,
            extent,
            first: Box::new(first),
            second: Box::new(second),
        },
        age: frame,
        avg_age: weighted_avg(first.avg_age, second.avg_age, split, extent),
    }
}

/// Marks the leaf of `key` and every branch above it as used in `frame`.
pub open spec fn touch(n: Node, key: GlyphId, frame: u64) -> Node
    decreases n,
{
    match n.kind {
        NodeKind::Empty => n,
        NodeKind::Leaf { key: k, .. } => if k == key {
            Node { kind: n.kind, age: frame, avg_age: frame }
        } else {
            n
        },
        NodeKind::Branch { axis, split, extent, first, second } => {
            if cache(*first).contains_key(key) {
                branch(axis, split, extent, touch(*first, key, frame), *second, frame)
            } else if cache(*second).contains_key(key) {
                branch(axis, split, extent, *first, touch(*second, key, frame), frame)
            } else {
                n
            }
        },
    }
}

/// Where a cut for a request of `req` pixels falls in a side of `dim` pixels:
/// the request rounded up to a power of two, capped at `dim` (a request over
/// 2^31 rounds past every `u32` size).
pub open spec fn split_at(req: u32, dim: u32) -> u32 {
    if req > 0x8000_0000 || ceil_pow2(req as nat) >= dim {
        dim
    } else {
        ceil_pow2(req as nat) as u32
    }
}

/// Keeps `inner` as the part of a `dim`-pixel side before `at`, with free
/// space after it; no cut when `at` reaches the end.
pub open spec fn cut(inner: Node, axis: Axis, at: u32, dim: u32, frame: u64) -> Node {
    if at >= dim {
        inner
    } else {
        branch(axis, at, dim, inner, empty_node(), frame)
    }
}

/// The rectangle a placement at `region` hands out.
pub open spec fn tight(region: Rect, w: u32, h: u32) -> Rect {
    Rect { x: region.x, y: region.y, w, h }
}

/// The subtree that replaces a placement site: a leaf for `key` at the site's
/// origin, cut first along the axis with more slack, then along the other.
pub open spec fn carve(region: Rect, w: u32, h: u32, key: GlyphId, frame: u64) -> Node {
    let leaf = Node {
        kind: NodeKind::Leaf { key, rect: tight(region, w, h) },
        age: frame,
        avg_age: frame,
    };
    let sx = split_at(w, region.w);
    let sy = split_at(h, region.h);
    if region.w - w >= region.h - h {
        cut(cut(leaf, Axis::Y, sy, region.h, frame), Axis::X, sx, region.w, frame)
    } else {
        cut(cut(leaf, Axis::X, sx, region.w, frame), Axis::Y, sy, region.h, frame)
    }
}

/// Searches a subtree for room for a `w` x `h` glyph: at a branch, the staler
/// child first (the first child on a tie), then the other; failing both, or at
/// a leaf or free node, the node itself becomes the site unless it was touched
/// in `frame`. Returns the new subtree and the glyph's rectangle.
pub open spec fn place(n: Node, region: Rect, w: u32, h: u32, key: GlyphId, frame: u64) -> Option<
    (Node, Rect),
>
    decreases n,
{
    if region.w < w || region.h < h {
        None
    } else {
        let inner = match n.kind {
            NodeKind::Branch { axis, split, extent, first, second } => {
                let r1 = first_region(region, axis, split);
                let r2 = second_region(region, axis, split);
                if second.avg_age < first.avg_age {
                    match place(*second, r2, w, h, key, frame) {
                        Some((s, r)) => Some((branch(axis, split, extent, *first, s, frame), r)),
                        None => match place(*first, r1, w, h, key, frame) {
                            Some((f, r)) => Some(
                                (branch(axis, split, extent, f, *second, frame), r),
                            ),
                            None => None,
                        },
                    }
                } else {
                    match place(*first, r1, w, h, key, frame) {
                        Some((f, r)) => Some((branch(axis, split, extent, f, *second, frame), r)),
                        None => match place(*second, r2, w, h, key, frame) {
                            Some((s, r)) => Some(
                                (branch(axis, split, extent, *first, s, frame), r),
                            ),
                            None => None,
                        },
                    }
                }
            },
            _ => None,
        };
        if inner is Some {
            inner
        } else if n.age == frame {
            None
        } else {
            Some((carve(region, w, h, key, frame), tight(region, w, h)))
        }
    }
}


proof fn lemma_weighted_avg_bound(a: u64, b: u64, split: u32, extent: u32, m: u64)
    requires
        0 < split < extent,
        a <= m,
        b <= m,
    ensures
        weighted_avg(a, b, split, extent) <= m,
        (a * split + b * (extent - split)) / (extent as int) <= m,
{
    let s = split as int;
    let e = extent as int;
    assert(a * s + b * (e - s) <= m * e) by (nonlinear_arith)
        requires
            0 < s < e,
            a <= m,
            b <= m,
    ;
    assert((a * s + b * (e - s)) / e <= m) by (nonlinear_arith)
        requires
            0 < e,
            0 <= a * s + b * (e - s) <= m * e,
    ;
}

proof fn lemma_wf_avg(n: Node, region: Rect)
    requires
        wf(n, region),
    ensures
        n.avg_age <= n.age,
{
}

proof fn lemma_split_at(req: u32, dim: u32)
    requires
        req <= dim,
    ensures
        req <= split_at(req, dim) <= dim,
        1 <= split_at(req, dim) || dim == 0,
{
    lemma_pow2_from_ge(1, req as nat);
}

/// Every glyph cached in a well-formed subtree lies inside its region.
pub proof fn lemma_cache_inside(n: Node, region: Rect)
    requires
        wf(n, region),
    ensures
        forall|k: GlyphId| #[trigger]
            cache(n).contains_key(k) ==> inside(cache(n)[k], region),
    decreases n,
{
    if let NodeKind::Branch { axis, split, first, second, .. } = n.kind {
        lemma_cache_inside(*first, first_region(region, axis, split));
        lemma_cache_inside(*second, second_region(region, axis, split));
    }
}

/// The glyphs cached in a well-formed subtree never overlap one another.
pub proof fn lemma_cache_disjoint(n: Node, region: Rect)
    requires
        wf(n, region),
    ensures
        forall|k1: GlyphId, k2: GlyphId|
            #![trigger cache(n)[k1], cache(n)[k2]]
            cache(n).contains_key(k1) && cache(n).contains_key(k2) && k1 != k2 ==> !overlap(
                cache(n)[k1],
                cache(n)[k2],
            ),
    decreases n,
{
    if let NodeKind::Branch { axis, split, first, second, .. } = n.kind {
        let r1 = first_region(region, axis, split);
        let r2 = second_region(region, axis, split);
        lemma_cache_inside(*first, r1);
        lemma_cache_inside(*second, r2);
        lemma_cache_disjoint(*first, r1);
        lemma_cache_disjoint(*second, r2);
        let c1 = cache(*first);
        let c2 = cache(*second);
        assert forall|k1: GlyphId, k2: GlyphId|
            cache(n).contains_key(k1) && cache(n).contains_key(k2) && k1 != k2 implies !overlap(
                #[trigger] cache(n)[k1],
                #[trigger] cache(n)[k2],
            ) by {
            if c2.contains_key(k1) && c2.contains_key(k2) {
            } else if c2.contains_key(k1) {
                assert(inside(c2[k1], r2));
                assert(inside(c1[k2], r1));
            } else if c2.contains_key(k2) {
                assert(inside(c1[k1], r1));
                assert(inside(c2[k2], r2));
            } else {
            }
        }
    }
}

/// A glyph touched in a frame is a cached glyph.
pub proof fn lemma_used_cached(n: Node, frame: u64)
    ensures
        used_in(n, frame).subset_of(cache(n).dom()),
    decreases n,
{
    if let NodeKind::Branch { first, second, .. } = n.kind {
        lemma_used_cached(*first, frame);
        lemma_used_cached(*second, frame);
    }
}

/// Nothing beneath a node is more recent than the node itself.
proof fn lemma_unused_below(n: Node, region: Rect, frame: u64)
    requires
        wf(n, region),
        n.age < frame,
    ensures
        used_in(n, frame) == Set::<GlyphId>::empty(),
    decreases n,
{
    if let NodeKind::Branch { axis, split, first, second, .. } = n.kind {
        lemma_unused_below(*first, first_region(region, axis, split), frame);
        lemma_unused_below(*second, second_region(region, axis, split), frame);
        assert(used_in(n, frame) =~= Set::<GlyphId>::empty());
    }
}

proof fn lemma_touch_absent(n: Node, key: GlyphId, frame: u64)
    requires
        !cache(n).contains_key(key),
    ensures
        touch(n, key, frame) == n,
    decreases n,
{
}

proof fn lemma_touch(n: Node, region: Rect, key: GlyphId, frame: u64)
    requires
        wf(n, region),
        n.age <= frame,
        cache(n).contains_key(key),
    ensures
        wf(touch(n, key, frame), region),
        touch(n, key, frame).age == frame,
        cache(touch(n, key, frame)) == cache(n),
        used_in(touch(n, key, frame), frame) == used_in(n, frame).insert(key),
    decreases n,
{
    match n.kind {
        NodeKind::Leaf { .. } => {
            assert(used_in(touch(n, key, frame), frame) =~= used_in(n, frame).insert(key));
        },
        NodeKind::Branch { axis, split, extent, first, second } => {
            let r1 = first_region(region, axis, split);
            let r2 = second_region(region, axis, split);
            if cache(*first).contains_key(key) {
                lemma_touch(*first, r1, key, frame);
                let f = touch(*first, key, frame);
                lemma_wf_avg(*second, r2);
                lemma_weighted_avg_bound(f.avg_age, second.avg_age, split, extent, frame);
                assert(used_in(touch(n, key, frame), frame) =~= used_in(n, frame).insert(key));
            } else {
                lemma_touch(*second, r2, key, frame);
                let s = touch(*second, key, frame);
                lemma_wf_avg(*first, r1);
                lemma_weighted_avg_bound(first.avg_age, s.avg_age, split, extent, frame);
                assert(used_in(touch(n, key, frame), frame) =~= used_in(n, frame).insert(key));
            }
        },
        NodeKind::Empty => {},
    }
}

/// What a successful placement of `key` at `r` in a subtree guarantees: the
/// new subtree is well formed and touched now, holds `key` at a `w` x `h`
/// rectangle inside the region, keeps every other glyph it holds where it was,
/// and keeps every glyph that was touched in this frame.
pub open spec fn placed(
    old: Node,
    new: Node,
    region: Rect,
    r: Rect,
    key: GlyphId,
    w: u32,
    h: u32,
    frame: u64,
) -> bool {
    &&& wf(new, region)
    &&& new.age == frame
    &&& r.w == w
    &&& r.h == h
    &&& inside(r, region)
    &&& cache(new).contains_key(key)
    &&& cache(new)[key] == r
    &&& forall|k: GlyphId|
        k != key && #[trigger] cache(new).contains_key(k) ==> cache(old).contains_key(k)
            && cache(new)[k] == cache(old)[k]
    &&& used_in(new, frame) == used_in(old, frame).insert(key)
    &&& forall|k: GlyphId| #[trigger]
        used_in(old, frame).contains(k) ==> cache(new).contains_key(k) && cache(new)[k]
            == cache(old)[k]
}

proof fn lemma_cut(inner: Node, region: Rect, axis: Axis, at: u32, frame: u64)
    requires
        region.x + region.w <= u32::MAX,
        region.y + region.h <= u32::MAX,
        at <= extent_along(region, axis),
        1 <= at || at == extent_along(region, axis),
        wf(inner, first_region(region, axis, at)),
        inner.age == frame,
    ensures
        wf(cut(inner, axis, at, extent_along(region, axis), frame), region),
        cut(inner, axis, at, extent_along(region, axis), frame).age == frame,
        cache(cut(inner, axis, at, extent_along(region, axis), frame)) == cache(inner),
        used_in(cut(inner, axis, at, extent_along(region, axis), frame), frame) == used_in(
            inner,
            frame,
        ),
{
    let dim = extent_along(region, axis);
    lemma_wf_avg(inner, first_region(region, axis, at));
    if at < dim {
        let e = empty_node();
        lemma_weighted_avg_bound(inner.avg_age, e.avg_age, at, dim, frame);
        let c = cut(inner, axis, at, dim, frame);
        assert(wf(e, second_region(region, axis, at)));
        assert(cache(e) == Map::<GlyphId, Rect>::empty());
        assert(used_in(e, frame) == Set::<GlyphId>::empty());
        assert(cache(c) =~= cache(inner));
        assert(used_in(c, frame) =~= used_in(inner, frame));
    } else {
        assert(first_region(region, axis, at) == region);
    }
}

proof fn lemma_carve(region: Rect, w: u32, h: u32, key: GlyphId, frame: u64)
    requires
        region.x + region.w <= u32::MAX,
        region.y + region.h <= u32::MAX,
        w <= region.w,
        h <= region.h,
    ensures
        wf(carve(region, w, h, key, frame), region),
        carve(region, w, h, key, frame).age == frame,
        cache(carve(region, w, h, key, frame)) == map![key => tight(region, w, h)],
        used_in(carve(region, w, h, key, frame), frame) == set![key],
{
    let leaf = Node {
        kind: NodeKind::Leaf { key, rect: tight(region, w, h) },
        age: frame,
        avg_age: frame,
    };
    let sx = split_at(w, region.w);
    let sy = split_at(h, region.h);
    lemma_split_at(w, region.w);
    lemma_split_at(h, region.h);
    if region.w - w >= region.h - h {
        let r1 = first_region(region, Axis::X, sx);
        assert(wf(leaf, first_region(r1, Axis::Y, sy)));
        lemma_cut(leaf, r1, Axis::Y, sy, frame);
        lemma_cut(cut(leaf, Axis::Y, sy, region.h, frame), region, Axis::X, sx, frame);
    } else {
        let r1 = first_region(region, Axis::Y, sy);
        assert(wf(leaf, first_region(r1, Axis::X, sx)));
        lemma_cut(leaf, r1, Axis::X, sx, frame);
        lemma_cut(cut(leaf, Axis::X, sx, region.w, frame), region, Axis::Y, sy, frame);
    }
    assert(used_in(leaf, frame) =~= set![key]);
    assert(cache(leaf) =~= map![key => tight(region, w, h)]);
}

proof fn lemma_rebuild_first(n: Node, region: Rect, f: Node, r: Rect, key: GlyphId, w: u32, h: u32, frame: u64)
    requires
        wf(n, region),
        n.age <= frame,
        !cache(n).contains_key(key),
        n.kind is Branch,
        placed(
            *n.kind->first,
            f,
            first_region(region, n.kind->axis, n.kind->split),
            r,
            key,
            w,
            h,
            frame,
        ),
    ensures
        placed(
            n,
            branch(n.kind->axis, n.kind->split, n.kind->extent, f, *n.kind->second, frame),
            region,
            r,
            key,
            w,
            h,
            frame,
        ),
{
    if let NodeKind::Branch { axis, split, extent, first, second } = n.kind {
        let r1 = first_region(region, axis, split);
        let r2 = second_region(region, axis, split);
        let n2 = branch(axis, split, extent, f, *second, frame);
        lemma_wf_avg(f, r1);
        lemma_wf_avg(*second, r2);
        lemma_weighted_avg_bound(f.avg_age, second.avg_age, split, extent, frame);
        lemma_used_cached(*first, frame);
        lemma_used_cached(*second, frame);
        assert(cache(f).dom().disjoint(cache(*second).dom()));
        assert(wf(n2, region));
        assert(used_in(n2, frame) =~= used_in(n, frame).insert(key));
        assert forall|k: GlyphId| #[trigger] used_in(n, frame).contains(k) implies cache(
            n2,
        ).contains_key(k) && cache(n2)[k] == cache(n)[k] by {
            if used_in(*first, frame).contains(k) {
                assert(cache(f).contains_key(k));
            } else {
                assert(cache(*second).contains_key(k));
            }
        }
    }
}

proof fn lemma_rebuild_second(n: Node, region: Rect, s: Node, r: Rect, key: GlyphId, w: u32, h: u32, frame: u64)
    requires
        wf(n, region),
        n.age <= frame,
        !cache(n).contains_key(key),
        n.kind is Branch,
        placed(
            *n.kind->second,
            s,
            second_region(region, n.kind->axis, n.kind->split),
            r,
            key,
            w,
            h,
            frame,
        ),
    ensures
        placed(
            n,
            branch(n.kind->axis, n.kind->split, n.kind->extent, *n.kind->first, s, frame),
            region,
            r,
            key,
            w,
            h,
            frame,
        ),
{
    if let NodeKind::Branch { axis, split, extent, first, second } = n.kind {
        let r1 = first_region(region, axis, split);
        let r2 = second_region(region, axis, split);
        let n2 = branch(axis, split, extent, *first, s, frame);
        lemma_wf_avg(*first, r1);
        lemma_wf_avg(s, r2);
        lemma_weighted_avg_bound(first.avg_age, s.avg_age, split, extent, frame);
        lemma_used_cached(*first, frame);
        lemma_used_cached(*second, frame);
        assert(cache(*first).dom().disjoint(cache(s).dom()));
        assert(wf(n2, region));
        assert(used_in(n2, frame) =~= used_in(n, frame).insert(key));
        assert forall|k: GlyphId|
            k != key && #[trigger] cache(n2).contains_key(k) implies cache(n).contains_key(k)
            && cache(n2)[k] == cache(n)[k] by {
            if cache(s).contains_key(k) {
                assert(cache(*second).contains_key(k));
            } else {
                assert(cache(*first).contains_key(k));
            }
        }
        assert forall|k: GlyphId| #[trigger] used_in(n, frame).contains(k) implies cache(
            n2,
        ).contains_key(k) && cache(n2)[k] == cache(n)[k] by {
            if used_in(*first, frame).contains(k) {
                assert(cache(*first).contains_key(k));
            } else {
                assert(cache(s).contains_key(k));
            }
        }
    }
}

/// A placement in a well-formed subtree that does not yet hold `key`
/// succeeds only as `placed` describes.
pub proof fn lemma_place(n: Node, region: Rect, w: u32, h: u32, key: GlyphId, frame: u64)
    requires
        wf(n, region),
        n.age <= frame,
        !cache(n).contains_key(key),
    ensures
        match place(n, region, w, h, key, frame) {
            Some((n2, r)) => placed(n, n2, region, r, key, w, h, frame),
            None => true,
        },
    decreases n,
{
    let mut inner_found = false;
    if region.w < w || region.h < h {
    } else if let NodeKind::Branch { axis, split, extent, first, second } = n.kind {
        let r1 = first_region(region, axis, split);
        let r2 = second_region(region, axis, split);
        lemma_place(*first, r1, w, h, key, frame);
        lemma_place(*second, r2, w, h, key, frame);
        match place(*first, r1, w, h, key, frame) {
            Some((f, r)) => lemma_rebuild_first(n, region, f, r, key, w, h, frame),
            None => {},
        }
        match place(*second, r2, w, h, key, frame) {
            Some((s, r)) => lemma_rebuild_second(n, region, s, r, key, w, h, frame),
            None => {},
        }
        inner_found = place(*first, r1, w, h, key, frame) is Some || place(
            *second,
            r2,
            w,
            h,
            key,
            frame,
        ) is Some;
    }
    if region.w >= w && region.h >= h && !inner_found && n.age != frame {
        lemma_carve(region, w, h, key, frame);
        lemma_unused_below(n, region, frame);
        assert(used_in(n, frame).insert(key) =~= set![key]);
    }
}

/// The glyph key packed into one integer: font, scale and glyph index side by
/// side, so that distinct keys get distinct codes.
pub open spec fn key_code(k: GlyphId) -> u128 {
    ((k.font as u128) << 48u128) | ((k.scale as u128) << 16u128) | (k.glyph as u128)
}

/// Distinct glyph keys have distinct codes.
pub proof fn lemma_key_code_injective(a: GlyphId, b: GlyphId)
    requires
        key_code(a) == key_code(b),
    ensures
        a == b,
{
    let fa = a.font as u128;
    let sa = a.scale as u128;
    let ga = a.glyph as u128;
    let fb = b.font as u128;
    let sb = b.scale as u128;
    let gb = b.glyph as u128;
    assert(fa < 0x1_0000_0000_0000_0000u128 && fb < 0x1_0000_0000_0000_0000u128);
    assert(((fa << 48u128) | (sa << 16u128) | ga) == ((fb << 48u128) | (sb << 16u128) | gb) ==> fa
        == fb && sa == sb && ga == gb) by (bit_vector)
        requires
            fa < 0x1_0000_0000_0000_0000u128,
            fb < 0x1_0000_0000_0000_0000u128,
            sa < 0x1_0000_0000u128,
            sb < 0x1_0000_0000u128,
            ga < 0x1_0000u128,
            gb < 0x1_0000u128,
    ;
}

fn key_code_of(k: &GlyphId) -> (r: u128)
    ensures
        r == key_code(*k),
{
    ((k.font as u128) << 48u128) | ((k.scale as u128) << 16u128) | (k.glyph as u128)
}

/// The keys of the glyphs in a subtree, leaves from first to second.
pub open spec fn keys_in(n: Node) -> Seq<GlyphId>
    decreases n,
{
    match n.kind {
        NodeKind::Empty => Seq::empty(),
        NodeKind::Leaf { key, .. } => seq![key],
        NodeKind::Branch { first, second, .. } => keys_in(*first) + keys_in(*second),
    }
}

proof fn lemma_keys_in(n: Node)
    ensures
        forall|k: GlyphId| keys_in(n).contains(k) <==> #[trigger] cache(n).contains_key(k),
    decreases n,
{
    if let NodeKind::Branch { first, second, .. } = n.kind {
        lemma_keys_in(*first);
        lemma_keys_in(*second);
        let a = keys_in(*first);
        let b = keys_in(*second);
        let ab = a + b;
        assert(keys_in(n) == ab);
        assert forall|k: GlyphId| ab.contains(k) <==> #[trigger] cache(n).contains_key(k) by {
            assert(cache(n).contains_key(k) == (cache(*first).contains_key(k) || cache(
                *second,
            ).contains_key(k)));
            if a.contains(k) {
                let i = choose|i: int| 0 <= i < a.len() && a[i] == k;
                assert(ab[i] == k);
            }
            if b.contains(k) {
                let i = choose|i: int| 0 <= i < b.len() && b[i] == k;
                assert(ab[a.len() + i] == k);
            }
            if ab.contains(k) {
                let i = choose|i: int| 0 <= i < ab.len() && ab[i] == k;
                if i < a.len() {
                    assert(a[i] == k);
                } else {
                    assert(b[i - a.len()] == k);
                }
            }
        }
    } else if let NodeKind::Leaf { key, .. } = n.kind {
        assert(keys_in(n)[0] == key);
    }
}

fn contains_rect(region: Rect, r: Rect) -> (b: bool)
    ensures
        b == inside(r, region),
{
    region.x <= r.x && (r.x as u64) + (r.w as u64) <= (region.x as u64) + (region.w as u64)
        && region.y <= r.y && (r.y as u64) + (r.h as u64) <= (region.y as u64) + (
    region.h as u64)
}

proof fn lemma_concat_contains(a: Seq<GlyphId>, b: Seq<GlyphId>, k: GlyphId)
    ensures
        (a + b).contains(k) <==> a.contains(k) || b.contains(k),
{
    if a.contains(k) {
        let i = choose|i: int| 0 <= i < a.len() && a[i] == k;
        assert((a + b)[i] == k);
    }
    if b.contains(k) {
        let i = choose|i: int| 0 <= i < b.len() && b[i] == k;
        assert((a + b)[a.len() + i] == k);
    }
    if (a + b).contains(k) {
        let i = choose|i: int| 0 <= i < (a + b).len() && (a + b)[i] == k;
        if i < a.len() {
            assert(a[i] == k);
        } else {
            assert(b[i - a.len()] == k);
        }
    }
}

/// What a placement inside one child of a branch evicted is what it evicted
/// from the whole branch, the other child being left as it was.
proof fn lemma_evicted_child(
    f0: Node,
    s0: Node,
    f: Node,
    s: Node,
    before: Seq<GlyphId>,
    after: Seq<GlyphId>,
)
    requires
        cache(f0).dom().disjoint(cache(s0).dom()),
        (f == f0 && forall|k: GlyphId| #[trigger]
            after.contains(k) <==> before.contains(k) || (cache(s0).contains_key(k) && !cache(
                s,
            ).contains_key(k))) || (s == s0 && forall|k: GlyphId| #[trigger]
            after.contains(k) <==> before.contains(k) || (cache(f0).contains_key(k) && !cache(
                f,
            ).contains_key(k))),
    ensures
        forall|k: GlyphId| #[trigger]
            after.contains(k) <==> before.contains(k) || (cache(f0).union_prefer_right(
                cache(s0),
            ).contains_key(k) && !cache(f).union_prefer_right(cache(s)).contains_key(k)),
{
    assert forall|k: GlyphId| #[trigger]
        after.contains(k) <==> before.contains(k) || (cache(f0).union_prefer_right(
            cache(s0),
        ).contains_key(k) && !cache(f).union_prefer_right(cache(s)).contains_key(k)) by {
        if cache(f0).contains_key(k) {
            assert(!cache(s0).contains_key(k));
        }
    }
}

fn weighted_avg_of(a: u64, b: u64, split: u32, extent: u32) -> (r: u64)
    requires
        0 < split < extent,
    ensures
        r == weighted_avg(a, b, split, extent),
{
    let m = if a >= b {
        a
    } else {
        b
    };
    proof {
        lemma_weighted_avg_bound(a, b, split, extent, m);
        assert(a * split <= 0xFFFF_FFFF_FFFF_FFFFu64 * 0xFFFF_FFFFu32) by (nonlinear_arith)
            requires
                a <= 0xFFFF_FFFF_FFFF_FFFFu64,
                split <= 0xFFFF_FFFFu32,
        ;
        assert(b * (extent - split) <= 0xFFFF_FFFF_FFFF_FFFFu64 * 0xFFFF_FFFFu32)
            by (nonlinear_arith)
            requires
                b <= 0xFFFF_FFFF_FFFF_FFFFu64,
                0 <= extent - split <= 0xFFFF_FFFFu32,
        ;
    }
    let s = split as u128;
    let e = extent as u128;
    let num = (a as u128) * s + (b as u128) * (e - s);
    (num / e) as u64
}

fn make_branch(axis: Axis, split: u32, extent: u32, first: Node, second: Node, frame: u64) -> (n:
    Node)
    requires
        0 < split < extent,
    ensures
        n == branch(axis, split, extent, first, second, frame),
{
    let avg_age = weighted_avg_of(first.avg_age, second.avg_age, split, extent);
    Node {
        kind: NodeKind::Branch {
            axis,
            split,
            extent,
            first: Box::new(first),
            second: Box::new(second),
        },
        age: frame,
        avg_age,
    }
}

fn split_region(region: Rect, axis: Axis, split: u32) -> (r: (Rect, Rect))
    requires
        split <= extent_along(region, axis),
        region.x + region.w <= u32::MAX,
        region.y + region.h <= u32::MAX,
    ensures
        r.0 == first_region(region, axis, split),
        r.1 == second_region(region, axis, split),
{
    match axis {
        Axis::X => (
            Rect { x: region.x, y: region.y, w: split, h: region.h },
            Rect { x: region.x + split, y: region.y, w: region.w - split, h: region.h },
        ),
        Axis::Y => (
            Rect { x: region.x, y: region.y, w: region.w, h: split },
            Rect { x: region.x, y: region.y + split, w: region.w, h: region.h - split },
        ),
    }
}

fn split_offset(req: u32, dim: u32) -> (r: u32)
    ensures
        r == split_at(req, dim),
{
    if req > 0x8000_0000 {
        dim
    } else {
        let p = if req == 0 {
            assert(ceil_pow2(0) == ceil_pow2(1));
            nearest_pow_2(1)
        } else {
            nearest_pow_2(req)
        };
        if p >= dim {
            dim
        } else {
            p
        }
    }
}

fn cut_node(inner: Node, axis: Axis, at: u32, dim: u32, frame: u64) -> (n: Node)
    requires
        at >= 1 || at >= dim,
    ensures
        n == cut(inner, axis, at, dim, frame),
{
    if at >= dim {
        inner
    } else {
        make_branch(axis, at, dim, inner, Node::empty(), frame)
    }
}

fn carve_node(region: Rect, w: u32, h: u32, key: GlyphId, frame: u64) -> (n: Node)
    requires
        w <= region.w,
        h <= region.h,
    ensures
        n == carve(region, w, h, key, frame),
{
    let leaf = Node {
        kind: NodeKind::Leaf { key, rect: Rect { x: region.x, y: region.y, w, h } },
        age: frame,
        avg_age: frame,
    };
    let sx = split_offset(w, region.w);
    let sy = split_offset(h, region.h);
    proof {
        lemma_split_at(w, region.w);
        lemma_split_at(h, region.h);
    }
    if region.w - w >= region.h - h {
        let inner = cut_node(leaf, Axis::Y, sy, region.h, frame);
        cut_node(inner, Axis::X, sx, region.w, frame)
    } else {
        let inner = cut_node(leaf, Axis::X, sx, region.w, frame);
        cut_node(inner, Axis::Y, sy, region.h, frame)
    }
}

impl Node {
    /// A node of free space that was never touched.
    pub fn empty() -> (n: Node)
        ensures
            n == empty_node(),
    {
        Node { kind: NodeKind::Empty, age: 0, avg_age: 0 }
    }

    /// Appends the keys of the glyphs in this subtree to `out`.
    fn keys_of(&self, out: &mut Vec<GlyphId>)
        ensures
            final(out)@ == old(out)@ + keys_in(*self),
        decreases *self,
    {
        match &self.kind {
            NodeKind::Empty => {
                assert(old(out)@ + Seq::<GlyphId>::empty() =~= old(out)@);
            },
            NodeKind::Leaf { key, .. } => {
                out.push(*key);
            },
            NodeKind::Branch { first, second, .. } => {
                let ghost start = out@;
                first.keys_of(out);
                second.keys_of(out);
                assert(out@ =~= start + keys_in(*self));
            },
        }
    }

    /// Marks the leaf of `key`, whose rectangle is `rect` if it is cached
    /// here, and the branches above it as used in `frame`; also tells whether
    /// the key was found. Only subtrees whose region holds `rect` are searched.
    fn touch(self, key: &GlyphId, rect: Rect, frame: u64, region: Rect) -> (res: (Node, bool))
        requires
            wf(self, region),
            cache(self).contains_key(*key) ==> cache(self)[*key] == rect,
        ensures
            res.0 == touch(self, *key, frame),
            res.1 == cache(self).contains_key(*key),
        decreases self,
    {
        let Node { kind, age, avg_age } = self;
        match kind {
            NodeKind::Empty => (Node { kind: NodeKind::Empty, age, avg_age }, false),
            NodeKind::Leaf { key: k, rect: r } => {
                if k == *key {
                    (Node { kind: NodeKind::Leaf { key: k, rect: r }, age: frame, avg_age: frame }, true)
                } else {
                    (Node { kind: NodeKind::Leaf { key: k, rect: r }, age, avg_age }, false)
                }
            },
            NodeKind::Branch { axis, split, extent, first, second } => {
                let (r1, r2) = split_region(region, axis, split);
                proof {
                    lemma_cache_inside(*first, r1);
                    lemma_cache_inside(*second, r2);
                }
                let f = *first;
                let s = *second;
                let (f, found) = if contains_rect(r1, rect) {
                    f.touch(key, rect, frame, r1)
                } else {
                    (f, false)
                };
                if found {
                    (make_branch(axis, split, extent, f, s, frame), true)
                } else {
                    proof {
                        lemma_touch_absent(*first, *key, frame);
                    }
                    let (s, found) = if contains_rect(r2, rect) {
                        s.touch(key, rect, frame, r2)
                    } else {
                        (s, false)
                    };
                    if found {
                        (make_branch(axis, split, extent, f, s, frame), true)
                    } else {
                        proof {
                            lemma_touch_absent(*second, *key, frame);
                        }
                        (
                            Node {
                                kind: NodeKind::Branch {
                                    axis,
                                    split,
                                    extent,
                                    first: Box::new(f),
                                    second: Box::new(s),
                                },
                                age,
                                avg_age,
                            },
                            false,
                        )
                    }
                }
            },
        }
    }

    /// Places a `w` x `h` glyph for `key` in this subtree, as `place` describes;
    /// hands the subtree back unchanged where it finds no room.
    /// The keys of the glyphs it evicts are appended to `evicted`.
    fn place(
        self,
        region: Rect,
        w: u32,
        h: u32,
        key: &GlyphId,
        frame: u64,
        evicted: &mut Vec<GlyphId>,
    ) -> (res: (Node, Option<Rect>))
        requires
            wf(self, region),
            !cache(self).contains_key(*key),
        ensures
            match place(self, region, w, h, *key, frame) {
                Some((n, r)) => {
                    &&& res.0 == n
                    &&& res.1 == Some(r)
                    &&& forall|k: GlyphId| #[trigger]
                        final(evicted)@.contains(k) <==> old(evicted)@.contains(k) || (cache(
                            self,
                        ).contains_key(k) && !cache(n).contains_key(k))
                },
                None => res.0 == self && res.1 is None && final(evicted)@ == old(evicted)@,
            },
        decreases self,
    {
        let ghost old_self = self;
        let ghost ev0 = evicted@;
        if region.w < w || region.h < h {
            return (self, None);
        }
        let Node { kind, age, avg_age } = self;
        let node = match kind {
            NodeKind::Branch { axis, split, extent, first, second } => {
                let (r1, r2) = split_region(region, axis, split);
                let f = *first;
                let s = *second;
                let ghost f0 = f;
                let ghost s0 = s;
                if s.avg_age < f.avg_age {
                    let (s, r) = s.place(r2, w, h, key, frame, evicted);
                    if r.is_some() {
                        proof {
                            lemma_evicted_child(f0, s0, f, s, ev0, evicted@);
                        }
                        return (make_branch(axis, split, extent, f, s, frame), r);
                    }
                    let (f, r) = f.place(r1, w, h, key, frame, evicted);
                    if r.is_some() {
                        proof {
                            lemma_evicted_child(f0, s0, f, s, ev0, evicted@);
                        }
                        return (make_branch(axis, split, extent, f, s, frame), r);
                    }
                    Node {
                        kind: NodeKind::Branch {
                            axis,
                            split,
                            extent,
                            first: Box::new(f),
                            second: Box::new(s),
                        },
                        age,
                        avg_age,
                    }
                } else {
                    let (f, r) = f.place(r1, w, h, key, frame, evicted);
                    if r.is_some() {
                        proof {
                            lemma_evicted_child(f0, s0, f, s, ev0, evicted@);
                        }
                        return (make_branch(axis, split, extent, f, s, frame), r);
                    }
                    let (s, r) = s.place(r2, w, h, key, frame, evicted);
                    if r.is_some() {
                        proof {
                            lemma_evicted_child(f0, s0, f, s, ev0, evicted@);
                        }
                        return (make_branch(axis, split, extent, f, s, frame), r);
                    }
                    Node {
                        kind: NodeKind::Branch {
                            axis,
                            split,
                            extent,
                            first: Box::new(f),
                            second: Box::new(s),
                        },
                        age,
                        avg_age,
                    }
                }
            },
            other => Node { kind: other, age, avg_age },
        };
        if node.age == frame {
            (node, None)
        } else {
            node.keys_of(evicted);
            proof {
                lemma_keys_in(node);
                lemma_carve(region, w, h, *key, frame);
                assert forall|k: GlyphId| #[trigger]
                    evicted@.contains(k) <==> ev0.contains(k) || (cache(node).contains_key(k)
                        && !cache(carve(region, w, h, *key, frame)).contains_key(k)) by {
                    lemma_concat_contains(ev0, keys_in(node), k);
                }
            }
            (carve_node(region, w, h, *key, frame), Some(Rect { x: region.x, y: region.y, w, h }))
        }
    }
}

/// A fixed-size canvas packed with glyph rectangles, evicting the least
/// recently used subtrees when it fills up.
pub struct Atlas {
    width: u32,
    height: u32,
    root: Node,
    frame: u64,
    index: HashMap<u128, (GlyphId, Rect)>,
}

impl Atlas {
    /// The partition of the whole canvas.
    pub closed spec fn root(&self) -> Node {
        self.root
    }

    /// The frame counter: the number of frames begun so far.
    pub closed spec fn frame(&self) -> u64 {
        self.frame
    }

    /// The whole canvas as a rectangle at the origin.
    pub closed spec fn canvas(&self) -> Rect {
        Rect { x: 0, y: 0, w: self.width, h: self.height }
    }

    /// The same atlas with its partition replaced.
    pub closed spec fn with_root(&self, root: Node) -> Atlas {
        Atlas { root, ..*self }
    }

    /// The same atlas in another frame.
    pub closed spec fn with_frame(&self, frame: u64) -> Atlas {
        Atlas { frame, ..*self }
    }

    /// The cached glyphs and their rectangles.
    pub open spec fn cached(&self) -> Map<GlyphId, Rect> {
        cache(self.root())
    }

    /// The cached glyphs touched in the current frame.
    pub open spec fn used(&self) -> Set<GlyphId> {
        used_in(self.root(), self.frame())
    }

    /// The partition covers the canvas and nothing in it is more recent than
    /// the current frame.
    pub open spec fn tree_inv(&self) -> bool {
        &&& wf(self.root(), self.canvas())
        &&& self.root().age <= self.frame()
        &&& self.canvas().x == 0
        &&& self.canvas().y == 0
    }

    /// The index holds, under its key's code, each cached glyph with its
    /// rectangle, and nothing else.
    pub closed spec fn index_inv(&self) -> bool {
        &&& forall|k: GlyphId| #[trigger]
            cache(self.root).contains_key(k) ==> self.index@.contains_key(key_code(k))
                && self.index@[key_code(k)] == (k, cache(self.root)[k])
        &&& forall|c: u128| #[trigger]
            self.index@.contains_key(c) ==> cache(self.root).contains_key(self.index@[c].0)
                && key_code(self.index@[c].0) == c
    }

    /// The atlas's invariant.
    pub open spec fn inv(&self) -> bool {
        self.tree_inv() && self.index_inv()
    }

    /// The partition after a lookup of `key`, and the rectangle found.
    pub open spec fn lookup_model(&self, key: GlyphId) -> (Node, Option<Rect>) {
        if self.cached().contains_key(key) {
            (touch(self.root(), key, self.frame()), Some(self.cached()[key]))
        } else {
            (self.root(), None)
        }
    }

    /// The partition after an insertion of a `w` x `h` glyph for `key`, and the
    /// rectangle handed out. A glyph larger than the canvas is refused; a glyph
    /// already cached is looked up, and refused if its size differs.
    pub open spec fn insert_model(&self, key: GlyphId, w: u32, h: u32) -> (Node, Option<Rect>) {
        if w > self.canvas().w || h > self.canvas().h {
            (self.root(), None)
        } else if self.cached().contains_key(key) {
            if self.cached()[key].w == w && self.cached()[key].h == h {
                self.lookup_model(key)
            } else {
                (self.root(), None)
            }
        } else {
            match place(self.root(), self.canvas(), w, h, key, self.frame()) {
                Some((n, r)) => (n, Some(r)),
                None => (self.root(), None),
            }
        }
    }

    /// An empty atlas over a `width` x `height` canvas.
    pub fn new(width: u32, height: u32) -> (a: Atlas)
        ensures
            a.inv(),
            a.canvas() == (Rect { x: 0, y: 0, w: width, h: height }),
            a.frame() == 0,
            a.root() == empty_node(),
            a.cached() == Map::<GlyphId, Rect>::empty(),
    {
        let a = Atlas { width, height, root: Node::empty(), frame: 0, index: HashMap::new() };
        assert(a.cached() =~= Map::<GlyphId, Rect>::empty());
        a
    }

    /// The canvas width in pixels.
    pub fn width(&self) -> (r: u32)
        ensures
            r == self.canvas().w,
    {
        self.width
    }

    /// The canvas height in pixels.
    pub fn height(&self) -> (r: u32)
        ensures
            r == self.canvas().h,
    {
        self.height
    }

    /// The current frame counter.
    pub fn frame_counter(&self) -> (r: u64)
        ensures
            r == self.frame(),
    {
        self.frame
    }

    /// Opens a new frame: nothing cached counts as used any more.
    pub fn begin_frame(&mut self)
        requires
            old(self).inv(),
            old(self).frame() < u64::MAX,
        ensures
            final(self).inv(),
            *final(self) == old(self).with_frame((old(self).frame() + 1) as u64),
            final(self).frame() == old(self).frame() + 1,
            final(self).root() == old(self).root(),
            final(self).cached() == old(self).cached(),
            final(self).used() == Set::<GlyphId>::empty(),
    {
        self.frame = self.frame + 1;
        proof {
            lemma_unused_below(self.root, self.canvas(), self.frame);
        }
    }

    /// The rectangle of `key` in the index, if it is cached.
    fn indexed(&self, key: &GlyphId) -> (r: Option<Rect>)
        requires
            self.index_inv(),
        ensures
            r == (if self.cached().contains_key(*key) {
                Some(self.cached()[*key])
            } else {
                None
            }),
    {
        let code = key_code_of(key);
        match self.index.get(&code) {
            Some(entry) => {
                proof {
                    lemma_key_code_injective(entry.0, *key);
                }
                Some(entry.1)
            },
            None => None,
        }
    }

    fn take_root(&mut self) -> (n: Node)
        ensures
            n == old(self).root(),
            *final(self) == old(self).with_root(empty_node()),
    {
        let mut n = Node::empty();
        std::mem::swap(&mut n, &mut self.root);
        n
    }

    /// The rectangle of `key` if it is cached, marking it used in this frame.
    pub fn lookup(&mut self, key: GlyphId) -> (r: Option<Rect>)
        requires
            old(self).inv(),
        ensures
            final(self).inv(),
            *final(self) == old(self).with_root(old(self).lookup_model(key).0),
            r == old(self).lookup_model(key).1,
            final(self).cached() == old(self).cached(),
            r == (if old(self).cached().contains_key(key) {
                Some(old(self).cached()[key])
            } else {
                None
            }),
            r is Some ==> final(self).used() == old(self).used().insert(key),
    {
        let ghost a = *self;
        let r = self.indexed(&key);
        match r {
            Some(rect) => {
                let root = self.take_root();
                proof {
                    lemma_touch(root, a.canvas(), key, a.frame());
                }
                let (root, _) = root.touch(
                    &key,
                    rect,
                    self.frame,
                    Rect { x: 0, y: 0, w: self.width, h: self.height },
                );
                self.root = root;
            },
            None => {},
        }
        r
    }

    /// Places a `width` x `height` glyph for `key` and returns its rectangle,
    /// or `None` when there is no room: the glyph is larger than the canvas, or
    /// every region large enough holds something used in this frame. A glyph
    /// already cached at that size is looked up instead; at another size it is
    /// refused.
    pub fn insert(&mut self, key: GlyphId, width: u32, height: u32) -> (r: Option<Rect>)
        requires
            old(self).inv(),
        ensures
            final(self).inv(),
            final(self).root() == old(self).insert_model(key, width, height).0,
            r == old(self).insert_model(key, width, height).1,
            final(self).frame() == old(self).frame(),
            final(self).canvas() == old(self).canvas(),
            width > old(self).canvas().w || height > old(self).canvas().h ==> r is None
                && *final(self) == *old(self),
            r is Some ==> {
                &&& r->0.w == width
                &&& r->0.h == height
                &&& inside(r->0, old(self).canvas())
                &&& final(self).cached().contains_key(key)
                &&& final(self).cached()[key] == r->0
                &&& final(self).used().contains(key)
            },
            forall|k: GlyphId| #[trigger]
                old(self).used().contains(k) ==> final(self).used().contains(k)
                    && final(self).cached().contains_key(k) && final(self).cached()[k] == old(
                    self,
                ).cached()[k],
    {
        let ghost a = *self;
        proof {
            lemma_insert(a, key, width, height);
        }
        if width > self.width || height > self.height {
            return None;
        }
        match self.indexed(&key) {
            Some(rect) => {
                if rect.w == width && rect.h == height {
                    self.lookup(key)
                } else {
                    None
                }
            },
            None => {
                let root = self.take_root();
                let mut evicted: Vec<GlyphId> = Vec::new();
                let (root, r) = root.place(
                    Rect { x: 0, y: 0, w: self.width, h: self.height },
                    width,
                    height,
                    &key,
                    self.frame,
                    &mut evicted,
                );
                self.root = root;
                match r {
                    Some(rect) => {
                        proof {
                            lemma_place(a.root(), a.canvas(), width, height, key, a.frame());
                        }
                        self.reindex(&evicted, key, rect, Ghost(a));
                    },
                    None => {},
                }
                r
            },
        }
    }

    /// Brings the index up to date after `key` was placed at `rect` and the
    /// glyphs in `evicted` were evicted from the partition `before` had.
    fn reindex(&mut self, evicted: &Vec<GlyphId>, key: GlyphId, rect: Rect, Ghost(before): Ghost<
        Atlas,
    >)
        requires
            before.index_inv(),
            old(self).index == before.index,
            !cache(before.root).contains_key(key),
            placed(
                before.root,
                old(self).root,
                before.canvas(),
                rect,
                key,
                rect.w,
                rect.h,
                before.frame,
            ),
            forall|k: GlyphId| #[trigger]
                evicted@.contains(k) <==> cache(before.root).contains_key(k) && !cache(
                    old(self).root,
                ).contains_key(k),
        ensures
            final(self).index_inv(),
            final(self).root == old(self).root,
            final(self).frame == old(self).frame,
            final(self).width == old(self).width,
            final(self).height == old(self).height,
    {
        let ghost old_cache = cache(before.root);
        let ghost new_cache = cache(self.root);
        let mut i: usize = 0;
        while i < evicted.len()
            invariant
                i <= evicted@.len(),
                self.root == old(self).root,
                self.frame == old(self).frame,
                self.width == old(self).width,
                self.height == old(self).height,
                old_cache == cache(before.root),
                new_cache == cache(self.root),
                forall|k: GlyphId| #[trigger]
                    evicted@.contains(k) <==> old_cache.contains_key(k) && !new_cache.contains_key(k),
                forall|k: GlyphId| #[trigger]
                    new_cache.contains_key(k) && k != key ==> old_cache.contains_key(k) && new_cache[k]
                        == old_cache[k],
                forall|k: GlyphId| #[trigger]
                    new_cache.contains_key(k) && k != key ==> self.index@.contains_key(key_code(k))
                        && self.index@[key_code(k)] == (k, new_cache[k]),
                forall|c: u128| #[trigger]
                    self.index@.contains_key(c) ==> old_cache.contains_key(self.index@[c].0)
                        && key_code(self.index@[c].0) == c,
                forall|j: int|
                    0 <= j < i ==> !self.index@.contains_key(#[trigger] key_code(evicted@[j])),
            decreases evicted@.len() - i,
        {
            let gone = evicted[i];
            let code = key_code_of(&gone);
            self.index.remove(&code);
            proof {
                assert forall|k: GlyphId| #[trigger]
                    new_cache.contains_key(k) && k != key implies self.index@.contains_key(
                    key_code(k),
                ) && self.index@[key_code(k)] == (k, new_cache[k]) by {
                    assert(evicted@.contains(gone));
                    if key_code(k) == code {
                        lemma_key_code_injective(k, gone);
                    }
                }
            }
            i = i + 1;
        }
        let code = key_code_of(&key);
        self.index.insert(code, (key, rect));
        proof {
            assert forall|c: u128| #[trigger] self.index@.contains_key(c) implies new_cache.contains_key(
                self.index@[c].0,
            ) && key_code(self.index@[c].0) == c by {
                if c != code {
                    let k = self.index@[c].0;
                    if !new_cache.contains_key(k) {
                        assert(evicted@.contains(k));
                        let j = choose|j: int| 0 <= j < evicted@.len() && evicted@[j] == k;
                        assert(!self.index@.contains_key(key_code(evicted@[j])));
                    }
                }
            }
            assert forall|k: GlyphId| #[trigger] new_cache.contains_key(k) implies self.index@.contains_key(
                key_code(k),
            ) && self.index@[key_code(k)] == (k, new_cache[k]) by {
                if k != key && key_code(k) == code {
                    lemma_key_code_injective(k, key);
                }
            }
        }
    }
}

/// What an insertion guarantees of the atlas after it.
proof fn lemma_insert(a: Atlas, key: GlyphId, w: u32, h: u32)
    requires
        a.tree_inv(),
    ensures
        ({
            let (n, r) = a.insert_model(key, w, h);
            let b = a.with_root(n);
            &&& b.tree_inv()
            &&& b.frame() == a.frame()
            &&& b.canvas() == a.canvas()
            &&& r is Some ==> {
                &&& r->0.w == w
                &&& r->0.h == h
                &&& inside(r->0, a.canvas())
                &&& b.cached().contains_key(key)
                &&& b.cached()[key] == r->0
                &&& b.used().contains(key)
            }
            &&& forall|k: GlyphId| #[trigger]
                a.used().contains(k) ==> b.used().contains(k) && b.cached().contains_key(k)
                    && b.cached()[k] == a.cached()[k]
        }),
{
    let root = a.root();
    let c = a.canvas();
    let f = a.frame();
    lemma_used_cached(root, f);
    if w > c.w || h > c.h {
    } else if a.cached().contains_key(key) {
        lemma_touch(root, c, key, f);
        lemma_cache_inside(root, c);
    } else {
        lemma_place(root, c, w, h, key, f);
    }
}

/// A glyph inserted in a frame is found, at the same rectangle, by a lookup
/// right after, and counts as used in that frame.
pub proof fn lemma_insert_then_lookup(a: Atlas, key: GlyphId, w: u32, h: u32)
    requires
        a.tree_inv(),
    ensures
        ({
            let (n, r) = a.insert_model(key, w, h);
            let b = a.with_root(n);
            r is Some ==> b.lookup_model(key).1 == r && b.used().contains(key)
        }),
{
    lemma_insert(a, key, w, h);
}

/// Within one frame, a glyph once inserted is never evicted by a later
/// insertion: it stays cached at the same rectangle.
pub proof fn lemma_no_self_eviction(
    a: Atlas,
    key: GlyphId,
    w: u32,
    h: u32,
    other: GlyphId,
    ow: u32,
    oh: u32,
)
    requires
        a.tree_inv(),
        a.insert_model(key, w, h).1 is Some,
    ensures
        ({
            let b = a.with_root(a.insert_model(key, w, h).0);
            let c = b.with_root(b.insert_model(other, ow, oh).0);
            &&& c.cached().contains_key(key)
            &&& c.cached()[key] == b.cached()[key]
            &&& c.cached()[key] == a.insert_model(key, w, h).1->0
        }),
{
    lemma_insert(a, key, w, h);
    let b = a.with_root(a.insert_model(key, w, h).0);
    lemma_insert(b, other, ow, oh);
    assert(b.used().contains(key));
}

/// The rectangles of the cached glyphs lie inside the canvas and never
/// overlap one another.
pub proof fn lemma_cached_rects_disjoint(a: Atlas)
    requires
        a.tree_inv(),
    ensures
        forall|k: GlyphId| #[trigger]
            a.cached().contains_key(k) ==> inside(a.cached()[k], a.canvas()),
        forall|k1: GlyphId, k2: GlyphId|
            #![trigger a.cached()[k1], a.cached()[k2]]
            a.cached().contains_key(k1) && a.cached().contains_key(k2) && k1 != k2 ==> !overlap(
                a.cached()[k1],
                a.cached()[k2],
            ),
{
    lemma_cache_inside(a.root(), a.canvas());
    lemma_cache_disjoint(a.root(), a.canvas());
}

/// A glyph wider or taller than the canvas is refused and changes nothing.
pub proof fn lemma_oversized_refused(a: Atlas, key: GlyphId, w: u32, h: u32)
    requires
        w > a.canvas().w || h > a.canvas().h,
    ensures
        a.insert_model(key, w, h) == (a.root(), None::<Rect>),
        a.with_root(a.insert_model(key, w, h).0) == a,
{
}

/// Placement searches the staler child of a branch first: when the child
/// with the lower `avg_age` (the first one on a tie) has room, the glyph goes
/// there and the fresher child is left exactly as it was.
pub proof fn lemma_staler_subtree_first(
    n: Node,
    region: Rect,
    w: u32,
    h: u32,
    key: GlyphId,
    frame: u64,
)
    requires
        n.kind is Branch,
        w <= region.w,
        h <= region.h,
        ({
            let f = *n.kind->first;
            let s = *n.kind->second;
            let r1 = first_region(region, n.kind->axis, n.kind->split);
            let r2 = second_region(region, n.kind->axis, n.kind->split);
            if s.avg_age < f.avg_age {
                place(s, r2, w, h, key, frame) is Some
            } else {
                place(f, r1, w, h, key, frame) is Some
            }
        }),
    ensures
        ({
            let f = *n.kind->first;
            let s = *n.kind->second;
            let res = place(n, region, w, h, key, frame);
            let (placed_node, _) = res->0;
            &&& res is Some
            &&& placed_node.kind is Branch
            &&& if s.avg_age < f.avg_age {
                *placed_node.kind->first == f
            } else {
                *placed_node.kind->second == s
            }
        }),
{
}

} // verus!
