use gouache::atlas::{Atlas, GlyphId, Rect};

fn key(glyph: u16) -> GlyphId {
    GlyphId { font: 0, scale: 14, glyph }
}

fn overlap(a: Rect, b: Rect) -> bool {
    a.x < b.x + b.w && b.x < a.x + a.w && a.y < b.y + b.h && b.y < a.y + a.h
}

#[test]
fn first_insert_is_at_origin() {
    let mut atlas = Atlas::new(128, 128);
    atlas.begin_frame();
    let r = atlas.insert(key(1), 10, 12);
    assert_eq!(r, Some(Rect { x: 0, y: 0, w: 10, h: 12 }));
}

#[test]
fn two_inserts_do_not_overlap() {
    let mut atlas = Atlas::new(128, 128);
    atlas.begin_frame();
    let a = atlas.insert(key(1), 10, 12).unwrap();
    let b = atlas.insert(key(2), 30, 7).unwrap();
    assert!(!overlap(a, b));
    for r in [a, b] {
        assert!(r.x + r.w <= 128 && r.y + r.h <= 128);
    }
    assert_eq!((b.w, b.h), (30, 7));
}

#[test]
fn insert_then_lookup_same_rect() {
    let mut atlas = Atlas::new(64, 64);
    atlas.begin_frame();
    let r = atlas.insert(key(7), 5, 9);
    assert!(r.is_some());
    assert_eq!(atlas.lookup(key(7)), r);
    assert_eq!(atlas.lookup(key(8)), None);
}

#[test]
fn oversized_request_is_refused() {
    let mut atlas = Atlas::new(128, 64);
    atlas.begin_frame();
    let a = atlas.insert(key(1), 8, 8);
    assert_eq!(atlas.insert(key(2), 129, 1), None);
    assert_eq!(atlas.insert(key(3), 1, 65), None);
    assert_eq!(atlas.insert(key(4), u32::MAX, u32::MAX), None);
    assert_eq!(atlas.lookup(key(1)), a);
    assert_eq!(atlas.lookup(key(2)), None);
    let b = atlas.insert(key(5), 8, 8).unwrap();
    assert_eq!((b.w, b.h), (8, 8));
}

#[test]
fn canvas_sized_request_fits_empty_atlas() {
    let mut atlas = Atlas::new(128, 64);
    atlas.begin_frame();
    assert_eq!(atlas.insert(key(1), 128, 64), Some(Rect { x: 0, y: 0, w: 128, h: 64 }));
    assert_eq!(atlas.insert(key(2), 1, 1), None);
}

#[test]
fn no_self_eviction_within_frame() {
    let mut atlas = Atlas::new(32, 32);
    atlas.begin_frame();
    let mut rects = Vec::new();
    for g in 0..4 {
        rects.push(atlas.insert(key(g), 16, 16).unwrap());
    }
    // The canvas is full of glyphs used in this frame: no room, nothing lost.
    assert_eq!(atlas.insert(key(9), 16, 16), None);
    assert_eq!(atlas.insert(key(10), 1, 1), None);
    for g in 0..4 {
        assert_eq!(atlas.lookup(key(g)), Some(rects[g as usize]));
    }
    for i in 0..4 {
        for j in 0..4 {
            if i != j {
                assert!(!overlap(rects[i], rects[j]));
            }
        }
    }
}

#[test]
fn next_frame_evicts_stale_glyphs() {
    let mut atlas = Atlas::new(32, 32);
    atlas.begin_frame();
    for g in 0..4 {
        atlas.insert(key(g), 16, 16).unwrap();
    }
    atlas.begin_frame();
    let r = atlas.insert(key(9), 16, 16);
    assert!(r.is_some());
    assert_eq!(atlas.lookup(key(9)), r);
}

#[test]
fn eviction_prefers_least_recently_used() {
    let mut atlas = Atlas::new(32, 32);
    atlas.begin_frame();
    let a1 = atlas.insert(key(1), 16, 16).unwrap();
    let b1 = atlas.insert(key(2), 16, 16).unwrap();
    let a2 = atlas.insert(key(3), 16, 16).unwrap();
    let b2 = atlas.insert(key(4), 16, 16).unwrap();
    assert_eq!(a1, Rect { x: 0, y: 0, w: 16, h: 16 });
    assert_eq!(b1, Rect { x: 0, y: 16, w: 16, h: 16 });
    assert_eq!(a2, Rect { x: 16, y: 0, w: 16, h: 16 });
    assert_eq!(b2, Rect { x: 16, y: 16, w: 16, h: 16 });
    for _ in 2..=5 {
        atlas.begin_frame();
        assert_eq!(atlas.lookup(key(1)), Some(a1));
        assert_eq!(atlas.lookup(key(3)), Some(a2));
    }
    atlas.begin_frame();
    assert_eq!(atlas.frame_counter(), 6);
    let c = atlas.insert(key(5), 16, 16);
    assert_eq!(c, Some(b1));
    assert_eq!(atlas.lookup(key(2)), None);
    assert_eq!(atlas.lookup(key(1)), Some(a1));
    assert_eq!(atlas.lookup(key(3)), Some(a2));
    // A second request evicts the other stale glyph, not a recent one.
    let d = atlas.insert(key(6), 16, 16);
    assert_eq!(d, Some(b2));
    assert_eq!(atlas.lookup(key(4)), None);
    assert_eq!(atlas.lookup(key(1)), Some(a1));
}

#[test]
fn reinserting_cached_glyph() {
    let mut atlas = Atlas::new(64, 64);
    atlas.begin_frame();
    let r = atlas.insert(key(1), 4, 4);
    assert_eq!(atlas.insert(key(1), 4, 4), r);
    assert_eq!(atlas.insert(key(1), 5, 4), None);
    assert_eq!(atlas.lookup(key(1)), r);
}

#[test]
fn empty_glyph_is_cached() {
    let mut atlas = Atlas::new(16, 16);
    atlas.begin_frame();
    let r = atlas.insert(key(1), 0, 0);
    assert_eq!(r, Some(Rect { x: 0, y: 0, w: 0, h: 0 }));
    assert_eq!(atlas.lookup(key(1)), r);
    let s = atlas.insert(key(2), 15, 15).unwrap();
    assert_eq!((s.w, s.h), (15, 15));
}

#[test]
fn keys_differ_by_every_field() {
    let mut atlas = Atlas::new(64, 64);
    atlas.begin_frame();
    let a = GlyphId { font: 0, scale: 14, glyph: 1 };
    let b = GlyphId { font: 1, scale: 14, glyph: 1 };
    let c = GlyphId { font: 0, scale: 15, glyph: 1 };
    let ra = atlas.insert(a, 3, 3).unwrap();
    let rb = atlas.insert(b, 3, 3).unwrap();
    let rc = atlas.insert(c, 3, 3).unwrap();
    assert!(!overlap(ra, rb) && !overlap(ra, rc) && !overlap(rb, rc));
    assert_eq!(atlas.lookup(b), Some(rb));
}

#[test]
fn many_glyphs_stay_disjoint_and_inside() {
    let mut atlas = Atlas::new(256, 256);
    let mut live: Vec<(GlyphId, Rect)> = Vec::new();
    for frame in 0..6u16 {
        atlas.begin_frame();
        for g in 0..40u16 {
            let k = key(frame * 13 + g);
            let w = (g as u32 * 7) % 23 + 1;
            let h = (g as u32 * 5) % 19 + 1;
            let r = match atlas.lookup(k) {
                Some(r) => Some(r),
                None => atlas.insert(k, w, h),
            };
            if let Some(r) = r {
                assert!(r.x + r.w <= 256 && r.y + r.h <= 256);
                live.retain(|(k2, _)| *k2 != k);
                live.push((k, r));
            }
        }
        live.retain(|(k, r)| atlas.lookup(*k) == Some(*r));
        for i in 0..live.len() {
            for j in 0..live.len() {
                if i != j {
                    assert!(!overlap(live[i].1, live[j].1));
                }
            }
        }
    }
    assert_eq!(atlas.width(), 256);
    assert_eq!(atlas.height(), 256);
}
