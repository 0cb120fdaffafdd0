//! Compositing a page layer: an RGBA overlay alpha-blended onto an RGB
//! page, both as raw row-major pixel buffers.
use vstd::prelude::*;

verus! {

/// One channel of an overlay pixel with alpha `a` over a page value `d`:
/// transparent keeps the page, opaque takes the overlay, otherwise the
/// weighted mean rounded down.
pub open spec fn blend(o: u8, a: u8, d: u8) -> u8 {
    if a == 0 {
        d
    } else if a == 255 {
        o
    } else {
        ((o as int * a as int + d as int * (255 - a as int)) / 255) as u8
    }
}

/// Channel `c` of the page at `(x, y)`; black outside the page.
pub open spec fn base_at(base: Seq<u8>, bw: int, bh: int, x: int, y: int, c: int) -> u8 {
    if x < bw && y < bh {
        base[(y * bw + x) * 3 + c]
    } else {
        0
    }
}

/// Channel `c` at `(x, y)` of the composite.
pub open spec fn merged_at(base: Seq<u8>, bw: int, bh: int, ov: Seq<u8>, ow: int, oh: int, x: int, y: int, c: int) -> u8 {
    if x < ow && y < oh {
        blend(ov[(y * ow + x) * 4 + c], ov[(y * ow + x) * 4 + 3], base_at(base, bw, bh, x, y, c))
    } else {
        base_at(base, bw, bh, x, y, c)
    }
}

/// Composite size: the larger of the two in each direction.
pub open spec fn max_u32(a: u32, b: u32) -> u32 {
    if a >= b {
        a
    } else {
        b
    }
}

/// Inputs that can be merged: buffers of the sizes their dimensions give,
/// and a composite that fits in memory.
pub open spec fn overlay_inputs_ok(base: Seq<u8>, bw: u32, bh: u32, ov: Seq<u8>, ow: u32, oh: u32) -> bool {
    &&& base.len() == bw as int * bh as int * 3
    &&& ov.len() == ow as int * oh as int * 4
    &&& max_u32(bw, ow) as int * max_u32(bh, oh) as int * 3 <= usize::MAX
}

proof fn lemma_index_bounds(x: int, y: int, c: int, w: int, h: int, k: int)
    requires
        0 <= x < w,
        0 <= y < h,
        0 <= c < k,
    ensures
        0 <= y * w,
        y * w + x < w * h,
        0 <= (y * w + x) * k,
        (y * w + x) * k + c < w * h * k,
{
    assert(0 <= y * w) by (nonlinear_arith)
        requires
            0 <= y,
            0 <= x < w,
    ;
    assert(0 <= (y * w + x) * k) by (nonlinear_arith)
        requires
            0 <= y * w + x,
            0 <= c < k,
    ;
    assert(y * w + x < w * h) by (nonlinear_arith)
        requires
            0 <= x < w,
            0 <= y < h,
    ;
    assert((y * w + x) * k + c < w * h * k) by (nonlinear_arith)
        requires
            y * w + x < w * h,
            0 <= c < k,
            0 <= y * w + x,
    ;
    assert(0 <= (y * w + x) * k + c) by (nonlinear_arith)
        requires
            0 <= x,
            0 <= y,
            0 <= w,
            0 <= c,
            0 <= k,
    ;
}

/// Alpha-blend an RGBA overlay (`ow` x `oh`) onto an RGB page (`bw` x
/// `bh`); the result is as large as both (grown parts of the page black)
/// and row-major, three bytes a pixel.
pub fn merge_overlay(base: &[u8], bw: u32, bh: u32, overlay_rgba: &[u8], ow: u32, oh: u32) -> (r: Vec<u8>)
    requires
        overlay_inputs_ok(base@, bw, bh, overlay_rgba@, ow, oh),
    ensures
        r@.len() == max_u32(bw, ow) as int * max_u32(bh, oh) as int * 3,
        forall|i: int|
            0 <= i < r@.len() ==> #[trigger] r@[i] == merged_at(
                base@,
                bw as int,
                bh as int,
                overlay_rgba@,
                ow as int,
                oh as int,
                (i / 3) % (max_u32(bw, ow) as int),
                (i / 3) / (max_u32(bw, ow) as int),
                i % 3,
            ),
{
    let out_w: u32 = if bw >= ow {
        bw
    } else {
        ow
    };
    let out_h: u32 = if bh >= oh {
        bh
    } else {
        oh
    };
    let w = out_w as usize;
    let bwu = bw as usize;
    let bhu = bh as usize;
    let owu = ow as usize;
    let ohu = oh as usize;
    let total: usize = (out_w as usize) * (out_h as usize) * 3;
    let mut out: Vec<u8> = Vec::new();
    let mut i: usize = 0;
    while i < total
        invariant
            i <= total,
            total == out_w as int * out_h as int * 3,
            w == out_w,
            out_w == max_u32(bw, ow),
            out_h == max_u32(bh, oh),
            bwu == bw,
            bhu == bh,
            owu == ow,
            ohu == oh,
            overlay_inputs_ok(base@, bw, bh, overlay_rgba@, ow, oh),
            out@.len() == i,
            forall|k: int|
                0 <= k < i ==> #[trigger] out@[k] == merged_at(
                    base@,
                    bw as int,
                    bh as int,
                    overlay_rgba@,
                    ow as int,
                    oh as int,
                    (k / 3) % (out_w as int),
                    (k / 3) / (out_w as int),
                    k % 3,
                ),
        decreases total - i,
    {
        assert(out_w > 0) by (nonlinear_arith)
            requires
                i < total,
                total == out_w as int * out_h as int * 3,
        ;
        let p = i / 3;
        let c = i % 3;
        let x = p % w;
        let y = p / w;
        assert(y < out_h) by (nonlinear_arith)
            requires
                i < out_w as int * out_h as int * 3,
                p as int == i as int / 3,
                y as int == p as int / (out_w as int),
                out_w > 0,
        ;
        assert(base@.len() == base.len());
        assert(overlay_rgba@.len() == overlay_rgba.len());
        let d: u8 = if x < bwu && y < bhu {
            proof {
                lemma_index_bounds(x as int, y as int, c as int, bw as int, bh as int, 3);
            }
            base[(y * bwu + x) * 3 + c]
        } else {
            0
        };
        let v: u8 = if x < owu && y < ohu {
            proof {
                lemma_index_bounds(x as int, y as int, c as int, ow as int, oh as int, 4);
                lemma_index_bounds(x as int, y as int, 3, ow as int, oh as int, 4);
            }
            let at = (y * owu + x) * 4;
            let a = overlay_rgba[at + 3];
            let o = overlay_rgba[at + c];
            if a == 0 {
                d
            } else if a == 255 {
                o
            } else {
                let inv = 255 - a as u32;
                assert((o as u32) * (a as u32) + (d as u32) * inv <= 255 * 255) by (nonlinear_arith)
                    requires
                        a <= 255,
                        inv == 255 - a,
                        o <= 255,
                        d <= 255,
                ;
                (((o as u32) * (a as u32) + (d as u32) * inv) / 255) as u8
            }
        } else {
            d
        };
        out.push(v);
        i = i + 1;
    }
    out
}

/// Where the overlay is opaque the composite shows the overlay, where it
/// is fully transparent it shows the page.
pub proof fn law_overlay_alpha_extremes(base: Seq<u8>, bw: int, bh: int, ov: Seq<u8>, ow: int, oh: int, x: int, y: int, c: int)
    requires
        0 <= x < ow,
        0 <= y < oh,
    ensures
        ov[(y * ow + x) * 4 + 3] == 255 ==> merged_at(base, bw, bh, ov, ow, oh, x, y, c) == ov[(y * ow + x) * 4 + c],
        ov[(y * ow + x) * 4 + 3] == 0 ==> merged_at(base, bw, bh, ov, ow, oh, x, y, c) == base_at(base, bw, bh, x, y, c),
{
}

} // verus!
