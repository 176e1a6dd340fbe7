//! Halving a screen capture for the recorded animation.
//!
//! A capture is `w` by `h` pixels of four bytes each (red, green, blue,
//! alpha), stored bottom row first. The half-size frame averages each two
//! by two block and is stored top row first.
use vstd::prelude::*;
use vstd::arithmetic::div_mod::lemma_fundamental_div_mod_converse;

verus! {

/// Channel `c` of pixel `(x, y)` of a capture `w` pixels wide.
pub open spec fn texel(b: Seq<u8>, w: int, x: int, y: int, c: int) -> int {
    b[(y * w + x) * 4 + c] as int
}

/// Channel `c` of pixel `(x, y)` of the half-size frame: the average,
/// rounded down, of the block of the capture at columns `2x`, `2x + 1`
/// and rows `h - 2 - 2y`, `h - 1 - 2y`.
pub open spec fn block_avg(b: Seq<u8>, w: int, h: int, x: int, y: int, c: int) -> u8 {
    let sy = h - 2 - 2 * y;
    ((texel(b, w, 2 * x, sy, c) + texel(b, w, 2 * x + 1, sy, c) + texel(b, w, 2 * x, sy + 1, c)
        + texel(b, w, 2 * x + 1, sy + 1, c)) / 4) as u8
}

/// The half-size frame, `w / 2` by `h / 2` pixels, row after row.
pub open spec fn downscaled(b: Seq<u8>, w: int, h: int) -> Seq<u8> {
    let nw = w / 2;
    let nh = h / 2;
    Seq::new(
        (nw * nh * 4) as nat,
        |i: int| block_avg(b, w, h, (i / 4) % nw, (i / 4) / nw, i % 4),
    )
}

/// One past the last byte of the capture that the halving reads.
pub open spec fn bytes_read(w: int, h: int) -> int {
    ((h - 1) * w + 2 * (w / 2)) * 4
}

/// The capture holds every byte that the halving reads, and every offset
/// of them fits in a `u32`. Nothing is read from a capture less than two
/// pixels wide or high.
pub open spec fn capture_fits(len: int, w: int, h: int) -> bool {
    w < 2 || h < 2 || (bytes_read(w, h) <= len && bytes_read(w, h) <= 0x1_0000_0000)
}

proof fn lemma_offset(w: int, h: int, x: int, y: int, dx: int, dy: int, c: int)
    requires
        w >= 2,
        h >= 2,
        0 <= x < w / 2,
        0 <= y < h / 2,
        0 <= dx <= 1,
        0 <= dy <= 1,
        0 <= c < 4,
    ensures
        0 <= ((h - 2 - 2 * y + dy) * w + 2 * x + dx) * 4 + c < bytes_read(w, h),
        0 <= (h - 2 - 2 * y + dy) * w + 2 * x + dx,
{
    let nw = w / 2;
    let r = h - 2 - 2 * y + dy;
    assert(0 <= r <= h - 1);
    assert(2 * x + dx <= 2 * nw - 1);
    assert(0 <= r * w <= (h - 1) * w) by (nonlinear_arith)
        requires
            0 <= r <= h - 1,
            w >= 0,
    ;
}

/// The capture `bytes`, `w` by `h` pixels stored bottom row first, halved
/// in each direction by averaging two by two blocks, top row first; with
/// the new width and height.
pub fn downscale_half(bytes: &[u8], w: u32, h: u32) -> (r: (Vec<u8>, u32, u32))
    requires
        capture_fits(bytes@.len() as int, w as int, h as int),
    ensures
        r.1 == w / 2,
        r.2 == h / 2,
        r.0@ == downscaled(bytes@, w as int, h as int),
        r.0@.len() == (w / 2) * (h / 2) * 4,
        forall|x: int, y: int, c: int|
            0 <= x < w / 2 && 0 <= y < h / 2 && 0 <= c < 4 ==> #[trigger] r.0@[(y * (w / 2) + x) * 4 + c]
                == ((bytes@[((h - 2 - 2 * y) * w + 2 * x) * 4 + c] + bytes@[((h - 2 - 2 * y) * w + 2 * x
                + 1) * 4 + c] + bytes@[((h - 1 - 2 * y) * w + 2 * x) * 4 + c] + bytes@[((h - 1 - 2 * y)
                * w + 2 * x + 1) * 4 + c]) / 4) as u8,
{
    let nw = w / 2;
    let nh = h / 2;
    let ghost gw = w as int;
    let ghost gh = h as int;
    let ghost gnw = nw as int;
    let ghost gnh = nh as int;
    let ghost target = downscaled(bytes@, gw, gh);
    let mut out: Vec<u8> = Vec::new();
    let mut y: u32 = 0;
    while y < nh
        invariant
            gw == w,
            gh == h,
            gnw == nw,
            gnh == nh,
            nw == w / 2,
            nh == h / 2,
            capture_fits(bytes@.len() as int, gw, gh),
            target == downscaled(bytes@, gw, gh),
            y <= nh,
            out@ == target.take(y * gnw * 4),
            y * gnw * 4 <= target.len(),
        decreases nh - y,
    {
        let sy = h - 2 - 2 * y;
        let mut x: u32 = 0;
        proof {
            assert((y + 1) * gnw * 4 == y * gnw * 4 + gnw * 4) by (nonlinear_arith);
            assert((y + 1) * gnw * 4 <= gnh * gnw * 4) by (nonlinear_arith)
                requires
                    y + 1 <= gnh,
                    gnw >= 0,
            ;
            assert(gnh * gnw * 4 == gnw * gnh * 4) by (nonlinear_arith);
        }
        while x < nw
            invariant
                gw == w,
                gh == h,
                gnw == nw,
                gnh == nh,
                nw == w / 2,
                nh == h / 2,
                capture_fits(bytes@.len() as int, gw, gh),
                target == downscaled(bytes@, gw, gh),
                y < nh,
                sy == h - 2 - 2 * y,
                x <= nw,
                out@ == target.take((y * gnw + x) * 4),
                y * gnw * 4 + gnw * 4 <= target.len(),
            decreases nw - x,
        {
            let mut c: u32 = 0;
            proof {
                assert((y * gnw + x) * 4 == y * gnw * 4 + x * 4) by (nonlinear_arith);
            }
            while c < 4
                invariant
                    gw == w,
                    gh == h,
                    gnw == nw,
                    gnh == nh,
                    nw == w / 2,
                    nh == h / 2,
                    capture_fits(bytes@.len() as int, gw, gh),
                    target == downscaled(bytes@, gw, gh),
                    y < nh,
                    x < nw,
                    sy == h - 2 - 2 * y,
                    c <= 4,
                    out@ == target.take((y * gnw + x) * 4 + c),
                    (y * gnw + x) * 4 + 4 <= target.len(),
                decreases 4 - c,
            {
                proof {
                    lemma_offset(gw, gh, x as int, y as int, 0, 0, c as int);
                    lemma_offset(gw, gh, x as int, y as int, 1, 0, c as int);
                    lemma_offset(gw, gh, x as int, y as int, 0, 1, c as int);
                    lemma_offset(gw, gh, x as int, y as int, 1, 1, c as int);
                }
                let a = bytes[((sy * w + 2 * x) * 4 + c) as usize] as u32;
                let b = bytes[((sy * w + 2 * x + 1) * 4 + c) as usize] as u32;
                let d = bytes[(((sy + 1) * w + 2 * x) * 4 + c) as usize] as u32;
                let e = bytes[(((sy + 1) * w + 2 * x + 1) * 4 + c) as usize] as u32;
                let s = a + b + d + e;
                let ghost i = (y * gnw + x) * 4 + c;
                proof {
                    lemma_fundamental_div_mod_converse(i, 4, y * gnw + x, c as int);
                    lemma_fundamental_div_mod_converse(y * gnw + x, gnw, y as int, x as int);
                    assert(target[i] == block_avg(bytes@, gw, gh, x as int, y as int, c as int));
                    assert((sy + 1) * gw == sy * gw + gw) by (nonlinear_arith);
                }
                out.push((s / 4) as u8);
                assert(out@ =~= target.take(i + 1));
                c = c + 1;
            }
            proof {
                assert((y * gnw + x + 1) * 4 == (y * gnw + x) * 4 + 4) by (nonlinear_arith);
            }
            x = x + 1;
        }
        proof {
            assert((y * gnw + gnw) * 4 == (y + 1) * gnw * 4) by (nonlinear_arith);
        }
        y = y + 1;
    }
    proof {
        assert(gnh * gnw * 4 == gnw * gnh * 4) by (nonlinear_arith);
    }
    assert(out@ =~= target);
    proof {
        assert forall|x: int, y: int, c: int|
            0 <= x < w / 2 && 0 <= y < h / 2 && 0 <= c < 4 implies #[trigger] out@[(y * (w / 2) + x) * 4
            + c] == ((bytes@[((h - 2 - 2 * y) * w + 2 * x) * 4 + c] + bytes@[((h - 2 - 2 * y) * w + 2
            * x + 1) * 4 + c] + bytes@[((h - 1 - 2 * y) * w + 2 * x) * 4 + c] + bytes@[((h - 1 - 2
            * y) * w + 2 * x + 1) * 4 + c]) / 4) as u8 by {
            lemma_downscale_pixel(bytes@, w as int, h as int, x, y, c);
        }
    }
    (out, nw, nh)
}

proof fn lemma_uniform_texel(b: Seq<u8>, w: int, h: int, x: int, y: int, dx: int, dy: int, c: int)
    requires
        w >= 2,
        h >= 2,
        0 <= x < w / 2,
        0 <= y < h / 2,
        0 <= dx <= 1,
        0 <= dy <= 1,
        0 <= c < 4,
        bytes_read(w, h) <= b.len(),
        forall|i: int| 0 <= i < b.len() ==> #[trigger] b[i] == b[i % 4],
    ensures
        texel(b, w, 2 * x + dx, h - 2 - 2 * y + dy, c) == b[c] as int,
{
    lemma_offset(w, h, x, y, dx, dy, c);
    let j = ((h - 2 - 2 * y + dy) * w + 2 * x + dx) * 4 + c;
    lemma_fundamental_div_mod_converse(j, 4, (h - 2 - 2 * y + dy) * w + 2 * x + dx, c);
    assert(b[j] == b[j % 4]);
}

/// A capture of one colour halves to a frame of that colour.
pub proof fn lemma_downscale_uniform(b: Seq<u8>, w: int, h: int)
    requires
        w >= 0,
        h >= 0,
        capture_fits(b.len() as int, w, h),
        b.len() >= 4,
        forall|i: int| 0 <= i < b.len() ==> #[trigger] b[i] == b[i % 4],
    ensures
        forall|i: int| 0 <= i < downscaled(b, w, h).len() ==> #[trigger] downscaled(b, w, h)[i] == b[i % 4],
{
    let nw = w / 2;
    let nh = h / 2;
    assert forall|i: int| 0 <= i < downscaled(b, w, h).len() implies #[trigger] downscaled(b, w, h)[i]
        == b[i % 4] by {
        let c = i % 4;
        let x = (i / 4) % nw;
        let y = (i / 4) / nw;
        assert(nw > 0 && nh > 0) by {
            if nw <= 0 || nh <= 0 {
                assert(nw * nh * 4 <= 0) by (nonlinear_arith)
                    requires
                        nw >= 0,
                        nh >= 0,
                        nw <= 0 || nh <= 0,
                ;
            }
        }
        assert(0 <= i / 4 < nw * nh) by (nonlinear_arith)
            requires
                0 <= i < nw * nh * 4,
        ;
        assert(0 <= y < nh) by {
            let k = i / 4;
            vstd::arithmetic::div_mod::lemma_div_pos_is_pos(k, nw);
            vstd::arithmetic::div_mod::lemma_fundamental_div_mod(k, nw);
            vstd::arithmetic::div_mod::lemma_mod_pos_bound(k, nw);
            if y >= nh {
                assert(nw * nh <= nw * y) by (nonlinear_arith)
                    requires
                        y >= nh,
                        nw > 0,
                ;
            }
        }
        vstd::arithmetic::div_mod::lemma_mod_pos_bound(i / 4, nw);
        vstd::arithmetic::div_mod::lemma_mod_pos_bound(i, 4);
        assert(0 <= x < nw);
        assert(0 <= c < 4);
        let sy = h - 2 - 2 * y;
        lemma_uniform_texel(b, w, h, x, y, 0, 0, c);
        lemma_uniform_texel(b, w, h, x, y, 1, 0, c);
        lemma_uniform_texel(b, w, h, x, y, 0, 1, c);
        lemma_uniform_texel(b, w, h, x, y, 1, 1, c);
        assert(texel(b, w, 2 * x, sy, c) == b[c] as int);
        assert(texel(b, w, 2 * x + 1, sy, c) == b[c] as int);
        assert(texel(b, w, 2 * x, sy + 1, c) == b[c] as int);
        assert(texel(b, w, 2 * x + 1, sy + 1, c) == b[c] as int);
        assert(b[c] == b[i % 4]);
    }
}

/// Channel `c` of pixel `(x, y)` of the half-size frame, counted top row
/// first, is the average, rounded down, of channel `c` of the capture's
/// pixels at columns `2x`, `2x + 1` of rows `h - 2 - 2y`, `h - 1 - 2y`
/// (rows counted bottom first).
pub proof fn lemma_downscale_pixel(b: Seq<u8>, w: int, h: int, x: int, y: int, c: int)
    requires
        0 <= x < w / 2,
        0 <= y < h / 2,
        0 <= c < 4,
    ensures
        0 <= (y * (w / 2) + x) * 4 + c < downscaled(b, w, h).len(),
        downscaled(b, w, h)[(y * (w / 2) + x) * 4 + c] == ((b[((h - 2 - 2 * y) * w + 2 * x) * 4 + c]
            + b[((h - 2 - 2 * y) * w + 2 * x + 1) * 4 + c] + b[((h - 1 - 2 * y) * w + 2 * x) * 4 + c]
            + b[((h - 1 - 2 * y) * w + 2 * x + 1) * 4 + c]) / 4) as u8,
{
    let nw = w / 2;
    let nh = h / 2;
    let i = (y * nw + x) * 4 + c;
    assert(0 <= y * nw + x < nw * nh) by (nonlinear_arith)
        requires
            0 <= x < nw,
            0 <= y < nh,
    {
        assert(y * nw + x < y * nw + nw);
        assert(y * nw + nw == (y + 1) * nw);
        assert((y + 1) * nw <= nh * nw);
    }
    assert(0 <= i < nw * nh * 4) by (nonlinear_arith)
        requires
            0 <= y * nw + x < nw * nh,
            i == (y * nw + x) * 4 + c,
            0 <= c < 4,
    ;
    lemma_fundamental_div_mod_converse(i, 4, y * nw + x, c);
    lemma_fundamental_div_mod_converse(y * nw + x, nw, y, x);
    assert(h - 2 - 2 * y + 1 == h - 1 - 2 * y);
}

} // verus!
