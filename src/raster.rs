//! The raster scanner: one top-to-bottom, left-to-right pass over an image buffer.
use vstd::prelude::*;
use vstd::arithmetic::div_mod::lemma_fundamental_div_mod_converse;
use crate::diffusion::{WEIGHT_DENOMINATOR, add_quant_error, calculate_quant_error, diffused, error_between, QuantError};
use crate::pixel::{find_closest_palette_color, is_quantized, quantized, Pixel};

verus! {

/// Weight, in sixteenths, of the error passed to `(x + 1, y)`.
pub const WEIGHT_RIGHT: u8 = 7;

/// Weight, in sixteenths, of the error passed to `(x - 1, y)`. That pixel has
/// already had its turn, so this share can move it off the palette.
pub const WEIGHT_LEFT: u8 = 3;

/// Weight, in sixteenths, of the error passed to `(x, y + 1)`.
pub const WEIGHT_BELOW: u8 = 5;

/// Weight, in sixteenths, of the error passed to `(x + 1, y + 1)`.
pub const WEIGHT_BELOW_RIGHT: u8 = 1;

/// Position of `(x, y)` in a row-major buffer of rows `w` pixels wide.
pub open spec fn index_of(w: int, x: int, y: int) -> int {
    y * w + x
}

/// The neighbours `(x, y, weight)` that receive a share of the error of pixel
/// `(x, y)` in a `w` by `h` image, in the order in which they receive it.
pub open spec fn kernel_targets(w: int, h: int, x: int, y: int) -> Seq<(int, int, int)> {
    let right = if x + 1 < w { seq![(x + 1, y, WEIGHT_RIGHT as int)] } else { seq![] };
    let left = if x > 0 { seq![(x - 1, y, WEIGHT_LEFT as int)] } else { seq![] };
    let below = if y + 1 < h { seq![(x, y + 1, WEIGHT_BELOW as int)] } else { seq![] };
    let below_right = if y + 1 < h && x + 1 < w {
        seq![(x + 1, y + 1, WEIGHT_BELOW_RIGHT as int)]
    } else {
        seq![]
    };
    right + left + below + below_right
}

/// `s` after each target of `ts`, in turn, has received its share of the error `e`.
pub open spec fn diffuse_all(s: Seq<Pixel>, w: int, e: QuantError, ts: Seq<(int, int, int)>) -> Seq<
    Pixel,
>
    decreases ts.len(),
{
    if ts.len() == 0 {
        s
    } else {
        let k = index_of(w, ts[0].0, ts[0].1);
        diffuse_all(s.update(k, diffused(s[k], e, ts[0].2)), w, e, ts.drop_first())
    }
}

/// The buffer `s` after the turn of pixel `(x, y)`: the pixel is replaced by its
/// quantized colour and its error is spread over the kernel targets.
pub open spec fn scan_step(s: Seq<Pixel>, w: int, h: int, x: int, y: int) -> Seq<Pixel> {
    let k = index_of(w, x, y);
    let q = quantized(s[k]);
    diffuse_all(s.update(k, q), w, error_between(s[k], q), kernel_targets(w, h, x, y))
}

/// The buffer `s` after the turns of the first `n` pixels in row-major order.
pub open spec fn scanned(s: Seq<Pixel>, w: int, h: int, n: nat) -> Seq<Pixel>
    decreases n,
{
    if n == 0 || w <= 0 {
        s
    } else {
        let m = (n - 1) as nat;
        scan_step(scanned(s, w, h, m), w, h, (m as int) % w, (m as int) / w)
    }
}

/// The dithered image: `s` after the turns of all `w * h` pixels.
pub open spec fn dithered(s: Seq<Pixel>, w: int, h: int) -> Seq<Pixel> {
    if w <= 0 || h <= 0 {
        s
    } else {
        scanned(s, w, h, (w * h) as nat)
    }
}

proof fn lemma_index_facts(w: int, h: int, x: int, y: int)
    requires
        0 <= x < w,
        0 <= y < h,
    ensures
        0 <= index_of(w, x, y) < w * h,
        index_of(w, 0, y) + w <= w * h,
        index_of(w, x, y + 1) == index_of(w, x, y) + w,
        y + 1 < h ==> index_of(w, x, y) + w < w * h,
        y + 1 < h && x + 1 < w ==> index_of(w, x, y) + w + 1 < w * h,
{
    assert(0 <= y * w + x < w * h) by (nonlinear_arith)
        requires
            0 <= x < w,
            0 <= y < h,
    ;
    assert((y + 1) * w + x == y * w + x + w) by (nonlinear_arith);
    assert(y * w + w <= w * h) by (nonlinear_arith)
        requires
            0 <= y < h,
            0 < w,
    ;
    if y + 1 < h {
        assert((y + 1) * w + x < w * h) by (nonlinear_arith)
            requires
                0 <= x < w,
                0 <= y + 1 < h,
        ;
        if x + 1 < w {
            assert((y + 1) * w + x + 1 < w * h) by (nonlinear_arith)
                requires
                    0 <= x + 1 < w,
                    0 <= y + 1 < h,
            ;
        }
    }
}

proof fn lemma_diffuse_cons(s: Seq<Pixel>, w: int, e: QuantError, t: (int, int, int), rest: Seq<(int, int, int)>)
    ensures
        diffuse_all(s, w, e, seq![t] + rest) == diffuse_all(
            s.update(index_of(w, t.0, t.1), diffused(s[index_of(w, t.0, t.1)], e, t.2)),
            w,
            e,
            rest,
        ),
{
    let ts = seq![t] + rest;
    assert(ts[0] == t);
    assert(ts.drop_first() =~= rest);
}

fn diffuse_into(pixels: &mut Vec<Pixel>, k: usize, e: &QuantError, weight: u8)
    requires
        k < old(pixels)@.len(),
    ensures
        final(pixels)@ == old(pixels)@.update(k as int, diffused(old(pixels)@[k as int], *e, weight as int)),
{
    let mut t = pixels[k];
    add_quant_error(&mut t, e, weight);
    pixels.set(k, t);
}

/// The turn of pixel `(x, y)`: quantize it, then diffuse its error forward.
fn process_pixel(pixels: &mut Vec<Pixel>, w: u32, h: u32, x: u32, y: u32)
    requires
        old(pixels)@.len() == w * h,
        x < w,
        y < h,
    ensures
        final(pixels)@ == scan_step(old(pixels)@, w as int, h as int, x as int, y as int),
        final(pixels)@.len() == old(pixels)@.len(),
{
    let ghost (wi, hi, xi, yi) = (w as int, h as int, x as int, y as int);
    let ghost s = pixels@;
    proof {
        lemma_index_facts(wi, hi, xi, yi);
    }
    let n: usize = pixels.len();
    assert(y * w <= n) by (nonlinear_arith)
        requires
            y < h,
            n == w * h,
    ;
    let k: usize = (y as usize) * (w as usize) + (x as usize);
    let wu: usize = w as usize;
    let p = pixels[k];
    let q = find_closest_palette_color(&p);
    let e = calculate_quant_error(&p, &q);
    pixels.set(k, q);
    let ghost target = scan_step(s, wi, hi, xi, yi);
    let ghost right = if xi + 1 < wi { seq![(xi + 1, yi, WEIGHT_RIGHT as int)] } else { seq![] };
    let ghost left = if xi > 0 { seq![(xi - 1, yi, WEIGHT_LEFT as int)] } else { seq![] };
    let ghost below = if yi + 1 < hi { seq![(xi, yi + 1, WEIGHT_BELOW as int)] } else { seq![] };
    let ghost below_right = if yi + 1 < hi && xi + 1 < wi {
        seq![(xi + 1, yi + 1, WEIGHT_BELOW_RIGHT as int)]
    } else {
        seq![]
    };
    proof {
        assert(kernel_targets(wi, hi, xi, yi) =~= right + (left + (below + below_right)));
        assert(target == diffuse_all(pixels@, wi, e, right + (left + (below + below_right))));
    }
    if x + 1 < w {
        proof {
            lemma_diffuse_cons(pixels@, wi, e, (xi + 1, yi, WEIGHT_RIGHT as int), left + (below + below_right));
        }
        diffuse_into(pixels, k + 1, &e, WEIGHT_RIGHT);
    } else {
        assert(right + (left + (below + below_right)) =~= left + (below + below_right));
    }
    assert(target == diffuse_all(pixels@, wi, e, left + (below + below_right)));
    if x > 0 {
        proof {
            lemma_diffuse_cons(pixels@, wi, e, (xi - 1, yi, WEIGHT_LEFT as int), below + below_right);
        }
        diffuse_into(pixels, k - 1, &e, WEIGHT_LEFT);
    } else {
        assert(left + (below + below_right) =~= below + below_right);
    }
    assert(target == diffuse_all(pixels@, wi, e, below + below_right));
    if y + 1 < h {
        proof {
            lemma_diffuse_cons(pixels@, wi, e, (xi, yi + 1, WEIGHT_BELOW as int), below_right);
        }
        diffuse_into(pixels, k + wu, &e, WEIGHT_BELOW);
        if x + 1 < w {
            proof {
                lemma_diffuse_cons(
                    pixels@,
                    wi,
                    e,
                    (xi + 1, yi + 1, WEIGHT_BELOW_RIGHT as int),
                    Seq::empty(),
                );
                assert(below_right =~= seq![(xi + 1, yi + 1, WEIGHT_BELOW_RIGHT as int)] + Seq::empty());
            }
            diffuse_into(pixels, k + wu + 1, &e, WEIGHT_BELOW_RIGHT);
        }
    } else {
        assert(below + below_right =~= Seq::<(int, int, int)>::empty());
    }
}

/// Runs the whole scan over a row-major buffer of `width * height` pixels, in
/// place: afterwards it holds `dithered` of what it held before.
pub fn dither_pixels(pixels: &mut Vec<Pixel>, width: u32, height: u32)
    requires
        old(pixels)@.len() == width * height,
    ensures
        final(pixels)@ == dithered(old(pixels)@, width as int, height as int),
        final(pixels)@.len() == old(pixels)@.len(),
        forall|j: int|
            0 <= j < final(pixels)@.len() && j % (width as int) == width - 1 ==> is_quantized(
                #[trigger] final(pixels)@[j],
            ),
{
    let ghost s0 = pixels@;
    let ghost (w, h) = (width as int, height as int);
    let mut y: u32 = 0;
    while y < height
        invariant
            y <= height,
            w == width,
            h == height,
            pixels@.len() == w * h,
            pixels@ == scanned(s0, w, h, (y * w) as nat),
        decreases height - y,
    {
        let mut x: u32 = 0;
        assert(0 <= y * w) by (nonlinear_arith)
            requires
                0 <= y,
                0 <= w,
        ;
        while x < width
            invariant
                x <= width,
                y < height,
                w == width,
                h == height,
                pixels@.len() == w * h,
                0 <= y * w,
                pixels@ == scanned(s0, w, h, (y * w + x) as nat),
            decreases width - x,
        {
            proof {
                lemma_fundamental_div_mod_converse(y * w + x, w, y as int, x as int);
                assert(y * w == (y as int) * w);
            }
            process_pixel(pixels, width, height, x, y);
            x = x + 1;
        }
        assert((y + 1) * w == y * w + w) by (nonlinear_arith);
        y = y + 1;
    }
    assert(h * w == w * h) by (nonlinear_arith);
    proof {
        if w > 0 && h > 0 {
            lemma_output_pixels(s0, w, h);
        } else {
            assert(w * h == 0) by (nonlinear_arith)
                requires
                    w == 0 || h == 0,
            ;
        }
    }
}

/// Sum of the weights of a list of diffusion targets.
pub open spec fn weight_sum(ts: Seq<(int, int, int)>) -> int
    decreases ts.len(),
{
    if ts.len() == 0 {
        0
    } else {
        ts[0].2 + weight_sum(ts.drop_first())
    }
}

/// Every diffusion target of a pixel inside a `w` by `h` image lies inside the
/// image, for every size including `1 x 1`, `1 x n` and `n x 1`, and none of them
/// is the pixel itself.
pub proof fn lemma_targets_in_bounds(w: int, h: int, x: int, y: int)
    requires
        0 <= x < w,
        0 <= y < h,
    ensures
        forall|i: int|
            #![trigger kernel_targets(w, h, x, y)[i]]
            0 <= i < kernel_targets(w, h, x, y).len() ==> {
                let t = kernel_targets(w, h, x, y)[i];
                &&& 0 <= t.0 < w
                &&& 0 <= t.1 < h
                &&& 0 <= index_of(w, t.0, t.1) < w * h
                &&& index_of(w, t.0, t.1) != index_of(w, x, y)
            },
{
    let ts = kernel_targets(w, h, x, y);
    assert forall|i: int| 0 <= i < ts.len() implies {
        let t = #[trigger] ts[i];
        &&& 0 <= t.0 < w
        &&& 0 <= t.1 < h
        &&& 0 <= index_of(w, t.0, t.1) < w * h
        &&& index_of(w, t.0, t.1) != index_of(w, x, y)
    } by {
        let t = ts[i];
        lemma_index_facts(w, h, t.0, t.1);
        lemma_index_facts(w, h, x, y);
        assert(index_of(w, x, y + 1) == index_of(w, x, y) + w);
        assert(index_of(w, x + 1, y + 1) == index_of(w, x, y) + w + 1);
    }
}

/// A pixel with all four neighbours of the kernel inside the image hands on
/// exactly `16 / 16` of its error: the weights sum to the denominator.
pub proof fn lemma_weight_conservation(w: int, h: int, x: int, y: int)
    requires
        0 < x,
        x + 1 < w,
        0 <= y,
        y + 1 < h,
    ensures
        kernel_targets(w, h, x, y).len() == 4,
        weight_sum(kernel_targets(w, h, x, y)) == WEIGHT_DENOMINATOR,
{
    let a = (x + 1, y, WEIGHT_RIGHT as int);
    let b = (x - 1, y, WEIGHT_LEFT as int);
    let c = (x, y + 1, WEIGHT_BELOW as int);
    let d = (x + 1, y + 1, WEIGHT_BELOW_RIGHT as int);
    let ts = kernel_targets(w, h, x, y);
    assert(ts =~= seq![a, b, c, d]);
    assert(seq![a, b, c, d].drop_first() =~= seq![b, c, d]);
    assert(seq![b, c, d].drop_first() =~= seq![c, d]);
    assert(seq![c, d].drop_first() =~= seq![d]);
    assert(seq![d].drop_first() =~= Seq::<(int, int, int)>::empty());
    assert(weight_sum(Seq::<(int, int, int)>::empty()) == 0);
    assert(seq![d][0] == d);
    assert(weight_sum(seq![d]) == WEIGHT_BELOW_RIGHT);
    assert(weight_sum(seq![c, d]) == WEIGHT_BELOW + WEIGHT_BELOW_RIGHT);
    assert(weight_sum(seq![b, c, d]) == WEIGHT_LEFT + WEIGHT_BELOW + WEIGHT_BELOW_RIGHT);
}

/// An image with no rows or no columns is left as it is; a `1 x 1` image has no
/// diffusion targets and becomes its single quantized pixel.
pub proof fn lemma_degenerate_inputs(s: Seq<Pixel>, w: int, h: int)
    requires
        w >= 0,
        h >= 0,
        s.len() == w * h,
    ensures
        w == 0 || h == 0 ==> dithered(s, w, h) == s && s.len() == 0,
        w == 1 && h == 1 ==> kernel_targets(w, h, 0, 0).len() == 0 && dithered(s, w, h) =~= seq![
            quantized(s[0]),
        ],
{
    if w == 0 || h == 0 {
        assert(w * h == 0) by (nonlinear_arith)
            requires
                w == 0 || h == 0,
        ;
    }
    if w == 1 && h == 1 {
        assert(kernel_targets(w, h, 0, 0) =~= Seq::empty());
        assert(scanned(s, w, h, 0) == s);
        assert(0int % 1 == 0 && 0int / 1 == 0);
    }
}

/// The result of the scan is a function of the input pixels and the size alone:
/// two runs on equal inputs give equal outputs.
pub proof fn lemma_deterministic(a: Seq<Pixel>, b: Seq<Pixel>, w: int, h: int)
    requires
        a == b,
    ensures
        dithered(a, w, h) == dithered(b, w, h),
{
}

proof fn lemma_diffuse_frame(s: Seq<Pixel>, w: int, e: QuantError, ts: Seq<(int, int, int)>, j: int)
    requires
        0 <= j < s.len(),
        forall|i: int| 0 <= i < ts.len() ==> 0 <= index_of(w, #[trigger] ts[i].0, ts[i].1) < s.len(),
        forall|i: int| 0 <= i < ts.len() ==> index_of(w, #[trigger] ts[i].0, ts[i].1) != j,
    ensures
        diffuse_all(s, w, e, ts)[j] == s[j],
    decreases ts.len(),
{
    if ts.len() > 0 {
        let k = index_of(w, ts[0].0, ts[0].1);
        let rest = ts.drop_first();
        assert forall|i: int| 0 <= i < rest.len() implies 0 <= index_of(w, #[trigger] rest[i].0, rest[i].1) < s.len()
            && index_of(w, rest[i].0, rest[i].1) != j by {
            assert(rest[i] == ts[i + 1]);
        }
        lemma_diffuse_frame(s.update(k, diffused(s[k], e, ts[0].2)), w, e, rest, j);
    }
}

proof fn lemma_diffuse_len(s: Seq<Pixel>, w: int, e: QuantError, ts: Seq<(int, int, int)>)
    requires
        forall|i: int| 0 <= i < ts.len() ==> 0 <= index_of(w, #[trigger] ts[i].0, ts[i].1) < s.len(),
    ensures
        diffuse_all(s, w, e, ts).len() == s.len(),
    decreases ts.len(),
{
    if ts.len() > 0 {
        let k = index_of(w, ts[0].0, ts[0].1);
        let rest = ts.drop_first();
        assert forall|i: int| 0 <= i < rest.len() implies 0 <= index_of(w, #[trigger] rest[i].0, rest[i].1) < s.len() by {
            assert(rest[i] == ts[i + 1]);
        }
        lemma_diffuse_len(s.update(k, diffused(s[k], e, ts[0].2)), w, e, rest);
    }
}

/// What the turn of pixel `(x, y)` does to the pixels at or before it.
proof fn lemma_step_effect(t: Seq<Pixel>, w: int, h: int, x: int, y: int)
    requires
        t.len() == w * h,
        0 <= x < w,
        0 <= y < h,
    ensures
        scan_step(t, w, h, x, y).len() == t.len(),
        scan_step(t, w, h, x, y)[index_of(w, x, y)] == quantized(t[index_of(w, x, y)]),
        forall|j: int|
            0 <= j < index_of(w, x, y) && (j + 1 < index_of(w, x, y) || x == 0) ==> #[trigger] scan_step(
                t,
                w,
                h,
                x,
                y,
            )[j] == t[j],
        x > 0 ==> scan_step(t, w, h, x, y)[index_of(w, x, y) - 1] == diffused(
            t[index_of(w, x, y) - 1],
            error_between(t[index_of(w, x, y)], quantized(t[index_of(w, x, y)])),
            WEIGHT_LEFT as int,
        ),
{
    let k = index_of(w, x, y);
    let q = quantized(t[k]);
    let e = error_between(t[k], q);
    let s0 = t.update(k, q);
    let ts = kernel_targets(w, h, x, y);
    lemma_index_facts(w, h, x, y);
    lemma_targets_in_bounds(w, h, x, y);
    lemma_diffuse_len(s0, w, e, ts);
    assert(index_of(w, x, y + 1) == k + w);
    assert(index_of(w, x + 1, y + 1) == k + w + 1);
    lemma_diffuse_frame(s0, w, e, ts, k);
    assert forall|j: int|
        0 <= j < k && (j + 1 < k || x == 0) implies #[trigger] scan_step(t, w, h, x, y)[j] == t[j] by {
        lemma_diffuse_frame(s0, w, e, ts, j);
    }
    if x > 0 {
        let right = if x + 1 < w { seq![(x + 1, y, WEIGHT_RIGHT as int)] } else { seq![] };
        let left = seq![(x - 1, y, WEIGHT_LEFT as int)];
        let below = if y + 1 < h { seq![(x, y + 1, WEIGHT_BELOW as int)] } else { seq![] };
        let below_right = if y + 1 < h && x + 1 < w {
            seq![(x + 1, y + 1, WEIGHT_BELOW_RIGHT as int)]
        } else {
            seq![]
        };
        let tail = below + below_right;
        assert(ts =~= right + (left + tail));
        let s1 = if x + 1 < w {
            s0.update(k + 1, diffused(s0[k + 1], e, WEIGHT_RIGHT as int))
        } else {
            s0
        };
        if x + 1 < w {
            lemma_diffuse_cons(s0, w, e, (x + 1, y, WEIGHT_RIGHT as int), left + tail);
        } else {
            assert(right + (left + tail) =~= left + tail);
        }
        assert(diffuse_all(s0, w, e, ts) == diffuse_all(s1, w, e, left + tail));
        lemma_diffuse_cons(s1, w, e, (x - 1, y, WEIGHT_LEFT as int), tail);
        let s2 = s1.update(k - 1, diffused(s1[k - 1], e, WEIGHT_LEFT as int));
        assert forall|i: int| 0 <= i < tail.len() implies index_of(w, #[trigger] tail[i].0, tail[i].1) != k - 1 by {
            assert(tail[i] == ts[i + ts.len() - tail.len()]);
        }
        lemma_diffuse_frame(s2, w, e, tail, k - 1);
    }
}

proof fn lemma_scanned_len(s: Seq<Pixel>, w: int, h: int, n: nat)
    requires
        s.len() == w * h,
        w > 0,
        h > 0,
        n <= w * h,
    ensures
        scanned(s, w, h, n).len() == s.len(),
    decreases n,
{
    if n > 0 {
        let m = (n - 1) as nat;
        lemma_scanned_len(s, w, h, m);
        lemma_coords(w, h, m as int);
        lemma_step_effect(scanned(s, w, h, m), w, h, (m as int) % w, (m as int) / w);
    }
}

/// The coordinates of the `m`-th pixel in row-major order.
proof fn lemma_coords(w: int, h: int, m: int)
    requires
        w > 0,
        h > 0,
        0 <= m < w * h,
    ensures
        0 <= m % w < w,
        0 <= m / w < h,
        index_of(w, m % w, m / w) == m,
{
    vstd::arithmetic::div_mod::lemma_fundamental_div_mod(m, w);
    assert(m / w < h) by {
        vstd::arithmetic::div_mod::lemma_div_is_ordered(m, w * h - 1, w);
        vstd::arithmetic::div_mod::lemma_div_multiples_vanish_fancy(h - 1, w - 1, w);
        assert(w * h - 1 == w * (h - 1) + (w - 1)) by (nonlinear_arith);
    }
    assert(w * (m / w) == (m / w) * w) by (nonlinear_arith);
}

/// Once the scan has passed pixel `j` and, unless `j` ends its row, the pixel to
/// its right, later turns leave pixel `j` as it is.
proof fn lemma_scanned_frame(s: Seq<Pixel>, w: int, h: int, n1: nat, n2: nat, j: int)
    requires
        s.len() == w * h,
        w > 0,
        h > 0,
        n1 <= n2 <= w * h,
        0 <= j,
        j + 1 < n1 || (j < n1 && j % w == w - 1),
    ensures
        scanned(s, w, h, n2)[j] == scanned(s, w, h, n1)[j],
    decreases n2,
{
    if n2 > n1 {
        let m = (n2 - 1) as nat;
        lemma_scanned_frame(s, w, h, n1, m, j);
        lemma_scanned_len(s, w, h, m);
        lemma_coords(w, h, m as int);
        let (x, y) = ((m as int) % w, (m as int) / w);
        lemma_step_effect(scanned(s, w, h, m), w, h, x, y);
        if j + 1 == m {
            lemma_coords(w, h, j);
            assert((j / w + 1) * w == (j / w) * w + w) by (nonlinear_arith);
            lemma_fundamental_div_mod_converse(m as int, w, j / w + 1, 0);
        }
        assert(scan_step(scanned(s, w, h, m), w, h, x, y)[j] == scanned(s, w, h, m)[j]);
    }
}

/// The pixel `j` as the scan leaves it when `j` does not end its row: its
/// quantized value after the share of its right neighbour's error.
pub open spec fn left_share_result(s: Seq<Pixel>, w: int, h: int, j: int) -> Pixel {
    let t = scanned(s, w, h, (j + 1) as nat);
    diffused(t[j], error_between(t[j + 1], quantized(t[j + 1])), WEIGHT_LEFT as int)
}

/// No share passed back to the left neighbour moves it off the palette.
pub open spec fn left_shares_keep_levels(s: Seq<Pixel>, w: int, h: int) -> bool {
    forall|j: int|
        0 <= j < w * h && j % w != w - 1 ==> is_quantized(#[trigger] left_share_result(s, w, h, j))
}

/// Where each pixel of the output comes from: a pixel that ends its row is its
/// quantized value, every other pixel is a quantized value after the share of its
/// right neighbour's error.
pub proof fn lemma_output_pixels(s: Seq<Pixel>, w: int, h: int)
    requires
        s.len() == w * h,
        w > 0,
        h > 0,
    ensures
        dithered(s, w, h).len() == s.len(),
        forall|j: int|
            0 <= j < w * h && j % w == w - 1 ==> is_quantized(#[trigger] dithered(s, w, h)[j]),
        forall|j: int|
            0 <= j < w * h && j % w != w - 1 ==> #[trigger] dithered(s, w, h)[j] == left_share_result(
                s,
                w,
                h,
                j,
            ) && is_quantized(scanned(s, w, h, (j + 1) as nat)[j]),
{
    let n = (w * h) as nat;
    lemma_scanned_len(s, w, h, n);
    assert forall|j: int| 0 <= j < w * h implies {
        &&& j % w == w - 1 ==> is_quantized(#[trigger] dithered(s, w, h)[j])
        &&& j % w != w - 1 ==> dithered(s, w, h)[j] == left_share_result(s, w, h, j) && is_quantized(
            scanned(s, w, h, (j + 1) as nat)[j],
        )
    } by {
        lemma_coords(w, h, j);
        lemma_scanned_len(s, w, h, j as nat);
        lemma_step_effect(scanned(s, w, h, j as nat), w, h, j % w, j / w);
        if j % w == w - 1 {
            lemma_scanned_frame(s, w, h, (j + 1) as nat, n, j);
        } else {
            assert(j + 1 < w * h) by {
                assert((j / w) * w + w <= w * h) by (nonlinear_arith)
                    requires
                        0 <= j / w < h,
                        w > 0,
                ;
            }
            lemma_fundamental_div_mod_converse(j + 1, w, j / w, j % w + 1);
            lemma_coords(w, h, j + 1);
            lemma_scanned_len(s, w, h, (j + 1) as nat);
            lemma_step_effect(scanned(s, w, h, (j + 1) as nat), w, h, (j + 1) % w, (j + 1) / w);
            lemma_scanned_frame(s, w, h, (j + 2) as nat, n, j);
        }
    }
}

/// Every channel of every output pixel is 0 or 255 exactly when no share passed
/// back to a left neighbour moves it off the palette.
pub proof fn lemma_output_domain(s: Seq<Pixel>, w: int, h: int)
    requires
        s.len() == w * h,
        w >= 0,
        h >= 0,
        left_shares_keep_levels(s, w, h),
    ensures
        forall|j: int| 0 <= j < s.len() ==> is_quantized(#[trigger] dithered(s, w, h)[j]),
{
    if w > 0 && h > 0 {
        lemma_output_pixels(s, w, h);
    } else {
        lemma_degenerate_inputs(s, w, h);
    }
}

} // verus!
