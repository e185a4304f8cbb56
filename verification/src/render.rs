//! The pixel-parallel rendering driver, reduced to what is exact about it:
//! pixel indices are mapped to grid coordinates, the index space is cut into
//! contiguous worker ranges that together cover every pixel exactly once,
//! each worker turns its range into `(x, y, color)` triples by calling the
//! per-pixel function, and the triples are poured back into a canvas in
//! whatever order they arrive. Everything here is generic in the pixel type
//! and in the per-pixel function; the floating-point ray tracing itself is
//! the caller's.

use crate::canvas::canvas_of;
use crate::canvas::Canvas;
use vstd::prelude::*;

verus! {

/// The grid coordinates of pixel index `i` on a canvas `width` pixels wide.
pub fn pixel_coords(i: usize, width: usize) -> (r: (usize, usize))
    requires
        width > 0,
    ensures
        r.0 == i % width,
        r.1 == i / width,
        r.0 < width,
        r.1 * width + r.0 == i,
{
    proof {
        vstd::arithmetic::div_mod::lemma_fundamental_div_mod(i as int, width as int);
        assert((i / width) * width == width * (i / width)) by (nonlinear_arith);
    }
    (i % width, i / width)
}

/// The chunk length that spreads `n` pixels over `workers` ranges: the
/// ceiling of their quotient.
pub open spec fn chunk_size(n: nat, workers: nat) -> nat {
    n / workers + if n % workers == 0 {
        0nat
    } else {
        1nat
    }
}

/// Where worker `j`'s range begins: `j` chunks in, capped at `n`.
pub open spec fn chunk_bound(n: nat, workers: nat, j: int) -> nat
    decreases j,
{
    if j <= 0 {
        0
    } else if chunk_bound(n, workers, j - 1) + chunk_size(n, workers) <= n {
        chunk_bound(n, workers, j - 1) + chunk_size(n, workers)
    } else {
        n
    }
}

/// The ranges of all `workers` workers together reach from 0 to `n`: no
/// pixel is left out, and being contiguous, none is handed out twice.
pub proof fn lemma_chunks_cover(n: nat, workers: nat)
    requires
        workers >= 1,
    ensures
        chunk_bound(n, workers, workers as int) == n,
{
    let s = chunk_size(n, workers);
    vstd::arithmetic::div_mod::lemma_fundamental_div_mod(n as int, workers as int);
    assert(workers * s >= n) by (nonlinear_arith)
        requires
            n == workers * (n / workers) + n % workers,
            0 <= n % workers < workers,
            s == n / workers + if n % workers == 0 {
                0nat
            } else {
                1nat
            },
    ;
    lemma_chunk_bound_value(n, workers, workers as int);
}

/// The `j`th bound is `j` whole chunks in, capped at `n`.
proof fn lemma_chunk_bound_value(n: nat, workers: nat, j: int)
    requires
        j >= 0,
    ensures
        chunk_bound(n, workers, j) == if j * chunk_size(n, workers) <= n {
            (j * chunk_size(n, workers)) as nat
        } else {
            n
        },
    decreases j,
{
    let s = chunk_size(n, workers);
    if j == 0 {
        assert(j * s == 0) by (nonlinear_arith)
            requires
                j == 0,
        ;
    } else {
        lemma_chunk_bound_value(n, workers, j - 1);
        assert(j * s == (j - 1) * s + s) by (nonlinear_arith);
    }
}

/// Each bound sits between the previous one and `n`.
pub proof fn lemma_chunk_bound_between(n: nat, workers: nat, j: int)
    ensures
        chunk_bound(n, workers, j) <= n,
        chunk_bound(n, workers, j) <= chunk_bound(n, workers, j + 1),
    decreases j,
{
    if j > 0 {
        lemma_chunk_bound_between(n, workers, j - 1);
    }
}

/// The contiguous index ranges, one `(start, end)` pair per worker, that
/// partition the `n` pixel indices among `workers` workers.
pub fn chunk_ranges(n: usize, workers: usize) -> (r: Vec<(usize, usize)>)
    requires
        workers >= 1,
    ensures
        r@.len() == workers,
        forall|j: int|
            0 <= j < workers ==> #[trigger] r@[j] == (
                chunk_bound(n as nat, workers as nat, j) as usize,
                chunk_bound(n as nat, workers as nat, j + 1) as usize,
            ),
{
    let quot = n / workers;
    let rem = n % workers;
    proof {
        vstd::arithmetic::div_mod::lemma_fundamental_div_mod(n as int, workers as int);
        assert(rem != 0 ==> quot + 1 <= n) by (nonlinear_arith)
            requires
                n == workers * quot + rem,
                0 <= rem < workers,
                workers >= 1,
        ;
    }
    let size = if rem == 0 {
        quot
    } else {
        quot + 1
    };
    let mut r: Vec<(usize, usize)> = Vec::new();
    let mut start: usize = 0;
    let mut j: usize = 0;
    while j < workers
        invariant
            j <= workers,
            r@.len() == j,
            size == chunk_size(n as nat, workers as nat),
            start == chunk_bound(n as nat, workers as nat, j as int),
            start <= n,
            forall|k: int|
                0 <= k < j ==> #[trigger] r@[k] == (
                    chunk_bound(n as nat, workers as nat, k) as usize,
                    chunk_bound(n as nat, workers as nat, k + 1) as usize,
                ),
        decreases workers - j,
    {
        let end = if size <= n - start {
            start + size
        } else {
            n
        };
        r.push((start, end));
        start = end;
        j = j + 1;
    }
    r
}

/// One worker's output: the pixels of the index range `[start, end)`, each
/// as an `(x, y, color)` triple produced by the per-pixel function `f`.
pub fn render_chunk<T, F: Fn(usize, usize) -> T>(
    f: &F,
    start: usize,
    end: usize,
    width: usize,
) -> (out: Vec<(usize, usize, T)>)
    requires
        width > 0,
        start <= end,
        forall|i: usize| start <= i < end ==> #[trigger] call_requires(*f, (i % width, i / width)),
    ensures
        out@.len() == end - start,
        forall|k: int|
            0 <= k < out@.len() ==> {
                let i = start + k;
                #[trigger] out@[k].0 == i % (width as int) && out@[k].1 == i / (width as int)
                    && call_ensures(*f, (out@[k].0, out@[k].1), out@[k].2)
            },
{
    let mut out: Vec<(usize, usize, T)> = Vec::new();
    let mut i: usize = start;
    while i < end
        invariant
            start <= i <= end,
            width > 0,
            out@.len() == i - start,
            forall|i2: usize|
                start <= i2 < end ==> #[trigger] call_requires(*f, (i2 % width, i2 / width)),
            forall|k: int|
                0 <= k < out@.len() ==> {
                    let i2 = start + k;
                    #[trigger] out@[k].0 == i2 % (width as int) && out@[k].1 == i2 / (
                    width as int) && call_ensures(*f, (out@[k].0, out@[k].1), out@[k].2)
                },
        decreases end - i,
    {
        let (x, y) = pixel_coords(i, width);
        proof {
            assert(call_requires(*f, (i % width, i / width)));
        }
        let color = f(x, y);
        out.push((x, y, color));
        i = i + 1;
    }
    out
}

/// The canvas contents after the triples have been written, in order.
pub open spec fn apply_triples<T>(s: Seq<T>, width: nat, ts: Seq<(usize, usize, T)>) -> Seq<T>
    decreases ts.len(),
{
    if ts.len() == 0 {
        s
    } else {
        apply_triples(s, width, ts.drop_last()).update(
            ts.last().1 * width + ts.last().0,
            ts.last().2,
        )
    }
}

/// Writes every `(x, y, color)` triple onto the canvas, in order.
pub fn write_triples<T: Copy>(c: &mut Canvas<T>, triples: &Vec<(usize, usize, T)>)
    requires
        old(c).wf(),
        forall|k: int|
            0 <= k < triples@.len() ==> (#[trigger] triples@[k]).0 < old(c).width
                && triples@[k].1 < old(c).height,
    ensures
        final(c).wf(),
        final(c).width == old(c).width,
        final(c).height == old(c).height,
        final(c).pixels@ == apply_triples(old(c).pixels@, old(c).width as nat, triples@),
{
    let mut k: usize = 0;
    proof {
        assert(triples@.take(0) =~= Seq::<(usize, usize, T)>::empty());
    }
    while k < triples.len()
        invariant
            k <= triples@.len(),
            c.wf(),
            c.width == old(c).width,
            c.height == old(c).height,
            forall|k2: int|
                0 <= k2 < triples@.len() ==> (#[trigger] triples@[k2]).0 < old(c).width
                    && triples@[k2].1 < old(c).height,
            c.pixels@ == apply_triples(
                old(c).pixels@,
                old(c).width as nat,
                triples@.take(k as int),
            ),
        decreases triples@.len() - k,
    {
        proof {
            assert(triples@.take(k + 1).drop_last() =~= triples@.take(k as int));
            assert(triples@.take(k + 1).last() == triples@[k as int]);
        }
        let (x, y, color) = triples[k];
        c.write_pixel(x, y, color);
        k = k + 1;
    }
    proof {
        assert(triples@.take(triples@.len() as int) =~= triples@);
    }
}

/// Triples that carry the coordinates of the consecutive pixel indices
/// `start, start + 1, ...` write exactly the cells of that index range,
/// each with its own triple's color, and touch nothing else.
pub proof fn lemma_apply_indexed_triples<T>(
    s: Seq<T>,
    width: nat,
    ts: Seq<(usize, usize, T)>,
    start: int,
)
    requires
        width > 0,
        0 <= start,
        start + ts.len() <= s.len(),
        forall|k: int|
            0 <= k < ts.len() ==> (#[trigger] ts[k]).0 == (start + k) % (width as int) && ts[k].1
                == (start + k) / (width as int),
    ensures
        apply_triples(s, width, ts).len() == s.len(),
        forall|i: int|
            0 <= i < s.len() && !(start <= i < start + ts.len()) ==> apply_triples(s, width, ts)[i]
                == s[i],
        forall|i: int|
            start <= i < start + ts.len() ==> apply_triples(s, width, ts)[i] == ts[i - start].2,
    decreases ts.len(),
{
    if ts.len() > 0 {
        let prefix = ts.drop_last();
        let last = ts.last();
        let i2 = start + ts.len() - 1;
        assert(ts[ts.len() - 1] == last);
        assert forall|k: int| 0 <= k < prefix.len() implies (#[trigger] prefix[k]).0 == (start + k)
            % (width as int) && prefix[k].1 == (start + k) / (width as int) by {
            assert(prefix[k] == ts[k]);
        }
        lemma_apply_indexed_triples(s, width, prefix, start);
        vstd::arithmetic::div_mod::lemma_fundamental_div_mod(i2, width as int);
        assert((i2 / (width as int)) * (width as int) == (width as int) * (i2 / (width as int)))
            by (nonlinear_arith);
        assert(last.1 * width + last.0 == i2);
    }
}

/// Whether every triple lies on the grid and carries the color the
/// per-pixel function answers for its coordinates.
pub open spec fn entries_ok<T>(
    ts: Seq<(usize, usize, T)>,
    pix: spec_fn(int, int) -> T,
    width: nat,
    height: nat,
) -> bool {
    forall|k: int|
        0 <= k < ts.len() ==> (#[trigger] ts[k]).0 < width && ts[k].1 < height && ts[k].2 == pix(
            ts[k].0 as int,
            ts[k].1 as int,
        )
}

/// Whether some triple writes the cell at column `x`, row `y`.
pub open spec fn covered<T>(ts: Seq<(usize, usize, T)>, x: int, y: int) -> bool {
    exists|k: int| 0 <= k < ts.len() && (#[trigger] ts[k]).0 == x && ts[k].1 == y
}

/// Pouring triples on never changes how many pixels there are.
proof fn lemma_apply_triples_len<T>(
    s: Seq<T>,
    width: nat,
    height: nat,
    pix: spec_fn(int, int) -> T,
    ts: Seq<(usize, usize, T)>,
)
    requires
        s.len() == width * height,
        entries_ok(ts, pix, width, height),
    ensures
        apply_triples(s, width, ts).len() == s.len(),
    decreases ts.len(),
{
    if ts.len() > 0 {
        let prefix = ts.drop_last();
        let last = ts.last();
        assert(ts[ts.len() - 1] == last);
        assert forall|k: int| 0 <= k < prefix.len() implies (#[trigger] prefix[k]).0 < width
            && prefix[k].1 < height && prefix[k].2 == pix(prefix[k].0 as int, prefix[k].1 as int) by {
            assert(prefix[k] == ts[k]);
        }
        lemma_apply_triples_len(s, width, height, pix, prefix);
        crate::canvas::lemma_index_in_range(width, height, last.0 as nat, last.1 as nat);
    }
}

/// What one cell holds once the triples have been poured on: the per-pixel
/// color when some triple wrote the cell, the old contents when none did.
proof fn lemma_apply_triples_cell<T>(
    s: Seq<T>,
    width: nat,
    height: nat,
    pix: spec_fn(int, int) -> T,
    ts: Seq<(usize, usize, T)>,
    x: int,
    y: int,
)
    requires
        s.len() == width * height,
        entries_ok(ts, pix, width, height),
        0 <= x < width,
        0 <= y < height,
    ensures
        apply_triples(s, width, ts).len() == s.len(),
        covered(ts, x, y) ==> apply_triples(s, width, ts)[y * width + x] == pix(x, y),
        !covered(ts, x, y) ==> apply_triples(s, width, ts)[y * width + x] == s[y * width + x],
    decreases ts.len(),
{
    crate::canvas::lemma_index_in_range(width, height, x as nat, y as nat);
    if ts.len() > 0 {
        let prefix = ts.drop_last();
        let last = ts.last();
        assert(ts[ts.len() - 1] == last);
        assert forall|k: int| 0 <= k < prefix.len() implies (#[trigger] prefix[k]).0 < width
            && prefix[k].1 < height && prefix[k].2 == pix(prefix[k].0 as int, prefix[k].1 as int) by {
            assert(prefix[k] == ts[k]);
        }
        lemma_apply_triples_cell(s, width, height, pix, prefix, x, y);
        crate::canvas::lemma_index_in_range(width, height, last.0 as nat, last.1 as nat);
        if last.0 == x && last.1 == y {
            assert(covered(ts, x, y));
        } else {
            assert(last.1 * width + last.0 != y * width + x) by (nonlinear_arith)
                requires
                    0 <= last.0 < width,
                    0 <= x < width,
                    0 <= last.1,
                    0 <= y,
                    last.0 != x || last.1 != y,
            ;
            assert(covered(ts, x, y) <==> covered(prefix, x, y)) by {
                if covered(ts, x, y) {
                    let k = choose|k: int|
                        0 <= k < ts.len() && (#[trigger] ts[k]).0 == x && ts[k].1 == y;
                    assert(prefix[k] == ts[k]);
                } else {
                    if covered(prefix, x, y) {
                        let k = choose|k: int|
                            0 <= k < prefix.len() && (#[trigger] prefix[k]).0 == x && prefix[k].1
                                == y;
                        assert(ts[k] == prefix[k]);
                    }
                }
            }
        }
    }
}

/// However the worker triples arrive -- in chunk order, interleaved, or
/// reversed -- pouring a complete set of them onto a canvas gives one and
/// the same image, whatever the canvas held before: the one whose every
/// cell answers the per-pixel function.
pub proof fn lemma_arrival_order_immaterial<T>(
    s1: Seq<T>,
    s2: Seq<T>,
    width: nat,
    height: nat,
    pix: spec_fn(int, int) -> T,
    t1: Seq<(usize, usize, T)>,
    t2: Seq<(usize, usize, T)>,
)
    requires
        s1.len() == width * height,
        s2.len() == width * height,
        entries_ok(t1, pix, width, height),
        entries_ok(t2, pix, width, height),
        forall|x: int, y: int| 0 <= x < width && 0 <= y < height ==> #[trigger] covered(t1, x, y),
        forall|x: int, y: int| 0 <= x < width && 0 <= y < height ==> #[trigger] covered(t2, x, y),
    ensures
        apply_triples(s1, width, t1) == apply_triples(s2, width, t2),
{
    let a1 = apply_triples(s1, width, t1);
    let a2 = apply_triples(s2, width, t2);
    assert forall|i: int| 0 <= i < s1.len() implies a1[i] == a2[i] by {
        assert(width > 0) by (nonlinear_arith)
            requires
                0 <= i < width * height,
        ;
        vstd::arithmetic::div_mod::lemma_fundamental_div_mod(i, width as int);
        vstd::arithmetic::div_mod::lemma_mod_division_less_than_divisor(i, width as int);
        let x = i % (width as int);
        let y = i / (width as int);
        assert(y < height) by (nonlinear_arith)
            requires
                i == (width as int) * y + x,
                0 <= x < width,
                i < width * height,
                width > 0,
        ;
        lemma_apply_triples_cell(s1, width, height, pix, t1, x, y);
        lemma_apply_triples_cell(s2, width, height, pix, t2, x, y);
        assert(a1[y * width + x] == pix(x, y));
        assert(a2[y * width + x] == pix(x, y));
    }
    lemma_apply_triples_len(s1, width, height, pix, t1);
    lemma_apply_triples_len(s2, width, height, pix, t2);
    assert(a1 =~= a2);
}

/// A whole frame, rendered one pixel at a time in index order: pixel
/// `(x, y)` holds a color that the per-pixel function `f` answers for
/// `(x, y)`.
pub fn render<T: Copy, F: Fn(usize, usize) -> T>(
    f: &F,
    width: usize,
    height: usize,
    fill: T,
) -> (c: Canvas<T>)
    requires
        width * height <= usize::MAX,
        forall|i: usize|
            i < width * height ==> #[trigger] call_requires(*f, (i % width, i / width)),
    ensures
        c.wf(),
        c.width == width,
        c.height == height,
        forall|x: int, y: int|
            0 <= x < width && 0 <= y < height ==> call_ensures(
                *f,
                ((x as usize), (y as usize)),
                #[trigger] c.pixel(x, y),
            ),
{
    let n = width * height;
    let mut c = canvas_of(width, height, fill);
    let mut i: usize = 0;
    while i < n
        invariant
            i <= n,
            n == width * height,
            c.wf(),
            c.width == width,
            c.height == height,
            forall|i2: usize|
                i2 < width * height ==> #[trigger] call_requires(*f, (i2 % width, i2 / width)),
            forall|i2: int|
                0 <= i2 < i ==> call_ensures(
                    *f,
                    (((i2 % (width as int)) as usize), ((i2 / (width as int)) as usize)),
                    #[trigger] c.pixels@[i2],
                ),
        decreases n - i,
    {
        proof {
            assert(width > 0) by (nonlinear_arith)
                requires
                    i < n,
                    n == width * height,
            ;
        }
        let (x, y) = pixel_coords(i, width);
        proof {
            assert(call_requires(*f, (i % width, i / width)));
            assert(y < height) by (nonlinear_arith)
                requires
                    y == i as int / width as int,
                    i < width * height,
                    width > 0,
            ;
        }
        let color = f(x, y);
        c.write_pixel(x, y, color);
        i = i + 1;
    }
    proof {
        lemma_render_grid(*f, c);
    }
    c
}

/// From per-index to per-coordinate form: a canvas whose cell at each index
/// `i` answers `f` for the coordinates of `i` answers `f` pixel-wise.
proof fn lemma_render_grid<T, F: Fn(usize, usize) -> T>(f: F, c: Canvas<T>)
    requires
        c.wf(),
        forall|i2: int|
            0 <= i2 < c.width * c.height ==> call_ensures(
                f,
                (((i2 % (c.width as int)) as usize), ((i2 / (c.width as int)) as usize)),
                #[trigger] c.pixels@[i2],
            ),
    ensures
        forall|x: int, y: int|
            0 <= x < c.width && 0 <= y < c.height ==> call_ensures(
                f,
                ((x as usize), (y as usize)),
                #[trigger] c.pixel(x, y),
            ),
{
    assert forall|x: int, y: int| 0 <= x < c.width && 0 <= y < c.height implies call_ensures(
        f,
        ((x as usize), (y as usize)),
        #[trigger] c.pixel(x, y),
    ) by {
        let i = y * c.width + x;
        crate::canvas::lemma_index_in_range(c.width as nat, c.height as nat, x as nat, y as nat);
        vstd::arithmetic::div_mod::lemma_fundamental_div_mod_converse_mod(
            i,
            c.width as int,
            y,
            x,
        );
        vstd::arithmetic::div_mod::lemma_fundamental_div_mod_converse_div(
            i,
            c.width as int,
            y,
            x,
        );
    }
}

/// The same frame, rendered the way the worker pool runs it: the index
/// space is cut into one contiguous range per worker, each range becomes
/// its triples, and the triples are written back onto one canvas. The
/// result answers `f` pixel for pixel, exactly as `render` does.
pub fn render_chunked<T: Copy, F: Fn(usize, usize) -> T>(
    f: &F,
    width: usize,
    height: usize,
    fill: T,
    workers: usize,
) -> (c: Canvas<T>)
    requires
        workers >= 1,
        width * height <= usize::MAX,
        forall|i: usize|
            i < width * height ==> #[trigger] call_requires(*f, (i % width, i / width)),
    ensures
        c.wf(),
        c.width == width,
        c.height == height,
        forall|x: int, y: int|
            0 <= x < width && 0 <= y < height ==> call_ensures(
                *f,
                ((x as usize), (y as usize)),
                #[trigger] c.pixel(x, y),
            ),
{
    let n = width * height;
    let ghost nn = n as nat;
    let ghost wk = workers as nat;
    let mut c = canvas_of(width, height, fill);
    let ranges = chunk_ranges(n, workers);
    let mut j: usize = 0;
    while j < workers
        invariant
            j <= workers,
            n == width * height,
            n <= usize::MAX,
            nn == n as nat,
            wk == workers as nat,
            workers >= 1,
            ranges@.len() == workers,
            forall|j2: int|
                0 <= j2 < workers ==> #[trigger] ranges@[j2] == (
                    chunk_bound(nn, wk, j2) as usize,
                    chunk_bound(nn, wk, j2 + 1) as usize,
                ),
            c.wf(),
            c.width == width,
            c.height == height,
            forall|i2: usize|
                i2 < width * height ==> #[trigger] call_requires(*f, (i2 % width, i2 / width)),
            forall|i2: int|
                0 <= i2 < chunk_bound(nn, wk, j as int) ==> call_ensures(
                    *f,
                    (((i2 % (width as int)) as usize), ((i2 / (width as int)) as usize)),
                    #[trigger] c.pixels@[i2],
                ),
        decreases workers - j,
    {
        let (start, end) = ranges[j];
        proof {
            lemma_chunk_bound_between(nn, wk, j as int);
            assert(start <= end <= n);
            if start < end {
                assert(width > 0) by (nonlinear_arith)
                    requires
                        end <= width * height,
                        (start as int) < end,
                ;
            }
            assert forall|i2: usize| start <= i2 < end implies #[trigger] call_requires(
                *f,
                (i2 % width, i2 / width),
            ) by {
                assert(call_requires(*f, (i2 % width, i2 / width)));
            }
        }
        if start < end {
            let triples = render_chunk(f, start, end, width);
            let ghost before = c.pixels@;
            proof {
                assert(width > 0) by (nonlinear_arith)
                    requires
                        end <= width * height,
                        (start as int) < end,
                ;
                assert forall|k: int|
                    0 <= k < triples@.len() implies (#[trigger] triples@[k]).0 < c.width
                    && triples@[k].1 < c.height by {
                    let i2 = start + k;
                    assert(triples@[k].0 == i2 % (width as int));
                    assert(triples@[k].1 == i2 / (width as int));
                    vstd::arithmetic::div_mod::lemma_fundamental_div_mod(i2, width as int);
                    vstd::arithmetic::div_mod::lemma_mod_division_less_than_divisor(
                        i2,
                        width as int,
                    );
                    assert(i2 / (width as int) < height) by (nonlinear_arith)
                        requires
                            i2 == (width as int) * (i2 / (width as int)) + i2 % (width as int),
                            0 <= i2 % (width as int) < width as int,
                            i2 < width * height,
                            (width as int) > 0,
                    ;
                }
            }
            write_triples(&mut c, &triples);
            proof {
                lemma_apply_indexed_triples(before, width as nat, triples@, start as int);
                assert forall|i2: int|
                    0 <= i2 < chunk_bound(nn, wk, j + 1) implies call_ensures(
                    *f,
                    (((i2 % (width as int)) as usize), ((i2 / (width as int)) as usize)),
                    #[trigger] c.pixels@[i2],
                ) by {
                    if start <= i2 < end {
                        assert(c.pixels@[i2] == triples@[i2 - start].2);
                    } else {
                        assert(c.pixels@[i2] == before[i2]);
                    }
                }
            }
        }
        j = j + 1;
    }
    proof {
        lemma_chunks_cover(nn, wk);
        lemma_render_grid(*f, c);
    }
    c
}

/// Renders of one scene are interchangeable: when the per-pixel function
/// answers a single color for each coordinate pair, any two complete
/// renders of it -- sequential, chunked, or assembled from worker triples
/// in any arrival order -- hold pixel-identical contents.
pub proof fn lemma_render_deterministic<T, F: Fn(usize, usize) -> T>(
    f: F,
    c1: Canvas<T>,
    c2: Canvas<T>,
)
    requires
        forall|x: usize, y: usize, r1: T, r2: T|
            #[trigger] call_ensures(f, (x, y), r1) && #[trigger] call_ensures(f, (x, y), r2)
                ==> r1 == r2,
        c1.wf(),
        c2.wf(),
        c1.width == c2.width,
        c1.height == c2.height,
        forall|x: int, y: int|
            0 <= x < c1.width && 0 <= y < c1.height ==> call_ensures(
                f,
                ((x as usize), (y as usize)),
                #[trigger] c1.pixel(x, y),
            ),
        forall|x: int, y: int|
            0 <= x < c2.width && 0 <= y < c2.height ==> call_ensures(
                f,
                ((x as usize), (y as usize)),
                #[trigger] c2.pixel(x, y),
            ),
    ensures
        c1.pixels@ == c2.pixels@,
{
    assert forall|i: int| 0 <= i < c1.pixels@.len() implies c1.pixels@[i] == c2.pixels@[i] by {
        assert(c1.width > 0) by (nonlinear_arith)
            requires
                0 <= i < c1.width * c1.height,
        ;
        let w = c1.width as int;
        vstd::arithmetic::div_mod::lemma_fundamental_div_mod(i, w);
        let x = i % w;
        let y = i / w;
        assert(y < c1.height) by (nonlinear_arith)
            requires
                i == w * y + x,
                0 <= x < w,
                i < w * c1.height,
                w > 0,
        ;
        assert(c1.pixel(x, y) == c1.pixels@[i]);
        assert(c2.pixel(x, y) == c2.pixels@[i]);
    }
    assert(c1.pixels@ =~= c2.pixels@);
}

} // verus!
