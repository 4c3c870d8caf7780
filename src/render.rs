//! Row partition and raster order of the parallel renderer. The rows of the
//! image are cut into contiguous chunks, one per worker, each as long as the
//! row count divided by the worker count rounded up, the last ones shorter or
//! empty. Row 0 is the top row; each chunk's pixels go row by row, left to
//! right, and the chunks are joined in chunk order.
use vstd::prelude::*;
use vstd::arithmetic::div_mod::{
    lemma_fundamental_div_mod, lemma_fundamental_div_mod_converse, lemma_mod_pos_bound,
};

verus! {

/// The number of rows each worker is given.
pub open spec fn chunk_len_spec(height: int, workers: int) -> int {
    (height + workers - 1) / workers
}

/// The first row of chunk `index` (the row count when the chunk is empty).
pub open spec fn chunk_start(height: int, workers: int, index: int) -> int {
    let s = index * chunk_len_spec(height, workers);
    if s <= height { s } else { height }
}

/// The pixel positions (row, column) of rows `a` up to `b`, row by row, left
/// to right.
pub open spec fn raster(a: int, b: int, width: int) -> Seq<(int, int)> {
    Seq::new(((b - a) * width) as nat, |k: int| (a + k / width, k % width))
}

/// The pixel positions of the first `k` chunks, joined in chunk order.
pub open spec fn chunked_raster(height: int, width: int, workers: int, k: int) -> Seq<(int, int)>
    decreases k,
{
    if k <= 0 {
        Seq::empty()
    } else {
        chunked_raster(height, width, workers, k - 1) + raster(
            chunk_start(height, workers, k - 1),
            chunk_start(height, workers, k),
            width,
        )
    }
}

/// The number of rows each worker is given: the row count divided by the
/// worker count, rounded up.
pub fn chunk_len(height: usize, workers: usize) -> (r: usize)
    requires
        workers > 0,
    ensures
        r == chunk_len_spec(height as int, workers as int),
{
    let q = height / workers;
    let extra: usize = if height % workers == 0 { 0 } else { 1 };
    proof {
        let h = height as int;
        let w = workers as int;
        assert(h == q * w + h % w) by (nonlinear_arith)
            requires q == h / w, w > 0;
        if h % w == 0 {
            lemma_fundamental_div_mod_converse(h + w - 1, w, q as int, w - 1);
        } else {
            assert((q + 1) * w == q * w + w) by (nonlinear_arith);
            lemma_fundamental_div_mod_converse(h + w - 1, w, q + 1, h % w - 1);
            assert(q < h) by (nonlinear_arith)
                requires h == q * w + h % w, h % w > 0, w > 0, q >= 0;
        }
    }
    q + extra
}

/// The rows `[start, end)` of chunk `index`.
pub fn chunk_rows(height: usize, workers: usize, index: usize) -> (r: (usize, usize))
    requires
        workers > 0,
        index < workers,
    ensures
        r.0 == chunk_start(height as int, workers as int, index as int),
        r.1 == chunk_start(height as int, workers as int, index + 1),
{
    let len = chunk_len(height, workers);
    (start_of(height, len, index), start_of(height, len, index + 1))
}

/// `min(index * len, height)`, without overflow.
fn start_of(height: usize, len: usize, index: usize) -> (r: usize)
    ensures
        r == (if index * len <= height { index * len } else { height as int }),
{
    if len == 0 || index <= height / len {
        proof {
            if len > 0 {
                assert(index * len <= (height / len) * len) by (nonlinear_arith)
                    requires index <= height / len, len > 0;
                assert((height / len) * len <= height) by (nonlinear_arith)
                    requires len > 0;
            }
        }
        let s = index * len;
        if s <= height { s } else { height }
    } else {
        proof {
            assert(index * len > height) by (nonlinear_arith)
                requires index > height / len, len > 0;
        }
        height
    }
}

/// `out` holds, position by position, a possible result of `pixel` at each of
/// the pixel positions `pos`.
pub open spec fn renders<T, F: Fn(usize, usize) -> T>(pixel: F, pos: Seq<(int, int)>, out: Seq<T>) -> bool {
    &&& out.len() == pos.len()
    &&& forall|k: int|
        0 <= k < out.len() ==> pixel.ensures((pos[k].0 as usize, pos[k].1 as usize), #[trigger] out[k])
}

/// The pixels of rows `start` up to `end` of an image `width` wide, in raster
/// order: entry `k` is what `pixel(row, column)` gives for the `k`-th position.
pub fn render_rows<T, F: Fn(usize, usize) -> T>(start: usize, end: usize, width: usize, pixel: &F) -> (r: Vec<T>)
    requires
        start <= end,
        (end - start) * width <= usize::MAX,
        forall|row: usize, col: usize| #[trigger] pixel.requires((row, col)),
    ensures
        renders(*pixel, raster(start as int, end as int, width as int), r@),
{
    let mut out: Vec<T> = Vec::new();
    let mut row = start;
    while row < end
        invariant
            start <= row <= end,
            (end - start) * width <= usize::MAX,
            forall|row: usize, col: usize| #[trigger] pixel.requires((row, col)),
            out.len() == (row - start) * width,
            width > 0 ==> forall|k: int|
                0 <= k < out.len() ==> pixel.ensures(
                    ((start + k / (width as int)) as usize, (k % (width as int)) as usize),
                    #[trigger] out[k],
                ),
        decreases end - row,
    {
        let mut col: usize = 0;
        proof {
            assert((row - start) * width + width == (row + 1 - start) * width) by (nonlinear_arith);
            assert((row + 1 - start) * width <= (end - start) * width) by (nonlinear_arith)
                requires row < end;
        }
        while col < width
            invariant
                start <= row < end,
                col <= width,
                forall|row: usize, col: usize| #[trigger] pixel.requires((row, col)),
                out.len() == (row - start) * width + col,
                (row + 1 - start) * width <= usize::MAX,
                (row - start) * width + width == (row + 1 - start) * width,
                forall|k: int|
                    0 <= k < out.len() ==> pixel.ensures(
                        ((start + k / (width as int)) as usize, (k % (width as int)) as usize),
                        #[trigger] out[k],
                    ),
            decreases width - col,
        {
            let v = pixel(row, col);
            proof {
                let k = (row - start) * width + col;
                lemma_fundamental_div_mod_converse(k, width as int, row - start, col as int);
            }
            out.push(v);
            col += 1;
        }
        row += 1;
    }
    out
}

/// The outputs of the workers joined in chunk order.
pub fn gather<T>(chunks: Vec<Vec<T>>) -> (r: Vec<T>)
    ensures
        r@ == chunks@.map_values(|c: Vec<T>| c@).flatten(),
{
    let ghost all = chunks@.map_values(|c: Vec<T>| c@);
    let mut rest = chunks;
    let mut out: Vec<T> = Vec::new();
    while rest.len() > 0
        invariant
            out@ + rest@.map_values(|c: Vec<T>| c@).flatten() == all.flatten(),
        decreases rest.len(),
    {
        let ghost before = rest@;
        let mut c = rest.remove(0);
        proof {
            let m = before.map_values(|c: Vec<T>| c@);
            assert(m.drop_first() =~= rest@.map_values(|c: Vec<T>| c@));
            assert(m.first() == c@);
            assert(out@ + c@ + rest@.map_values(|c: Vec<T>| c@).flatten() =~= out@ + m.flatten());
        }
        out.append(&mut c);
    }
    proof {
        assert(rest@.map_values(|c: Vec<T>| c@) =~= Seq::<Seq<T>>::empty());
        assert(out@ + Seq::<T>::empty() =~= out@);
    }
    out
}

/// Rasters of adjacent row ranges join into the raster of their union.
proof fn lemma_raster_join(a: int, b: int, c: int, width: int)
    requires
        0 <= a <= b <= c,
        width >= 0,
    ensures
        raster(a, b, width) + raster(b, c, width) == raster(a, c, width),
{
    let x = raster(a, b, width);
    let y = raster(b, c, width);
    let z = raster(a, c, width);
    assert((b - a) * width + (c - b) * width == (c - a) * width) by (nonlinear_arith);
    assert((b - a) * width >= 0 && (c - b) * width >= 0) by (nonlinear_arith)
        requires a <= b <= c, width >= 0;
    assert forall|k: int| 0 <= k < z.len() implies #[trigger] (x + y)[k] == z[k] by {
        if k >= x.len() {
            let j = k - x.len();
            let q = j / width;
            let r = j % width;
            assert(width > 0) by (nonlinear_arith)
                requires k < (c - a) * width, k >= 0, width >= 0;
            lemma_fundamental_div_mod(j, width);
            lemma_mod_pos_bound(j, width);
            assert(k == (b - a + q) * width + r) by (nonlinear_arith)
                requires k == j + (b - a) * width, j == width * q + r;
            lemma_fundamental_div_mod_converse(k, width, b - a + q, r);
        }
    }
    assert(x + y =~= z);
}

/// The first `k` chunks cover the rows from 0 up to the start of chunk `k`.
proof fn lemma_chunk_prefix(height: int, width: int, workers: int, k: int)
    requires
        workers > 0,
        height >= 0,
        width >= 0,
        0 <= k,
    ensures
        chunked_raster(height, width, workers, k) == raster(0, chunk_start(height, workers, k), width),
    decreases k,
{
    let len = chunk_len_spec(height, workers);
    assert(len >= 0) by (nonlinear_arith)
        requires workers > 0, height >= 0, len == (height + workers - 1) / workers;
    if k == 0 {
        assert(chunk_start(height, workers, 0) == 0);
        assert(raster(0, 0, width) =~= Seq::<(int, int)>::empty());
    } else {
        lemma_chunk_prefix(height, width, workers, k - 1);
        assert((k - 1) * len <= k * len) by (nonlinear_arith)
            requires len >= 0;
        assert(0 <= (k - 1) * len) by (nonlinear_arith)
            requires len >= 0, k >= 1;
        lemma_raster_join(0, chunk_start(height, workers, k - 1), chunk_start(height, workers, k), width);
    }
}

/// Joining the rasters of all chunks in chunk order gives the raster of the
/// whole image: every pixel position once, top row first, each row left to
/// right, as a single worker rendering every row would produce them.
pub proof fn lemma_chunks_join_to_image(height: int, width: int, workers: int)
    requires
        workers > 0,
        height >= 0,
        width >= 0,
    ensures
        chunked_raster(height, width, workers, workers) == raster(0, height, width),
{
    lemma_chunk_prefix(height, width, workers, workers);
    let len = chunk_len_spec(height, workers);
    assert(workers * len >= height) by (nonlinear_arith)
        requires workers > 0, height >= 0, len == (height + workers - 1) / workers;
}

/// Renders of two position sequences join into a render of their
/// concatenation.
proof fn lemma_renders_join<T, F: Fn(usize, usize) -> T>(
    pixel: F,
    p1: Seq<(int, int)>,
    o1: Seq<T>,
    p2: Seq<(int, int)>,
    o2: Seq<T>,
)
    requires
        renders(pixel, p1, o1),
        renders(pixel, p2, o2),
    ensures
        renders(pixel, p1 + p2, o1 + o2),
{
    assert forall|k: int| 0 <= k < (o1 + o2).len() implies pixel.ensures(
        ((p1 + p2)[k].0 as usize, (p1 + p2)[k].1 as usize),
        #[trigger] (o1 + o2)[k],
    ) by {
        if k >= o1.len() {
            assert((o1 + o2)[k] == o2[k - o1.len()]);
        }
    }
}

/// The outputs of the first `k` chunks, joined, render the first `k` chunks'
/// positions.
proof fn lemma_prefix_renders<T, F: Fn(usize, usize) -> T>(
    height: int,
    width: int,
    workers: int,
    pixel: F,
    chunks: Seq<Seq<T>>,
    k: int,
)
    requires
        0 <= k <= workers,
        chunks.len() == workers,
        forall|i: int|
            0 <= i < workers ==> renders(
                pixel,
                raster(chunk_start(height, workers, i), chunk_start(height, workers, i + 1), width),
                #[trigger] chunks[i],
            ),
    ensures
        renders(pixel, chunked_raster(height, width, workers, k), chunks.take(k).flatten()),
    decreases k,
{
    if k == 0 {
        assert(chunks.take(0) =~= Seq::<Seq<T>>::empty());
    } else {
        lemma_prefix_renders(height, width, workers, pixel, chunks, k - 1);
        assert(chunks.take(k) =~= chunks.take(k - 1).push(chunks[k - 1]));
        chunks.take(k - 1).lemma_flatten_push(chunks[k - 1]);
        lemma_renders_join(
            pixel,
            chunked_raster(height, width, workers, k - 1),
            chunks.take(k - 1).flatten(),
            raster(chunk_start(height, workers, k - 1), chunk_start(height, workers, k), width),
            chunks[k - 1],
        );
    }
}

/// Whatever each worker renders for its chunk, joining the chunks' outputs in
/// chunk order renders the whole image: one result per pixel, `height` times
/// `width` in all, each at its position in the raster order of a single
/// worker rendering every row.
pub proof fn lemma_joined_chunks_render_image<T, F: Fn(usize, usize) -> T>(
    height: int,
    width: int,
    workers: int,
    pixel: F,
    chunks: Seq<Seq<T>>,
)
    requires
        workers > 0,
        height >= 0,
        width >= 0,
        chunks.len() == workers,
        forall|i: int|
            0 <= i < workers ==> renders(
                pixel,
                raster(chunk_start(height, workers, i), chunk_start(height, workers, i + 1), width),
                #[trigger] chunks[i],
            ),
    ensures
        renders(pixel, raster(0, height, width), chunks.flatten()),
        chunks.flatten().len() == height * width,
{
    lemma_prefix_renders(height, width, workers, pixel, chunks, workers);
    assert(chunks.take(workers) =~= chunks);
    lemma_chunks_join_to_image(height, width, workers);
    assert(height * width >= 0) by (nonlinear_arith)
        requires height >= 0, width >= 0;
}

/// When `pixel` gives the same result at a position every time, the joined
/// output does not depend on the number of workers: two chunked renders of
/// the same image are equal position for position.
pub proof fn lemma_render_independent_of_workers<T, F: Fn(usize, usize) -> T>(
    height: int,
    width: int,
    pixel: F,
    value: spec_fn(usize, usize) -> T,
    workers1: int,
    chunks1: Seq<Seq<T>>,
    workers2: int,
    chunks2: Seq<Seq<T>>,
)
    requires
        height >= 0,
        width >= 0,
        forall|row: usize, col: usize, v: T| #[trigger] pixel.ensures((row, col), v) ==> v == value(row, col),
        workers1 > 0,
        chunks1.len() == workers1,
        forall|i: int|
            0 <= i < workers1 ==> renders(
                pixel,
                raster(chunk_start(height, workers1, i), chunk_start(height, workers1, i + 1), width),
                #[trigger] chunks1[i],
            ),
        workers2 > 0,
        chunks2.len() == workers2,
        forall|i: int|
            0 <= i < workers2 ==> renders(
                pixel,
                raster(chunk_start(height, workers2, i), chunk_start(height, workers2, i + 1), width),
                #[trigger] chunks2[i],
            ),
    ensures
        chunks1.flatten() == chunks2.flatten(),
{
    lemma_joined_chunks_render_image(height, width, workers1, pixel, chunks1);
    lemma_joined_chunks_render_image(height, width, workers2, pixel, chunks2);
    let pos = raster(0, height, width);
    let a = chunks1.flatten();
    let b = chunks2.flatten();
    assert forall|k: int| 0 <= k < a.len() implies a[k] == b[k] by {
        assert(pixel.ensures((pos[k].0 as usize, pos[k].1 as usize), a[k]));
        assert(pixel.ensures((pos[k].0 as usize, pos[k].1 as usize), b[k]));
    }
    assert(a =~= b);
}

} // verus!
