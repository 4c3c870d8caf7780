//! The integer parts of the textures: the permutation tables that hash a
//! lattice point of procedural noise to one of its gradients, and the texel
//! lookup of an image texture with coordinates clamped to the image.
use vstd::prelude::*;
use rand::Rng;

verus! {

/// The number of lattice gradients, and the length of each permutation table.
pub const POINT_COUNT: usize = 256;

/// `p` is a permutation of `0..POINT_COUNT`.
pub open spec fn is_permutation(p: Seq<usize>) -> bool {
    &&& p.len() == POINT_COUNT
    &&& forall|i: int| 0 <= i < p.len() ==> #[trigger] p[i] < POINT_COUNT
    &&& forall|i: int, j: int| 0 <= i < j < p.len() ==> #[trigger] p[i] != #[trigger] p[j]
}

/// The value `v` sits in `o` at some position above `i`.
pub open spec fn moved_down(o: Seq<usize>, v: usize, i: int) -> bool {
    exists|m: int| i < m < o.len() && #[trigger] o[m] == v
}

/// Relies on rand's `Rng::gen_range` over `thread_rng`: a value in `[0, n)`,
/// which it panics on only when the range is empty.
#[verifier::external_body]
fn random_below(n: usize) -> (r: usize)
    requires
        n > 0,
    ensures
        r < n,
{
    rand::thread_rng().gen_range(0, n)
}

/// The three permutation tables of lattice noise, one per axis.
pub struct Perlin {
    pub x: Vec<usize>,
    pub y: Vec<usize>,
    pub z: Vec<usize>,
}

impl Perlin {
    /// Each table is a permutation of `0..POINT_COUNT`.
    pub open spec fn wf(&self) -> bool {
        is_permutation(self.x@) && is_permutation(self.y@) && is_permutation(self.z@)
    }

    /// Three freshly shuffled tables, none with an entry left at its own
    /// position.
    pub fn new() -> (r: Perlin)
        ensures
            r.wf(),
            forall|k: int| 0 <= k < POINT_COUNT ==> #[trigger] r.x@[k] != k,
            forall|k: int| 0 <= k < POINT_COUNT ==> #[trigger] r.y@[k] != k,
            forall|k: int| 0 <= k < POINT_COUNT ==> #[trigger] r.z@[k] != k,
    {
        Perlin {
            x: Perlin::generate_permutation(),
            y: Perlin::generate_permutation(),
            z: Perlin::generate_permutation(),
        }
    }

    /// A random permutation of `0..POINT_COUNT` that moves every entry.
    pub fn generate_permutation() -> (r: Vec<usize>)
        ensures
            is_permutation(r@),
            forall|k: int| 0 <= k < POINT_COUNT ==> #[trigger] r@[k] != k,
    {
        let mut perm: Vec<usize> = Vec::new();
        let mut i: usize = 0;
        while i < POINT_COUNT
            invariant
                i <= POINT_COUNT,
                perm.len() == i,
                forall|k: int| 0 <= k < i ==> #[trigger] perm[k] == k,
            decreases POINT_COUNT - i,
        {
            perm.push(i);
            i += 1;
        }
        Perlin::permutate(&mut perm);
        perm
    }

    /// Shuffles a permutation in place: from the last position down to the
    /// second, swaps each with a randomly drawn earlier position. The swap
    /// partner is always strictly earlier, so no entry stays where it was.
    pub fn permutate(arr: &mut Vec<usize>)
        requires
            is_permutation(old(arr)@),
        ensures
            is_permutation(final(arr)@),
            forall|k: int| 0 <= k < POINT_COUNT ==> #[trigger] final(arr)@[k] != old(arr)@[k],
    {
        let ghost orig = arr@;
        let mut i: usize = POINT_COUNT - 1;
        while i >= 1
            invariant
                i < POINT_COUNT,
                is_permutation(arr@),
                is_permutation(orig),
                orig == old(arr)@,
                forall|k: int| i < k < POINT_COUNT ==> #[trigger] arr@[k] != orig[k],
                forall|k: int|
                    0 <= k <= i ==> #[trigger] arr@[k] == orig[k] || moved_down(orig, arr@[k], i as int),
                i == 0 ==> arr@[0] != orig[0],
            decreases i,
        {
            let j = random_below(i);
            let a = arr[j];
            let b = arr[i];
            let ghost s0 = arr@;
            arr.set(j, b);
            arr.set(i, a);
            proof {
                assert(arr@ == s0.update(j as int, b).update(i as int, a));
                assert forall|p: int, q: int| 0 <= p < q < arr.len() implies #[trigger] arr@[p]
                    != #[trigger] arr@[q] by {
                    let op = if p == i { j as int } else if p == j { i as int } else { p };
                    let oq = if q == i { j as int } else if q == j { i as int } else { q };
                    assert(arr@[p] == s0[op]);
                    assert(arr@[q] == s0[oq]);
                    assert(op != oq);
                    if op < oq {
                        assert(s0[op] != s0[oq]);
                    } else {
                        assert(s0[oq] != s0[op]);
                    }
                }
                assert forall|p: int| 0 <= p < arr.len() implies #[trigger] arr@[p] < POINT_COUNT by {
                    let op = if p == i { j as int } else if p == j { i as int } else { p };
                    assert(arr@[p] == s0[op]);
                }
                // The entry brought to position `i` started at `j` or above `i`.
                if s0[j as int] == orig[j as int] {
                    assert(orig[j as int] != orig[i as int]);
                } else {
                    let m = choose|m: int| i < m < orig.len() && #[trigger] orig[m] == s0[j as int];
                    assert(orig[m] != orig[i as int]);
                }
                assert(arr@[i as int] != orig[i as int]);
                // The entry taken down to `j` started at `i` or above it.
                assert(moved_down(orig, b, i - 1)) by {
                    if s0[i as int] == orig[i as int] {
                        assert(orig[i as int] == b);
                    } else {
                        let m = choose|m: int| i < m < orig.len() && #[trigger] orig[m] == s0[i as int];
                        assert(orig[m] == b);
                    }
                }
                assert forall|k: int| 0 <= k <= i - 1 implies #[trigger] arr@[k] == orig[k]
                    || moved_down(orig, arr@[k], i - 1) by {
                    if k != j {
                        assert(arr@[k] == s0[k]);
                        if s0[k] != orig[k] {
                            let m = choose|m: int| i < m < orig.len() && #[trigger] orig[m] == s0[k];
                            assert(orig[m] == arr@[k]);
                        }
                    }
                }
                if i == 1 {
                    assert(j == 0);
                    assert(arr@[0] == b);
                    let m = choose|m: int| 0 < m < orig.len() && #[trigger] orig[m] == b;
                    assert(orig[m] != orig[0]);
                }
            }
            i -= 1;
        }
    }

    /// The gradient index of lattice point `(i, j, k)`: the exclusive or of
    /// the three tables' entries at the coordinates taken modulo the table
    /// length.
    pub fn corner(&self, i: usize, j: usize, k: usize) -> (r: usize)
        requires
            self.wf(),
        ensures
            r == self.x@[(i % POINT_COUNT) as int] ^ self.y@[(j % POINT_COUNT) as int]
                ^ self.z@[(k % POINT_COUNT) as int],
            r < POINT_COUNT,
    {
        proof {
            assert(i & 255 == i % 256 && j & 255 == j % 256 && k & 255 == k % 256) by (bit_vector);
        }
        let a = self.x[i & 255];
        let b = self.y[j & 255];
        let c = self.z[k & 255];
        proof {
            assert(a < 256 && b < 256 && c < 256 ==> a ^ b ^ c < 256) by (bit_vector);
        }
        a ^ b ^ c
    }
}

/// `x`, or `hi` when `x` lies above it.
pub open spec fn clamp_to(x: int, hi: int) -> int {
    if x <= hi { x } else { hi }
}

/// `x`, or `hi` when `x` lies above it.
pub fn clamp_index(x: usize, hi: usize) -> (r: usize)
    ensures
        r == clamp_to(x as int, hi as int),
{
    if x <= hi { x } else { hi }
}

/// An image of `width` by `height` pixels, three bytes (red, green, blue) per
/// pixel, row by row from the top.
pub struct ImageTexture {
    pub width: usize,
    pub height: usize,
    pub data: Vec<u8>,
}

impl ImageTexture {
    /// The pixel bytes fill the image exactly.
    pub open spec fn wf(&self) -> bool {
        self.data.len() == 3 * self.width * self.height
    }

    /// The three bytes of pixel `(i, j)`, column `i` of row `j`.
    pub open spec fn pixel(&self, i: int, j: int) -> (u8, u8, u8) {
        let base = 3 * (j * self.width + i);
        (self.data@[base], self.data@[base + 1], self.data@[base + 2])
    }

    /// The texture over the image with the given size and pixel bytes.
    pub fn new(width: usize, height: usize, data: Vec<u8>) -> (r: ImageTexture)
        requires
            data.len() == 3 * width * height,
        ensures
            r.wf(),
            r.width == width,
            r.height == height,
            r.data@ == data@,
    {
        ImageTexture { width, height, data }
    }

    /// The color bytes at texel `(i, j)`, each coordinate clamped to the last
    /// column or row of the image.
    pub fn texel(&self, i: usize, j: usize) -> (r: (u8, u8, u8))
        requires
            self.wf(),
            self.width > 0,
            self.height > 0,
        ensures
            r == self.pixel(clamp_to(i as int, self.width - 1), clamp_to(j as int, self.height - 1)),
    {
        let ci = clamp_index(i, self.width - 1);
        let cj = clamp_index(j, self.height - 1);
        proof {
            let w = self.width as int;
            let h = self.height as int;
            assert(cj * w + ci < w * h) by (nonlinear_arith)
                requires cj < h, ci < w, w > 0;
            assert(3 * (cj * w + ci) + 2 < 3 * w * h) by (nonlinear_arith)
                requires cj * w + ci < w * h;
        }
        let base = 3 * (cj * self.width + ci);
        (self.data[base], self.data[base + 1], self.data[base + 2])
    }
}

} // verus!
