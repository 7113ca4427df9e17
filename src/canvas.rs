//! The pixel buffer that a render fills, and the order in which a camera
//! visits its pixels.
use vstd::prelude::*;

verus! {

/// A grid of `width` x `height` pixels, each holding a color `T`.
pub struct Canvas<T> {
    width: usize,
    height: usize,
    state: Vec<Vec<T>>,
}

impl<T: Copy> Canvas<T> {
    pub closed spec fn spec_width(&self) -> nat {
        self.width as nat
    }

    pub closed spec fn spec_height(&self) -> nat {
        self.height as nat
    }

    /// The color at column `x` of row `y`.
    pub closed spec fn pixel(&self, x: int, y: int) -> T {
        self.state@[y]@[x]
    }

    /// One row per unit of height, each as wide as the canvas.
    pub closed spec fn wf(&self) -> bool {
        &&& self.state@.len() == self.height
        &&& forall|y: int| 0 <= y < self.height ==> (#[trigger] self.state@[y])@.len() == self.width
    }

    /// A canvas with every pixel set to `background`.
    pub fn new(width: usize, height: usize, background: T) -> (r: Canvas<T>)
        ensures
            r.wf(),
            r.spec_width() == width,
            r.spec_height() == height,
            forall|x: int, y: int| 0 <= x < width && 0 <= y < height ==> #[trigger] r.pixel(x, y) == background,
    {
        let mut state: Vec<Vec<T>> = Vec::new();
        let mut y: usize = 0;
        while y < height
            invariant
                y <= height,
                state@.len() == y,
                forall|j: int| 0 <= j < y ==> (#[trigger] state@[j])@.len() == width,
                forall|j: int, x: int| 0 <= j < y && 0 <= x < width ==> #[trigger] state@[j]@[x] == background,
            decreases height - y,
        {
            let mut row: Vec<T> = Vec::new();
            let mut x: usize = 0;
            while x < width
                invariant
                    x <= width,
                    row@.len() == x,
                    forall|i: int| 0 <= i < x ==> #[trigger] row@[i] == background,
                decreases width - x,
            {
                row.push(background);
                x = x + 1;
            }
            state.push(row);
            y = y + 1;
        }
        Canvas { width, height, state }
    }

    pub fn width(&self) -> (r: usize)
        ensures
            r == self.spec_width(),
    {
        self.width
    }

    pub fn height(&self) -> (r: usize)
        ensures
            r == self.spec_height(),
    {
        self.height
    }

    /// The color at column `x` of row `y`.
    pub fn pixel_at(&self, x: usize, y: usize) -> (r: T)
        requires
            self.wf(),
            x < self.spec_width(),
            y < self.spec_height(),
        ensures
            r == self.pixel(x as int, y as int),
    {
        self.state[y][x]
    }

    /// Sets the pixel at column `x` of row `y`; a position off the canvas
    /// is ignored.
    pub fn write_pixel(&mut self, color: T, x: isize, y: isize)
        requires
            old(self).wf(),
        ensures
            final(self).wf(),
            final(self).spec_width() == old(self).spec_width(),
            final(self).spec_height() == old(self).spec_height(),
            forall|i: int, j: int|
                0 <= i < old(self).spec_width() && 0 <= j < old(self).spec_height() ==> #[trigger] final(self).pixel(i, j) == if i == x && j == y {
                    color
                } else {
                    old(self).pixel(i, j)
                },
    {
        if 0 <= y && 0 <= x && (y as usize) < self.height && (x as usize) < self.width {
            let yu = y as usize;
            let xu = x as usize;
            let mut row: Vec<T> = Vec::new();
            std::mem::swap(&mut row, &mut self.state[yu]);
            assert(row@ == old(self).state@[yu as int]@);
            row.set(xu, color);
            self.state.set(yu, row);
            assert forall|j: int| 0 <= j < self.height implies (#[trigger] self.state@[j])@.len() == self.width by {
                if j != yu {
                    assert(self.state@[j] == old(self).state@[j]);
                }
            }
        }
    }
}

/// The pixels a render visits, row by row from the top, each row from the
/// left: the `k`-th is column `k % hsize` of row `k / hsize`.
pub fn render_order(hsize: usize, vsize: usize) -> (r: Vec<(usize, usize)>)
    requires
        hsize * vsize <= usize::MAX,
    ensures
        r@.len() == hsize * vsize,
        forall|k: int| 0 <= k < r@.len() ==> #[trigger] r@[k] == ((k % hsize as int) as usize, (k / hsize as int) as usize),
{
    let n: usize = hsize * vsize;
    let mut pixels: Vec<(usize, usize)> = Vec::new();
    let mut k: usize = 0;
    while k < n
        invariant
            n == hsize * vsize,
            k <= n,
            pixels@.len() == k,
            forall|i: int| 0 <= i < k ==> #[trigger] pixels@[i] == ((i % hsize as int) as usize, (i / hsize as int) as usize),
        decreases n - k,
    {
        proof {
            if hsize == 0 {
                assert(hsize * vsize == 0);
            }
        }
        pixels.push((k % hsize, k / hsize));
        k = k + 1;
    }
    pixels
}

} // verus!
