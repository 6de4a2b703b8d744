//! The life grid engine: a bounded two-dimensional binary cell grid evolved
//! under Conway's Game of Life rules.
//!
//! Cells are stored row-major as one byte each (0 dead, 1 alive); the cell
//! at column `x` and row `y` sits at index `y * width + x`. The grid does
//! not wrap: neighbors outside the bounds count as dead. Mutations aimed
//! outside the bounds are silent no-ops, never errors.

use vstd::prelude::*;

use crate::pattern::alive_mark;
use crate::pattern::is_alive_mark;
use crate::pattern::parse_pattern;
use crate::pattern::pattern_rows;
use crate::rng::lcg_next;
use crate::rng::lcg_stream;
use crate::rng::SimpleRng;

verus! {

/// True when `(x, y)` lies inside a `w` by `h` grid and the row-major
/// buffer `cells` holds an alive cell there. Out-of-bounds positions are
/// dead by definition, which is exactly the engine's edge rule.
pub open spec fn alive_at(cells: Seq<u8>, w: int, h: int, x: int, y: int) -> bool {
    0 <= x < w && 0 <= y < h && cells[y * w + x] == 1
}

/// The number of alive cells among the up-to-8 Moore neighbors of
/// `(x, y)`; neighbors outside the grid count as dead.
pub open spec fn live_neighbors(cells: Seq<u8>, w: int, h: int, x: int, y: int) -> int {
    (if alive_at(cells, w, h, x - 1, y - 1) {
        1int
    } else {
        0int
    }) + (if alive_at(cells, w, h, x, y - 1) {
        1int
    } else {
        0int
    }) + (if alive_at(cells, w, h, x + 1, y - 1) {
        1int
    } else {
        0int
    }) + (if alive_at(cells, w, h, x - 1, y) {
        1int
    } else {
        0int
    }) + (if alive_at(cells, w, h, x + 1, y) {
        1int
    } else {
        0int
    }) + (if alive_at(cells, w, h, x - 1, y + 1) {
        1int
    } else {
        0int
    }) + (if alive_at(cells, w, h, x, y + 1) {
        1int
    } else {
        0int
    }) + (if alive_at(cells, w, h, x + 1, y + 1) {
        1int
    } else {
        0int
    })
}

/// The state of cell `(x, y)` after one generation: an alive cell survives
/// with 2 or 3 alive neighbors, a dead cell is born with exactly 3, and
/// every other cell is dead.
pub open spec fn next_cell(cells: Seq<u8>, w: int, h: int, x: int, y: int) -> u8 {
    let n = live_neighbors(cells, w, h, x, y);
    if alive_at(cells, w, h, x, y) {
        if n == 2 || n == 3 {
            1u8
        } else {
            0u8
        }
    } else {
        if n == 3 {
            1u8
        } else {
            0u8
        }
    }
}

/// Row-major indices are in range: `(x, y)` inside a `w` by `h` grid lands
/// inside a buffer of `w * h` cells.
proof fn lemma_idx_bound(w: int, h: int, x: int, y: int)
    by (nonlinear_arith)
    requires
        0 <= x < w,
        0 <= y < h,
    ensures
        0 <= y * w + x < w * h,
{
}

/// Row-major indexing is injective over in-bounds coordinates.
proof fn lemma_idx_inj(w: int, h: int, x1: int, y1: int, x2: int, y2: int)
    by (nonlinear_arith)
    requires
        0 <= x1 < w,
        0 <= y1 < h,
        0 <= x2 < w,
        0 <= y2 < h,
        y1 * w + x1 == y2 * w + x2,
    ensures
        x1 == x2 && y1 == y2,
{
}

/// A cell of an earlier row sits strictly before any cell of a later row.
proof fn lemma_row_major_lt(w: int, x1: int, y1: int, x2: int, y2: int)
    by (nonlinear_arith)
    requires
        0 <= x1 < w,
        0 <= y1 < y2,
        0 <= x2,
    ensures
        y1 * w + x1 < y2 * w + x2,
{
}

/// The pattern rows cover grid position `(xx, yy)` when placed with their
/// top-left corner at `(ox, oy)`: the position falls on one of the rows,
/// and that row is long enough to reach its column.
pub open spec fn covers(rows: Seq<Seq<char>>, ox: int, oy: int, xx: int, yy: int) -> bool {
    &&& oy <= yy < oy + rows.len()
    &&& ox <= xx
    &&& xx - ox < rows[yy - oy].len()
}

/// The 0/1 cell value the pattern prescribes at a covered position.
pub open spec fn pattern_value(rows: Seq<Seq<char>>, ox: int, oy: int, xx: int, yy: int) -> u8 {
    if alive_mark(rows[yy - oy][xx - ox]) {
        1u8
    } else {
        0u8
    }
}

/// `post` is `pre` with the pattern stamped at `(ox, oy)`: every covered
/// in-bounds cell is explicitly set to the pattern's value, alive or dead
/// (overlay semantics), every other cell keeps its previous state, and
/// covered positions outside the grid are skipped silently.
pub open spec fn pattern_applied(
    pre: Seq<u8>,
    post: Seq<u8>,
    w: int,
    h: int,
    rows: Seq<Seq<char>>,
    ox: int,
    oy: int,
) -> bool {
    &&& post.len() == pre.len()
    &&& forall|xx: int, yy: int|
        0 <= xx < w && 0 <= yy < h ==> post[yy * w + xx] == (if #[trigger] covers(
            rows,
            ox,
            oy,
            xx,
            yy,
        ) {
            pattern_value(rows, ox, oy, xx, yy)
        } else {
            pre[yy * w + xx]
        })
}

/// Position covered by one of the first `dy` full rows, or by row `dy`
/// left of column `dx`: the part of a pattern a row-major stamping loop
/// has already written.
spec fn covers_before(
    rows: Seq<Seq<char>>,
    ox: int,
    oy: int,
    xx: int,
    yy: int,
    dy: int,
    dx: int,
) -> bool {
    covers(rows, ox, oy, xx, yy) && (yy - oy < dy || (yy - oy == dy && xx - ox < dx))
}

/// Overlay semantics across two loads: after a second pattern is stamped,
/// every in-bounds cell its footprint covers holds exactly the second
/// pattern's value — cells the second pattern marks dead overwrite cells
/// the first load left alive.
pub proof fn lemma_load_pattern_overlay(
    pre: Seq<u8>,
    mid: Seq<u8>,
    post: Seq<u8>,
    w: int,
    h: int,
    rows1: Seq<Seq<char>>,
    ox1: int,
    oy1: int,
    rows2: Seq<Seq<char>>,
    ox2: int,
    oy2: int,
    xx: int,
    yy: int,
)
    requires
        pattern_applied(pre, mid, w, h, rows1, ox1, oy1),
        pattern_applied(mid, post, w, h, rows2, ox2, oy2),
        0 <= xx < w,
        0 <= yy < h,
        covers(rows2, ox2, oy2, xx, yy),
    ensures
        post[yy * w + xx] == pattern_value(rows2, ox2, oy2, xx, yy),
{
}

/// A bounded two-dimensional grid of binary cells under Game of Life
/// rules. The cell buffer always holds exactly `width * height` bytes,
/// each 0 or 1.
pub struct GameOfLife {
    pub width: usize,
    pub height: usize,
    pub cells: Vec<u8>,
}

impl GameOfLife {
    /// The grid's invariant: the buffer length matches the dimensions and
    /// every cell is a 0/1 discriminant.
    pub open spec fn wf(&self) -> bool {
        &&& self.cells@.len() == self.width * self.height
        &&& forall|k: int|
            0 <= k < self.cells@.len() ==> (#[trigger] self.cells@[k]) == 0 || self.cells@[k] == 1
    }

    /// Creates a grid of the given dimensions with every cell dead. A
    /// width or height of 0 yields a degenerate empty grid, not an error.
    pub fn new(width: usize, height: usize) -> (r: GameOfLife)
        requires
            width * height <= usize::MAX,
        ensures
            r.wf(),
            r.width == width,
            r.height == height,
            forall|k: int| 0 <= k < r.cells@.len() ==> (#[trigger] r.cells@[k]) == 0,
    {
        let total: usize = width * height;
        let mut cells: Vec<u8> = Vec::new();
        let mut k: usize = 0;
        while k < total
            invariant
                k <= total,
                cells@.len() == k,
                forall|j: int| 0 <= j < k ==> (#[trigger] cells@[j]) == 0,
            decreases total - k,
        {
            cells.push(0);
            k = k + 1;
        }
        GameOfLife { width, height, cells }
    }

    /// The buffer index of the in-bounds cell `(x, y)`.
    fn get_index(&self, x: usize, y: usize) -> (idx: usize)
        requires
            self.wf(),
            x < self.width,
            y < self.height,
        ensures
            idx == y * self.width + x,
            idx < self.cells@.len(),
    {
        let total = self.cells.len();
        proof {
            lemma_idx_bound(self.width as int, self.height as int, x as int, y as int);
            assert((y as int) * (self.width as int) + (x as int) < (total as int));
        }
        y * self.width + x
    }

    /// Whether the cell `(x, y)` is alive; positions outside the grid are
    /// dead.
    fn cell_alive(&self, x: usize, y: usize) -> (r: bool)
        requires
            self.wf(),
        ensures
            r == alive_at(self.cells@, self.width as int, self.height as int, x as int, y as int),
    {
        if x < self.width && y < self.height {
            let idx = self.get_index(x, y);
            self.cells[idx] == 1
        } else {
            false
        }
    }

    /// Counts the alive cells among the Moore neighbors of the in-bounds
    /// cell `(x, y)`.
    fn live_neighbor_count(&self, x: usize, y: usize) -> (count: u8)
        requires
            self.wf(),
            x < self.width,
            y < self.height,
        ensures
            count as int == live_neighbors(
                self.cells@,
                self.width as int,
                self.height as int,
                x as int,
                y as int,
            ),
    {
        let mut count: u8 = 0;
        if x > 0 && y > 0 && self.cell_alive(x - 1, y - 1) {
            count = count + 1;
        }
        if y > 0 && self.cell_alive(x, y - 1) {
            count = count + 1;
        }
        if y > 0 && self.cell_alive(x + 1, y - 1) {
            count = count + 1;
        }
        if x > 0 && self.cell_alive(x - 1, y) {
            count = count + 1;
        }
        if self.cell_alive(x + 1, y) {
            count = count + 1;
        }
        if x > 0 && self.cell_alive(x - 1, y + 1) {
            count = count + 1;
        }
        if self.cell_alive(x, y + 1) {
            count = count + 1;
        }
        if self.cell_alive(x + 1, y + 1) {
            count = count + 1;
        }
        count
    }

    /// Returns a snapshot copy of the cell buffer, row-major, one 0/1 byte
    /// per cell.
    pub fn render(&self) -> (r: Vec<u8>)
        requires
            self.wf(),
        ensures
            r@ == self.cells@,
    {
        let mut out: Vec<u8> = Vec::new();
        let mut k: usize = 0;
        let len = self.cells.len();
        while k < len
            invariant
                k <= len,
                len == self.cells@.len(),
                out@ == self.cells@.subrange(0, k as int),
            decreases len - k,
        {
            proof {
                assert(self.cells@.subrange(0, k as int).push(self.cells@[k as int])
                    =~= self.cells@.subrange(0, k as int + 1));
            }
            out.push(self.cells[k]);
            k = k + 1;
        }
        proof {
            assert(self.cells@.subrange(0, len as int) =~= self.cells@);
        }
        out
    }

    /// Sets the cell `(x, y)` alive or dead if it is in bounds; a call
    /// aimed outside the grid changes nothing.
    pub fn set_cell(&mut self, x: usize, y: usize, alive: bool)
        requires
            old(self).wf(),
        ensures
            final (self).wf(),
            final (self).width == old(self).width,
            final (self).height == old(self).height,
            x < old(self).width && y < old(self).height ==> final (self).cells@ == old(
                self,
            ).cells@.update(y * old(self).width + x, (if alive {
                1u8
            } else {
                0u8
            })),
            !(x < old(self).width && y < old(self).height) ==> final (self).cells@ == old(
                self,
            ).cells@,
    {
        if x < self.width && y < self.height {
            let idx = self.get_index(x, y);
            self.cells[idx] = if alive {
                1
            } else {
                0
            };
        }
    }

    /// Sets every cell dead; the dimensions stay as they are.
    pub fn clear(&mut self)
        requires
            old(self).wf(),
        ensures
            final (self).wf(),
            final (self).width == old(self).width,
            final (self).height == old(self).height,
            final (self).cells@.len() == old(self).cells@.len(),
            forall|k: int|
                0 <= k < final (self).cells@.len() ==> (#[trigger] final (self).cells@[k]) == 0,
    {
        let len = self.cells.len();
        let mut k: usize = 0;
        while k < len
            invariant
                k <= len,
                len == self.cells@.len(),
                self.width == old(self).width,
                self.height == old(self).height,
                self.cells@.len() == old(self).cells@.len(),
                forall|j: int| 0 <= j < k ==> (#[trigger] self.cells@[j]) == 0,
            decreases len - k,
        {
            self.cells[k] = 0;
            k = k + 1;
        }
        proof {
            assert(self.cells@.len() == self.width * self.height);
        }
    }

    /// Advances the grid exactly one generation. Every cell's next state
    /// is computed from the pre-tick snapshot, and the finished buffer
    /// replaces the old one in one step, so no caller ever observes a
    /// half-updated grid.
    #[verifier::loop_isolation(false)]
    pub fn tick(&mut self)
        requires
            old(self).wf(),
        ensures
            final (self).wf(),
            final (self).width == old(self).width,
            final (self).height == old(self).height,
            forall|xx: int, yy: int|
                0 <= xx < old(self).width && 0 <= yy < old(self).height ==> final (self).cells@[yy
                    * old(self).width + xx] == #[trigger] next_cell(
                    old(self).cells@,
                    old(self).width as int,
                    old(self).height as int,
                    xx,
                    yy,
                ),
    {
        let w = self.width;
        let h = self.height;
        let mut new_cells: Vec<u8> = Vec::new();
        let mut y: usize = 0;
        while y < h
            invariant
                y <= h,
                new_cells@.len() == y * w,
                forall|j: int|
                    0 <= j < new_cells@.len() ==> (#[trigger] new_cells@[j]) == 0
                        || new_cells@[j] == 1,
                forall|xx: int, yy: int|
                    0 <= xx < w && 0 <= yy < y ==> new_cells@[yy * w + xx] == #[trigger] next_cell(
                        self.cells@,
                        w as int,
                        h as int,
                        xx,
                        yy,
                    ),
            decreases h - y,
        {
            let mut x: usize = 0;
            while x < w
                invariant
                    x <= w,
                    y < h,
                    new_cells@.len() == y * w + x,
                    forall|j: int|
                        0 <= j < new_cells@.len() ==> (#[trigger] new_cells@[j]) == 0
                            || new_cells@[j] == 1,
                    forall|xx: int, yy: int|
                        0 <= xx < w && 0 <= yy < y ==> new_cells@[yy * w + xx]
                            == #[trigger] next_cell(self.cells@, w as int, h as int, xx, yy),
                    forall|xx: int|
                        0 <= xx < x ==> new_cells@[y * w + xx] == #[trigger] next_cell(
                            self.cells@,
                            w as int,
                            h as int,
                            xx,
                            y as int,
                        ),
                decreases w - x,
            {
                let count = self.live_neighbor_count(x, y);
                let idx = self.get_index(x, y);
                let cur = self.cells[idx];
                let v: u8 = if cur == 1 {
                    if count == 2 || count == 3 {
                        1
                    } else {
                        0
                    }
                } else {
                    if count == 3 {
                        1
                    } else {
                        0
                    }
                };
                proof {
                    assert(v == next_cell(self.cells@, w as int, h as int, x as int, y as int));
                }
                let ghost before_push = new_cells@;
                new_cells.push(v);
                proof {
                    assert forall|xx: int, yy: int|
                        0 <= xx < w && 0 <= yy < y implies new_cells@[yy * w + xx]
                        == #[trigger] next_cell(self.cells@, w as int, h as int, xx, yy) by {
                        lemma_row_major_lt(w as int, xx, yy, x as int, y as int);
                        assert(new_cells@[yy * w + xx] == before_push[yy * w + xx]);
                    }
                }
                x = x + 1;
            }
            proof {
                assert(((y + 1) as int) * (w as int) == (y as int) * (w as int) + (w as int))
                    by (nonlinear_arith);
            }
            y = y + 1;
        }
        proof {
            assert((h as int) * (w as int) == (w as int) * (h as int)) by (nonlinear_arith);
        }
        self.cells = new_cells;
    }

    /// Overwrites every cell with a fresh draw from the given generator:
    /// alive exactly when the draw lands in the low 30% band (value mod
    /// 1000 below 300), dead otherwise. Cell `k` in row-major order
    /// consumes the `k+1`-th draw.
    #[verifier::loop_isolation(false)]
    pub fn randomize(&mut self, rng: &mut SimpleRng)
        requires
            old(self).wf(),
        ensures
            final (self).wf(),
            final (self).width == old(self).width,
            final (self).height == old(self).height,
            final (self).cells@.len() == old(self).cells@.len(),
            final (rng)@ == lcg_stream(old(rng)@, final (self).cells@.len() as nat),
            forall|k: int|
                0 <= k < final (self).cells@.len() ==> (#[trigger] final (self).cells@[k]) == (
                if lcg_stream(old(rng)@, (k + 1) as nat) % 1000 < 300 {
                    1u8
                } else {
                    0u8
                }),
    {
        let len = self.cells.len();
        let mut k: usize = 0;
        while k < len
            invariant
                k <= len,
                len == self.cells@.len(),
                self.width == old(self).width,
                self.height == old(self).height,
                self.cells@.len() == old(self).cells@.len(),
                rng@ == lcg_stream(old(rng)@, k as nat),
                forall|j: int|
                    0 <= j < k ==> (#[trigger] self.cells@[j]) == (if lcg_stream(
                        old(rng)@,
                        (j + 1) as nat,
                    ) % 1000 < 300 {
                        1u8
                    } else {
                        0u8
                    }),
                forall|j: int| k <= j < len ==> (#[trigger] self.cells@[j]) == old(self).cells@[j],
            decreases len - k,
        {
            let v = rng.next();
            proof {
                assert(lcg_stream(old(rng)@, (k + 1) as nat) == lcg_next(
                    lcg_stream(old(rng)@, k as nat),
                ));
            }
            let b: u8 = if v % 1000 < 300 {
                1
            } else {
                0
            };
            self.cells[k] = b;
            k = k + 1;
        }
        proof {
            assert(self.cells@.len() == self.width * self.height);
        }
    }

    /// Loads a textual pattern with its top-left corner at `(x, y)`: every
    /// covered cell is explicitly set alive or dead as the template says
    /// (overlay semantics), cells outside the template's footprint keep
    /// their state, and covered positions outside the grid are skipped
    /// silently.
    #[verifier::loop_isolation(false)]
    pub fn load_pattern(&mut self, pattern: &str, x: usize, y: usize)
        requires
            old(self).wf(),
        ensures
            final (self).wf(),
            final (self).width == old(self).width,
            final (self).height == old(self).height,
            pattern_applied(
                old(self).cells@,
                final (self).cells@,
                old(self).width as int,
                old(self).height as int,
                pattern_rows(pattern@),
                x as int,
                y as int,
            ),
    {
        let rows = parse_pattern(pattern);
        let ghost rows_v = pattern_rows(pattern@);
        let ghost pre = self.cells@;
        let ghost w = self.width as int;
        let ghost h = self.height as int;
        let ghost ox = x as int;
        let ghost oy = y as int;
        let mut dy: usize = 0;
        while dy < rows.len()
            invariant
                dy <= rows@.len(),
                self.wf(),
                self.width == old(self).width,
                self.height == old(self).height,
                self.cells@.len() == pre.len(),
                forall|xx: int, yy: int|
                    0 <= xx < w && 0 <= yy < h ==> self.cells@[yy * w + xx] == (
                    if #[trigger] covers_before(rows_v, ox, oy, xx, yy, dy as int, 0) {
                        pattern_value(rows_v, ox, oy, xx, yy)
                    } else {
                        pre[yy * w + xx]
                    }),
            decreases rows@.len() - dy,
        {
            let row_len = rows[dy].len();
            let mut dx: usize = 0;
            while dx < row_len
                invariant
                    dx <= row_len,
                    dy < rows@.len(),
                    row_len == rows_v[dy as int].len(),
                    self.wf(),
                    self.width == old(self).width,
                    self.height == old(self).height,
                    self.cells@.len() == pre.len(),
                    forall|xx: int, yy: int|
                        0 <= xx < w && 0 <= yy < h ==> self.cells@[yy * w + xx] == (
                        if #[trigger] covers_before(rows_v, ox, oy, xx, yy, dy as int, dx as int) {
                            pattern_value(rows_v, ox, oy, xx, yy)
                        } else {
                            pre[yy * w + xx]
                        }),
                decreases row_len - dx,
            {
                let c = rows[dy][dx];
                let alive = is_alive_mark(c);
                let ghost prev = self.cells@;
                if x <= usize::MAX - dx && y <= usize::MAX - dy {
                    self.set_cell(x + dx, y + dy, alive);
                }
                proof {
                    assert(c == rows_v[dy as int][dx as int]);
                    let val = (if alive {
                        1u8
                    } else {
                        0u8
                    });
                    assert forall|xx: int, yy: int|
                        0 <= xx < w && 0 <= yy < h implies self.cells@[yy * w + xx] == (
                    if #[trigger] covers_before(rows_v, ox, oy, xx, yy, dy as int, dx as int + 1) {
                        pattern_value(rows_v, ox, oy, xx, yy)
                    } else {
                        pre[yy * w + xx]
                    }) by {
                        lemma_idx_bound(w, h, xx, yy);
                        assert(0 <= yy * w + xx < prev.len());
                        let was = covers_before(rows_v, ox, oy, xx, yy, dy as int, dx as int);
                        assert(prev[yy * w + xx] == (if was {
                            pattern_value(rows_v, ox, oy, xx, yy)
                        } else {
                            pre[yy * w + xx]
                        }));
                        if xx == ox + dx && yy == oy + dy {
                            assert(covers(rows_v, ox, oy, xx, yy));
                            assert(x <= usize::MAX - dx && y <= usize::MAX - dy);
                            assert(x + dx < old(self).width && y + dy < old(self).height);
                            assert(self.cells@ == prev.update(yy * w + xx, val));
                            assert(pattern_value(rows_v, ox, oy, xx, yy) == val);
                        } else {
                            if x <= usize::MAX - dx && y <= usize::MAX - dy && x + dx
                                < old(self).width && y + dy < old(self).height {
                                lemma_idx_bound(w, h, ox + dx, oy + dy);
                                if yy * w + xx == (oy + dy) * w + (ox + dx) {
                                    lemma_idx_inj(w, h, xx, yy, ox + dx, oy + dy);
                                }
                                assert(self.cells@[yy * w + xx] == prev[yy * w + xx]);
                            } else {
                                assert(self.cells@[yy * w + xx] == prev[yy * w + xx]);
                            }
                            if covers_before(rows_v, ox, oy, xx, yy, dy as int, dx as int + 1) {
                                assert(covers_before(rows_v, ox, oy, xx, yy, dy as int, dx as int));
                            }
                        }
                    }
                }
                dx = dx + 1;
            }
            proof {
                assert forall|xx: int, yy: int|
                    0 <= xx < w && 0 <= yy < h implies self.cells@[yy * w + xx] == (
                if #[trigger] covers_before(rows_v, ox, oy, xx, yy, dy as int + 1, 0) {
                    pattern_value(rows_v, ox, oy, xx, yy)
                } else {
                    pre[yy * w + xx]
                }) by {
                    let was = covers_before(rows_v, ox, oy, xx, yy, dy as int, row_len as int);
                    assert(self.cells@[yy * w + xx] == (if was {
                        pattern_value(rows_v, ox, oy, xx, yy)
                    } else {
                        pre[yy * w + xx]
                    }));
                    if covers_before(rows_v, ox, oy, xx, yy, dy as int + 1, 0) {
                        assert(covers(rows_v, ox, oy, xx, yy));
                        assert(yy - oy <= dy);
                        assert(was);
                    }
                }
            }
            dy = dy + 1;
        }
        proof {
            assert forall|xx: int, yy: int|
                0 <= xx < w && 0 <= yy < h implies self.cells@[yy * w + xx] == (
            if #[trigger] covers(rows_v, ox, oy, xx, yy) {
                pattern_value(rows_v, ox, oy, xx, yy)
            } else {
                pre[yy * w + xx]
            }) by {
                let was = covers_before(rows_v, ox, oy, xx, yy, rows_v.len() as int, 0);
                assert(self.cells@[yy * w + xx] == (if was {
                    pattern_value(rows_v, ox, oy, xx, yy)
                } else {
                    pre[yy * w + xx]
                }));
                if covers(rows_v, ox, oy, xx, yy) {
                    assert(yy - oy < rows_v.len());
                    assert(was);
                }
            }
        }
    }
}

} // verus!
