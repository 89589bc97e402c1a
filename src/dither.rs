use vstd::prelude::*;

verus! {

/// Where one pixel of a serpentine Floyd–Steinberg pass sits: its column, its
/// position in the output, and the slots of the error rows (which carry one
/// sentinel column on each side) that it reads from and spreads into.
#[derive(Clone, Copy, Debug, PartialEq, Eq, Structural)]
pub struct DitherStep {
    /// Column of the pixel.
    pub x: usize,
    /// Index of the pixel in the image, row-major.
    pub point: usize,
    /// Slot of the pixel in the error rows.
    pub err_ind: usize,
    /// Slot one column behind in traversal order.
    pub behind: usize,
    /// Slot one column ahead in traversal order.
    pub ahead: usize,
}

/// Row `y` runs right to left when odd, left to right when even.
pub open spec fn row_reversed(y: int) -> bool {
    y % 2 == 1
}

/// The step for the `xx`-th pixel visited in row `y`.
pub open spec fn dither_step_spec(width: int, y: int, xx: int) -> DitherStep {
    let x = if row_reversed(y) { width - 1 - xx } else { xx };
    DitherStep {
        x: x as usize,
        point: (width * y + x) as usize,
        err_ind: (x + 1) as usize,
        behind: (if row_reversed(y) { x + 2 } else { x }) as usize,
        ahead: (if row_reversed(y) { x } else { x + 2 }) as usize,
    }
}

/// The step for the `xx`-th pixel visited in row `y` of an image `width`
/// pixels wide: rows alternate direction, the first running left to right.
pub fn dither_step(width: usize, height: usize, y: usize, xx: usize) -> (s: DitherStep)
    requires
        xx < width,
        y < height,
        width as int * height as int <= usize::MAX,
        width + 2 <= usize::MAX,
    ensures
        s == dither_step_spec(width as int, y as int, xx as int),
        s.x < width,
        s.point < width as int * height as int,
        s.behind <= width + 1,
        s.ahead <= width + 1,
        s.err_ind <= width,
{
    let x = if y % 2 == 1 {
        width - 1 - xx
    } else {
        xx
    };
    proof {
        assert(width as int * y as int + x < width as int * height as int) by (nonlinear_arith)
            requires
                x < width,
                y < height,
        ;
    }
    let point = width * y + x;
    let err_ind = x + 1;
    if y % 2 == 1 {
        DitherStep { x, point, err_ind, behind: err_ind + 1, ahead: err_ind - 1 }
    } else {
        DitherStep { x, point, err_ind, behind: err_ind - 1, ahead: err_ind + 1 }
    }
}

/// When, in row `y`, column `x` is visited.
pub open spec fn visit_pos(width: int, y: int, x: int) -> int {
    if row_reversed(y) {
        width - 1 - x
    } else {
        x
    }
}

/// Every row visits each of its pixels exactly once.
pub proof fn lemma_row_visits_each_pixel(width: int, y: int)
    requires
        0 <= width <= usize::MAX,
        y >= 0,
    ensures
        forall|x: int|
            0 <= x < width ==> 0 <= #[trigger] visit_pos(width, y, x) < width && dither_step_spec(width, y, visit_pos(width, y, x)).x == x,
        forall|a: int, b: int|
            0 <= a < width && 0 <= b < width && a != b ==> #[trigger] dither_step_spec(width, y, a).x != #[trigger] dither_step_spec(width, y, b).x,
{
}

} // verus!
