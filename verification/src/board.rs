use vstd::prelude::*;

use crate::piece::{Orientation, Piece};
use vstd::string::StrSliceExecFns;
use vstd::string::StringExecFns;

verus! {

broadcast use vstd::seq_lib::lemma_seq_contains_after_push;

/// Largest supported grid extent: keeps every cell index inside `usize`
/// on any machine and every displacement inside `i32`.
pub const MAX_SIZE: usize = 0xffff;

/// `pc` with its anchor replaced by `p`; every other field is kept.
pub open spec fn piece_with_anchor(pc: Piece, p: usize) -> Piece {
    Piece { val: pc.val, p: p, row: pc.row, size: pc.size, orientation: pc.orientation }
}

/// The run is at least two cells long and every cell lies on the grid.
pub open spec fn piece_in_bounds(pc: Piece, width: int, height: int) -> bool {
    &&& pc.size >= 2
    &&& if pc.spec_is_horizontal() {
        pc.p + pc.size <= width && pc.row < height
    } else {
        pc.p + pc.size <= height && pc.row < width
    }
}

/// No cell is occupied by both pieces.
pub open spec fn pieces_disjoint(a: Piece, b: Piece) -> bool {
    forall|x: int, y: int|
        #![trigger a.spec_contains(x, y), b.spec_contains(x, y)]
        !(a.spec_contains(x, y) && b.spec_contains(x, y))
}

pub open spec fn wall_in_bounds(w: (usize, usize), width: int, height: int) -> bool {
    w.0 < width && w.1 < height
}

/// Well-formedness of a full placement: a square grid of bounded extent, a
/// valid horizontal primary piece, all pieces on the grid, no two pieces
/// overlapping, no piece overlapping a wall, all walls on the grid.
pub open spec fn conf_wf(
    width: int,
    height: int,
    pieces: Seq<Piece>,
    walls: Seq<(usize, usize)>,
    primary: int,
) -> bool {
    &&& width == height
    &&& width <= MAX_SIZE as int
    &&& 0 <= primary < pieces.len()
    &&& pieces[primary].spec_is_horizontal()
    &&& forall|k: int|
        0 <= k < pieces.len() ==> piece_in_bounds(#[trigger] pieces[k], width, height)
    &&& forall|j: int, k: int|
        0 <= j < pieces.len() && 0 <= k < pieces.len() && j != k ==> pieces_disjoint(
            #[trigger] pieces[j],
            #[trigger] pieces[k],
        )
    &&& forall|wi: int|
        0 <= wi < walls.len() ==> wall_in_bounds(#[trigger] walls[wi], width, height)
    &&& forall|k: int, wi: int|
        0 <= k < pieces.len() && 0 <= wi < walls.len() ==> !(#[trigger] pieces[k].spec_contains(
            (#[trigger] walls[wi]).0 as int,
            walls[wi].1 as int,
        ))
}

/// Legality of sliding piece `i` by the signed displacement `d` within the
/// placement: the displaced piece stays on the grid and overlaps neither
/// another piece nor a wall.
pub open spec fn conf_move_ok(
    width: int,
    height: int,
    pieces: Seq<Piece>,
    walls: Seq<(usize, usize)>,
    i: int,
    d: int,
) -> bool {
    &&& 0 <= i < pieces.len()
    &&& d != 0
    &&& 0 <= pieces[i].p + d
    &&& {
        let moved = piece_with_anchor(pieces[i], (pieces[i].p + d) as usize);
        &&& piece_in_bounds(moved, width, height)
        &&& forall|j: int|
            0 <= j < pieces.len() && j != i ==> pieces_disjoint(moved, #[trigger] pieces[j])
        &&& forall|wi: int|
            0 <= wi < walls.len() ==> !moved.spec_contains(
                (#[trigger] walls[wi]).0 as int,
                walls[wi].1 as int,
            )
    }
}

/// Cell (x, y) is covered by no piece of the placement and no wall.
pub open spec fn conf_cell_free(
    pieces: Seq<Piece>,
    walls: Seq<(usize, usize)>,
    x: int,
    y: int,
) -> bool {
    &&& forall|k: int| 0 <= k < pieces.len() ==> !(#[trigger] pieces[k]).spec_contains(x, y)
    &&& forall|wi: int|
        0 <= wi < walls.len() ==> !((#[trigger] walls[wi]).0 == x && walls[wi].1 == y)
}

/// Freedom of the cell at coordinate `pos` along the piece's own movement
/// axis, within a placement.
pub open spec fn conf_free_along(
    pieces: Seq<Piece>,
    walls: Seq<(usize, usize)>,
    pc: Piece,
    pos: int,
) -> bool {
    if pc.spec_is_horizontal() {
        conf_cell_free(pieces, walls, pos, pc.row as int)
    } else {
        conf_cell_free(pieces, walls, pc.row as int, pos)
    }
}

/// The configuration after sliding piece `i` by `d`: anchor `i` displaced,
/// all other anchors kept.
pub open spec fn conf_apply(c: Seq<usize>, i: int, d: int) -> Seq<usize> {
    c.update(i, (c[i] + d) as usize)
}

/// A square grid holding sliding pieces and immovable wall cells; one
/// distinguished horizontal piece (the primary) must reach the right edge.
#[derive(Clone)]
pub struct Board {
    pub width: usize,
    pub height: usize,
    pub pieces: Vec<Piece>,
    pub walls: Vec<(usize, usize)>,
    pub primary_piece_id: usize,
}

impl Board {
    /// The pieces re-anchored to configuration `c`.
    pub open spec fn placed(&self, c: Seq<usize>) -> Seq<Piece> {
        Seq::new(self.pieces@.len(), |k: int| piece_with_anchor(self.pieces@[k], c[k]))
    }

    /// The current configuration: every piece's anchor, in piece order.
    pub open spec fn spec_config(&self) -> Seq<usize> {
        self.pieces@.map_values(|pc: Piece| pc.p)
    }

    /// The board invariant, stated for an arbitrary configuration `c` of its
    /// pieces.
    pub open spec fn wf_config(&self, c: Seq<usize>) -> bool {
        &&& c.len() == self.pieces@.len()
        &&& conf_wf(
            self.width as int,
            self.height as int,
            self.placed(c),
            self.walls@,
            self.primary_piece_id as int,
        )
    }

    /// The board invariant at the current configuration.
    pub open spec fn wf(&self) -> bool {
        self.wf_config(self.spec_config())
    }

    /// Legality of sliding piece `i` by `d` at configuration `c`.
    pub open spec fn spec_move_ok(&self, c: Seq<usize>, i: int, d: int) -> bool {
        &&& c.len() == self.pieces@.len()
        &&& conf_move_ok(
            self.width as int,
            self.height as int,
            self.placed(c),
            self.walls@,
            i,
            d,
        )
    }

    /// Cell (x, y) is covered by no piece and no wall at the current
    /// configuration.
    pub open spec fn spec_free(&self, x: int, y: int) -> bool {
        conf_cell_free(self.pieces@, self.walls@, x, y)
    }

    /// Sliding piece `i` by the signed distance `d` crosses only free cells:
    /// the displaced run stays on the square grid and every cell scanned on
    /// the way out is free at the current configuration. These are exactly
    /// the slides that move-enumeration reports.
    pub open spec fn spec_slide_ok(&self, i: int, d: int) -> bool {
        &&& 0 <= i < self.pieces@.len()
        &&& d != 0
        &&& 0 <= self.pieces@[i].p + d
        &&& self.pieces@[i].p + d + self.pieces@[i].size <= self.width as int
        &&& forall|pos: int|
            ((d > 0 && self.pieces@[i].p + self.pieces@[i].size <= pos < self.pieces@[i].p
                + self.pieces@[i].size + d) || (d < 0 && self.pieces@[i].p + d <= pos
                < self.pieces@[i].p)) ==> #[trigger] free_along(self, self.pieces@[i], pos)
    }

    /// Slide legality of (piece `i`, distance `d`) at an arbitrary
    /// configuration `c` of this board's skeleton.
    pub open spec fn slide_at(&self, c: Seq<usize>, i: int, d: int) -> bool {
        let ps = self.placed(c);
        &&& c.len() == self.pieces@.len()
        &&& 0 <= i < ps.len()
        &&& d != 0
        &&& 0 <= ps[i].p + d
        &&& ps[i].p + d + ps[i].size <= self.width as int
        &&& forall|pos: int|
            ((d > 0 && ps[i].p + ps[i].size <= pos < ps[i].p + ps[i].size + d) || (d < 0 && ps[i].p
                + d <= pos < ps[i].p)) ==> #[trigger] conf_free_along(ps, self.walls@, ps[i], pos)
    }

    /// The goal condition at configuration `c`: the primary piece is flush
    /// against the right edge.
    pub open spec fn spec_solved_config(&self, c: Seq<usize>) -> bool {
        c[self.primary_piece_id as int] + self.pieces@[self.primary_piece_id as int].size
            == self.width
    }

    /// The goal condition at the current configuration.
    pub open spec fn spec_solved(&self) -> bool {
        self.spec_solved_config(self.spec_config())
    }

    /// Everything but the anchors agrees: grid, walls, primary index, and
    /// every piece's identity, cross-coordinate, length and orientation.
    pub open spec fn same_skeleton(a: Board, b: Board) -> bool {
        &&& a.width == b.width
        &&& a.height == b.height
        &&& a.walls@ == b.walls@
        &&& a.primary_piece_id == b.primary_piece_id
        &&& a.pieces@.len() == b.pieces@.len()
        &&& forall|k: int|
            0 <= k < a.pieces@.len() ==> ((#[trigger] a.pieces@[k]).val == b.pieces@[k].val
                && a.pieces@[k].row == b.pieces@[k].row && a.pieces@[k].size == b.pieces@[k].size
                && a.pieces@[k].orientation == b.pieces@[k].orientation)
    }
}

/// Re-anchoring the pieces to their own current anchors changes nothing.
pub proof fn lemma_placed_id(b: &Board)
    ensures
        b.placed(b.spec_config()) == b.pieces@,
{
    assert(b.placed(b.spec_config()) =~= b.pieces@);
}

/// Boards with the same skeleton place any configuration identically, so
/// they agree on well-formedness, legality and the goal at every
/// configuration.
pub proof fn lemma_skeleton_placed(a: Board, b: Board, c: Seq<usize>)
    requires
        Board::same_skeleton(a, b),
        c.len() == a.pieces@.len(),
    ensures
        a.placed(c) == b.placed(c),
{
    assert(a.placed(c) =~= b.placed(c));
}

/// Skeleton agreement is transitive.
pub proof fn lemma_skeleton_trans(a: Board, b: Board, c: Board)
    requires
        Board::same_skeleton(a, b),
        Board::same_skeleton(b, c),
    ensures
        Board::same_skeleton(a, c),
{
    assert forall|k: int| 0 <= k < a.pieces@.len() implies ((#[trigger] a.pieces@[k]).val
        == c.pieces@[k].val && a.pieces@[k].row == c.pieces@[k].row && a.pieces@[k].size
        == c.pieces@[k].size && a.pieces@[k].orientation == c.pieces@[k].orientation) by {
        assert(a.pieces@[k].val == b.pieces@[k].val);
        assert(b.pieces@[k].val == c.pieces@[k].val);
    }
}

/// A board standing at configuration `c` reports exactly the slides that
/// are legal at `c` for any board of the same skeleton.
pub proof fn lemma_slide_transfer(b: &Board, b0: &Board, c: Seq<usize>)
    requires
        Board::same_skeleton(*b, *b0),
        b.spec_config() == c,
    ensures
        forall|i: int, d: int| #[trigger] b.spec_slide_ok(i, d) == b0.slide_at(c, i, d),
{
    lemma_placed_id(b);
    lemma_skeleton_placed(*b, *b0, c);
    assert forall|i: int, d: int| #[trigger] b.spec_slide_ok(i, d) == b0.slide_at(c, i, d) by {
        let ps = b0.placed(c);
        assert(ps == b.pieces@);
        assert(b0.walls@ == b.walls@);
        if 0 <= i < ps.len() {
            let pc = b.pieces@[i];
            if b.spec_slide_ok(i, d) {
                assert forall|pos: int|
                    ((d > 0 && ps[i].p + ps[i].size <= pos < ps[i].p + ps[i].size + d) || (d < 0
                        && ps[i].p + d <= pos < ps[i].p)) implies #[trigger] conf_free_along(
                    ps,
                    b0.walls@,
                    ps[i],
                    pos,
                ) by {
                    assert(free_along(b, pc, pos));
                }
                assert(b0.slide_at(c, i, d));
            }
            if b0.slide_at(c, i, d) {
                assert forall|pos: int|
                    ((d > 0 && pc.p + pc.size <= pos < pc.p + pc.size + d) || (d < 0 && pc.p + d
                        <= pos < pc.p)) implies #[trigger] free_along(b, pc, pos) by {
                    assert(conf_free_along(ps, b0.walls@, ps[i], pos));
                }
                assert(b.spec_slide_ok(i, d));
            }
        }
    }
}

/// Boards of the same skeleton agree on which slides are legal at every
/// configuration.
pub proof fn lemma_slide_at_agree(b1: Board, b2: Board, c: Seq<usize>)
    requires
        Board::same_skeleton(b1, b2),
    ensures
        forall|i: int, d: int| #[trigger] b1.slide_at(c, i, d) == b2.slide_at(c, i, d),
{
    if c.len() == b1.pieces@.len() {
        lemma_skeleton_placed(b1, b2, c);
        assert forall|i: int, d: int| #[trigger] b1.slide_at(c, i, d) == b2.slide_at(c, i, d) by {
            let ps = b1.placed(c);
            assert(b2.placed(c) == ps);
            assert(b2.walls@ == b1.walls@);
            if 0 <= i < ps.len() {
                if b1.slide_at(c, i, d) {
                    assert forall|pos: int|
                        ((d > 0 && ps[i].p + ps[i].size <= pos < ps[i].p + ps[i].size + d) || (d
                            < 0 && ps[i].p + d <= pos < ps[i].p)) implies #[trigger] conf_free_along(
                        ps,
                        b2.walls@,
                        ps[i],
                        pos,
                    ) by {}
                    assert(b2.slide_at(c, i, d));
                }
                if b2.slide_at(c, i, d) {
                    assert forall|pos: int|
                        ((d > 0 && ps[i].p + ps[i].size <= pos < ps[i].p + ps[i].size + d) || (d
                            < 0 && ps[i].p + d <= pos < ps[i].p)) implies #[trigger] conf_free_along(
                        ps,
                        b1.walls@,
                        ps[i],
                        pos,
                    ) by {}
                    assert(b1.slide_at(c, i, d));
                }
            }
        }
    }
}

/// Row-major index of cell (x, y) on a grid of the given width.
pub open spec fn cell_idx(width: int, x: int, y: int) -> int {
    y * width + x
}

/// Cell (x, y) is covered by none of the first `n` pieces.
pub open spec fn clear_of_pieces(pieces: Seq<Piece>, n: int, x: int, y: int) -> bool {
    forall|k: int| 0 <= k < n ==> !(#[trigger] pieces[k]).spec_contains(x, y)
}

/// Cell (x, y) is covered by none of the first `n` walls.
pub open spec fn clear_of_walls(walls: Seq<(usize, usize)>, n: int, x: int, y: int) -> bool {
    forall|wi: int| 0 <= wi < n ==> !((#[trigger] walls[wi]).0 == x && walls[wi].1 == y)
}

/// Cell (x, y) lies among the first `t` cells of the piece's run.
pub open spec fn piece_prefix_contains(pc: Piece, t: int, x: int, y: int) -> bool {
    if pc.spec_is_horizontal() {
        y == pc.row && pc.p <= x < pc.p + t
    } else {
        x == pc.row && pc.p <= y < pc.p + t
    }
}

/// The flat grid records exactly the free cells of the board.
pub open spec fn grid_reflects(b: &Board, w: int, grid: Seq<bool>) -> bool {
    forall|x: int, y: int|
        0 <= x < w && 0 <= y < w ==> grid[#[trigger] cell_idx(w, x, y)] == b.spec_free(x, y)
}

pub proof fn lemma_row_major_bounds(width: int, x: int, y: int)
    by (nonlinear_arith)
    requires
        0 <= x < width,
        0 <= y < width,
    ensures
        0 <= y * width + x < width * width,
{
}

pub proof fn lemma_row_major_inj(width: int, x1: int, y1: int, x2: int, y2: int)
    by (nonlinear_arith)
    requires
        0 <= x1 < width,
        0 <= y1 < width,
        0 <= x2 < width,
        0 <= y2 < width,
        y1 * width + x1 == y2 * width + x2,
    ensures
        x1 == x2,
        y1 == y2,
{
}

pub proof fn lemma_square_le(a: int, b: int)
    by (nonlinear_arith)
    requires
        0 <= a <= b,
    ensures
        a * a <= b * b,
{
}

/// Read one cell of the flat occupancy grid.
fn grid_free(grid: &Vec<bool>, width: usize, x: usize, y: usize) -> (r: bool)
    requires
        grid@.len() == width * width,
        width <= MAX_SIZE,
        x < width,
        y < width,
    ensures
        r == grid@[cell_idx(width as int, x as int, y as int)],
{
    proof {
        lemma_row_major_bounds(width as int, x as int, y as int);
        lemma_square_le(width as int, MAX_SIZE as int);
    }
    grid[y * width + x]
}

/// Overwrite one cell of the flat occupancy grid.
fn grid_set(grid: &mut Vec<bool>, width: usize, x: usize, y: usize, v: bool)
    requires
        old(grid)@.len() == width * width,
        width <= MAX_SIZE,
        x < width,
        y < width,
    ensures
        final(grid)@ == old(grid)@.update(cell_idx(width as int, x as int, y as int), v),
        final(grid)@.len() == old(grid)@.len(),
        0 <= cell_idx(width as int, x as int, y as int) < old(grid)@.len(),
{
    proof {
        lemma_row_major_bounds(width as int, x as int, y as int);
        lemma_square_le(width as int, MAX_SIZE as int);
    }
    grid[y * width + x] = v;
}

/// A puzzle character that denotes a piece cell: an uppercase letter.
pub open spec fn is_piece_char(ch: char) -> bool {
    'A' <= ch && ch <= 'Z'
}

/// The piece sits on the grid and every cell of its run holds its letter in
/// the row-major puzzle text.
pub open spec fn piece_matches(data: Seq<char>, bs: int, pc: Piece) -> bool {
    &&& piece_in_bounds(pc, bs, bs)
    &&& is_piece_char(pc.val)
    &&& forall|x: int, y: int|
        #[trigger] pc.spec_contains(x, y) ==> data[cell_idx(bs, x, y)] == pc.val
}

/// Freedom of the cell at coordinate `pos` along the piece's own movement
/// axis.
pub open spec fn free_along(b: &Board, pc: Piece, pos: int) -> bool {
    if pc.spec_is_horizontal() {
        b.spec_free(pos, pc.row as int)
    } else {
        b.spec_free(pc.row as int, pos)
    }
}

/// A character the puzzle encoding accepts.
pub open spec fn legal_char(ch: char) -> bool {
    ch == '.' || ch == 'o' || ch == 'x' || is_piece_char(ch)
}

/// Cell (cx, cy) lies strictly before the scan position (x, y) in row-major
/// order.
pub open spec fn before_cell(cx: int, cy: int, x: int, y: int) -> bool {
    cy < y || (cy == y && cx < x)
}

/// Some wall of the list sits on cell (x, y).
pub open spec fn wall_at(walls: Seq<(usize, usize)>, x: int, y: int) -> bool {
    exists|wi: int| 0 <= wi < walls.len() && (#[trigger] walls[wi]).0 == x && walls[wi].1 == y
}

/// The character `c` occurs somewhere on the n-by-n grid.
pub open spec fn grid_has_char(data: Seq<char>, n: int, c: char) -> bool {
    exists|x: int, y: int| 0 <= x < n && 0 <= y < n && data[#[trigger] cell_idx(n, x, y)] == c
}

/// The cells holding the piece's letter are exactly the piece's own cells:
/// one maximal run of length at least two.
pub open spec fn run_piece_for(data: Seq<char>, n: int, pc: Piece) -> bool {
    &&& piece_in_bounds(pc, n, n)
    &&& forall|x: int, y: int|
        0 <= x < n && 0 <= y < n ==> ((data[#[trigger] cell_idx(n, x, y)] == pc.val)
            <==> pc.spec_contains(x, y))
}

/// Some piece of the list carries the letter `c`.
pub open spec fn val_recorded(pieces: Seq<Piece>, c: char) -> bool {
    exists|k: int| 0 <= k < pieces.len() && (#[trigger] pieces[k]).val == c
}

/// A valid n-by-n puzzle text: every character is accepted, every occurring
/// letter forms exactly one run of length at least two (rightward or
/// downward), and the primary letter `A` occurs with a horizontal run.
pub open spec fn valid_grid(data: Seq<char>, n: int) -> bool {
    &&& data.len() == n * n
    &&& forall|x: int, y: int|
        0 <= x < n && 0 <= y < n ==> legal_char(data[#[trigger] cell_idx(n, x, y)])
    &&& forall|c: char|
        #[trigger] grid_has_char(data, n, c) && is_piece_char(c) ==> exists|pc: Piece|
            #[trigger] run_piece_for(data, n, pc) && pc.val == c
    &&& grid_has_char(data, n, 'A')
    &&& exists|pc: Piece|
        #[trigger] run_piece_for(data, n, pc) && pc.val == 'A' && pc.spec_is_horizontal()
}

/// A valid puzzle text: an n-by-n valid grid for the (unique) side n of
/// supported size.
pub open spec fn valid_puzzle(s: Seq<char>) -> bool {
    exists|n: int| 0 <= n <= MAX_SIZE as int && s.len() == n * n && #[trigger] valid_grid(s, n)
}

pub proof fn lemma_square_inj(a: int, b: int)
    by (nonlinear_arith)
    requires
        0 <= a,
        0 <= b,
        a * a == b * b,
    ensures
        a == b,
{
}

/// Pieces whose cells carry pairwise distinct letters in the text, and walls
/// sitting on wall characters, cannot overlap: the parsed placement is
/// well-formed.
pub proof fn lemma_parse_wf(
    data: Seq<char>,
    bs: int,
    pieces: Seq<Piece>,
    walls: Seq<(usize, usize)>,
    primary: int,
)
    requires
        0 <= bs <= MAX_SIZE as int,
        data.len() == bs * bs,
        forall|k: int| 0 <= k < pieces.len() ==> piece_matches(data, bs, #[trigger] pieces[k]),
        forall|j: int, k: int|
            0 <= j < pieces.len() && 0 <= k < pieces.len() && j != k ==> (#[trigger] pieces[j]).val
                != (#[trigger] pieces[k]).val,
        forall|wi: int|
            0 <= wi < walls.len() ==> wall_in_bounds(#[trigger] walls[wi], bs, bs) && data[cell_idx(
                bs,
                walls[wi].0 as int,
                walls[wi].1 as int,
            )] == 'x',
        0 <= primary < pieces.len(),
        pieces[primary].spec_is_horizontal(),
    ensures
        conf_wf(bs, bs, pieces, walls, primary),
{
    assert forall|j: int, k: int|
        0 <= j < pieces.len() && 0 <= k < pieces.len() && j != k implies pieces_disjoint(
        #[trigger] pieces[j],
        #[trigger] pieces[k],
    ) by {
        assert forall|x: int, y: int|
            #![trigger pieces[j].spec_contains(x, y), pieces[k].spec_contains(x, y)]
            !(pieces[j].spec_contains(x, y) && pieces[k].spec_contains(x, y)) by {
            if pieces[j].spec_contains(x, y) && pieces[k].spec_contains(x, y) {
                assert(data[cell_idx(bs, x, y)] == pieces[j].val);
                assert(data[cell_idx(bs, x, y)] == pieces[k].val);
                assert(false);
            }
        }
    }
    assert forall|k: int, wi: int|
        0 <= k < pieces.len() && 0 <= wi < walls.len() implies !(#[trigger] pieces[k].spec_contains(
        (#[trigger] walls[wi]).0 as int,
        walls[wi].1 as int,
    )) by {
        let wx = walls[wi].0 as int;
        let wy = walls[wi].1 as int;
        if pieces[k].spec_contains(wx, wy) {
            assert(data[cell_idx(bs, wx, wy)] == pieces[k].val);
            assert(data[cell_idx(bs, wx, wy)] == 'x');
            assert(!is_piece_char('x'));
            assert(false);
        }
    }
}

/// Multiply a bounded grid extent by itself without overflow.
fn square(a: usize) -> (r: usize)
    requires
        a <= MAX_SIZE,
    ensures
        r == a * a,
{
    proof {
        lemma_square_le(a as int, MAX_SIZE as int);
    }
    a * a
}

/// Read the puzzle character at cell (x, y) of the row-major text.
fn char_at(data: &Vec<char>, bs: usize, x: usize, y: usize) -> (c: char)
    requires
        data@.len() == bs * bs,
        bs <= MAX_SIZE,
        x < bs,
        y < bs,
    ensures
        c == data@[cell_idx(bs as int, x as int, y as int)],
{
    proof {
        lemma_row_major_bounds(bs as int, x as int, y as int);
        lemma_square_le(bs as int, MAX_SIZE as int);
    }
    data[y * bs + x]
}

/// Linear membership test on the letters seen so far.
fn chars_contain(v: &Vec<char>, c: char) -> (r: bool)
    ensures
        r == v@.contains(c),
{
    let n = v.len();
    let mut i: usize = 0;
    while i < n
        invariant
            i <= n,
            n == v@.len(),
            forall|k: int| 0 <= k < i ==> v@[k] != c,
        decreases n - i,
    {
        if v[i] == c {
            return true;
        }
        i += 1;
    }
    false
}

/// A horizontal piece whose path of `|d|` cells beyond its near edge is
/// entirely free may slide by `d`: the displaced piece stays on the grid and
/// overlaps nothing.
pub proof fn lemma_clear_path_move_ok_h(b: &Board, i: int, d: int)
    requires
        b.wf(),
        0 <= i < b.pieces@.len(),
        b.pieces@[i].spec_is_horizontal(),
        d != 0,
        0 <= b.pieces@[i].p + d,
        b.pieces@[i].p + d + b.pieces@[i].size <= b.width as int,
        forall|pos: int|
            ((d > 0 && b.pieces@[i].p + b.pieces@[i].size <= pos < b.pieces@[i].p
                + b.pieces@[i].size + d) || (d < 0 && b.pieces@[i].p + d <= pos < b.pieces@[i].p))
                ==> #[trigger] b.spec_free(pos, b.pieces@[i].row as int),
    ensures
        b.spec_move_ok(b.spec_config(), i, d),
{
    lemma_placed_id(b);
    let pc = b.pieces@[i];
    let moved = piece_with_anchor(pc, (pc.p + d) as usize);
    assert(piece_in_bounds(moved, b.width as int, b.height as int));
    assert forall|j: int| 0 <= j < b.pieces@.len() && j != i implies pieces_disjoint(
        moved,
        #[trigger] b.pieces@[j],
    ) by {
        assert forall|x: int, y: int|
            #![trigger moved.spec_contains(x, y), b.pieces@[j].spec_contains(x, y)]
            !(moved.spec_contains(x, y) && b.pieces@[j].spec_contains(x, y)) by {
            if moved.spec_contains(x, y) && b.pieces@[j].spec_contains(x, y) {
                if pc.p <= x < pc.p + pc.size {
                    assert(pc.spec_contains(x, y));
                    assert(pieces_disjoint(b.pieces@[i], b.pieces@[j]));
                    assert(false);
                } else {
                    assert(b.spec_free(x, y));
                    assert(false);
                }
            }
        }
    }
    assert forall|wi: int| 0 <= wi < b.walls@.len() implies !moved.spec_contains(
        (#[trigger] b.walls@[wi]).0 as int,
        b.walls@[wi].1 as int,
    ) by {
        let wx = b.walls@[wi].0 as int;
        let wy = b.walls@[wi].1 as int;
        if moved.spec_contains(wx, wy) {
            if pc.p <= wx < pc.p + pc.size {
                assert(pc.spec_contains(wx, wy));
                assert(false);
            } else {
                assert(b.spec_free(wx, wy));
                assert(false);
            }
        }
    }
}

/// The vertical counterpart of `lemma_clear_path_move_ok_h`.
pub proof fn lemma_clear_path_move_ok_v(b: &Board, i: int, d: int)
    requires
        b.wf(),
        0 <= i < b.pieces@.len(),
        !b.pieces@[i].spec_is_horizontal(),
        d != 0,
        0 <= b.pieces@[i].p + d,
        b.pieces@[i].p + d + b.pieces@[i].size <= b.height as int,
        forall|pos: int|
            ((d > 0 && b.pieces@[i].p + b.pieces@[i].size <= pos < b.pieces@[i].p
                + b.pieces@[i].size + d) || (d < 0 && b.pieces@[i].p + d <= pos < b.pieces@[i].p))
                ==> #[trigger] b.spec_free(b.pieces@[i].row as int, pos),
    ensures
        b.spec_move_ok(b.spec_config(), i, d),
{
    lemma_placed_id(b);
    let pc = b.pieces@[i];
    let moved = piece_with_anchor(pc, (pc.p + d) as usize);
    assert(piece_in_bounds(moved, b.width as int, b.height as int));
    assert forall|j: int| 0 <= j < b.pieces@.len() && j != i implies pieces_disjoint(
        moved,
        #[trigger] b.pieces@[j],
    ) by {
        assert forall|x: int, y: int|
            #![trigger moved.spec_contains(x, y), b.pieces@[j].spec_contains(x, y)]
            !(moved.spec_contains(x, y) && b.pieces@[j].spec_contains(x, y)) by {
            if moved.spec_contains(x, y) && b.pieces@[j].spec_contains(x, y) {
                if pc.p <= y < pc.p + pc.size {
                    assert(pc.spec_contains(x, y));
                    assert(pieces_disjoint(b.pieces@[i], b.pieces@[j]));
                    assert(false);
                } else {
                    assert(b.spec_free(x, y));
                    assert(false);
                }
            }
        }
    }
    assert forall|wi: int| 0 <= wi < b.walls@.len() implies !moved.spec_contains(
        (#[trigger] b.walls@[wi]).0 as int,
        b.walls@[wi].1 as int,
    ) by {
        let wx = b.walls@[wi].0 as int;
        let wy = b.walls@[wi].1 as int;
        if moved.spec_contains(wx, wy) {
            if pc.p <= wy < pc.p + pc.size {
                assert(pc.spec_contains(wx, wy));
                assert(false);
            } else {
                assert(b.spec_free(wx, wy));
                assert(false);
            }
        }
    }
}

/// A legal slide preserves the board invariant: the resulting configuration
/// is well-formed again.
pub proof fn lemma_move_preserves_wf(b: &Board, c: Seq<usize>, i: int, d: int)
    requires
        b.wf_config(c),
        b.spec_move_ok(c, i, d),
    ensures
        b.wf_config(conf_apply(c, i, d)),
{
    let c2 = conf_apply(c, i, d);
    let ps = b.placed(c);
    let moved = piece_with_anchor(ps[i], (ps[i].p + d) as usize);
    assert(ps[i].p == c[i]);
    assert(b.placed(c2) =~= ps.update(i, moved));
    let ps2 = b.placed(c2);
    let w = b.width as int;
    let h = b.height as int;
    assert forall|k: int| 0 <= k < ps2.len() implies piece_in_bounds(#[trigger] ps2[k], w, h) by {
        if k != i {
            assert(ps2[k] == ps[k]);
        }
    }
    assert forall|j: int, k: int|
        0 <= j < ps2.len() && 0 <= k < ps2.len() && j != k implies pieces_disjoint(
        #[trigger] ps2[j],
        #[trigger] ps2[k],
    ) by {
        if j == i {
            assert(pieces_disjoint(moved, ps[k]));
        } else if k == i {
            assert(pieces_disjoint(moved, ps[j]));
            assert forall|x: int, y: int|
                #![trigger ps2[j].spec_contains(x, y), ps2[k].spec_contains(x, y)]
                !(ps2[j].spec_contains(x, y) && ps2[k].spec_contains(x, y)) by {
                assert(!(moved.spec_contains(x, y) && ps[j].spec_contains(x, y)));
            }
        } else {
            assert(pieces_disjoint(ps[j], ps[k]));
        }
    }
    assert forall|k: int, wi: int|
        0 <= k < ps2.len() && 0 <= wi < b.walls@.len() implies !(#[trigger] ps2[k].spec_contains(
        (#[trigger] b.walls@[wi]).0 as int,
        b.walls@[wi].1 as int,
    )) by {
        if k != i {
            assert(ps2[k] == ps[k]);
        }
    }
    assert(ps2[b.primary_piece_id as int].spec_is_horizontal());
}

impl Board {
    /// A fresh square board holding only the given primary piece.
    pub fn new(width: usize, height: usize, primary_piece: Piece) -> (r: Board)
        requires
            width == height,
            width <= MAX_SIZE,
            primary_piece.spec_is_horizontal(),
            primary_piece.size >= 2,
            primary_piece.p + primary_piece.size <= width,
            primary_piece.row < height,
        ensures
            r.wf(),
            r.width == width,
            r.height == height,
            r.pieces@.len() == 1,
            r.pieces@[0] == primary_piece,
            r.walls@.len() == 0,
            r.primary_piece_id == 0,
    {
        let r = Board {
            width,
            height,
            pieces: vec![primary_piece],
            walls: Vec::new(),
            primary_piece_id: 0,
        };
        proof {
            lemma_placed_id(&r);
        }
        r
    }

    /// Parse the textual puzzle encoding: an n-by-n grid read row-major,
    /// `.`/`o` empty, `x` a wall, an uppercase letter a piece cell; a run of
    /// at least two equal letters, rightward first and downward otherwise,
    /// forms one piece; `A` marks the primary piece, which must be
    /// horizontal. Succeeds exactly on valid encodings; the returned board is
    /// fully validated, its walls are exactly the wall cells of the text and
    /// its pieces exactly the letter runs.
    pub fn from_string(puzzle: String) -> (r: Result<Board, String>)
        ensures
            r is Ok <==> valid_puzzle(puzzle@),
            r matches Ok(b) ==> {
                &&& b.wf()
                &&& b.width == b.height
                &&& b.width * b.width == puzzle@.len()
                &&& b.primary_piece_id < b.pieces@.len()
                &&& b.pieces@[b.primary_piece_id as int].val == 'A'
                &&& b.pieces@[b.primary_piece_id as int].spec_is_horizontal()
                &&& forall|k: int|
                    0 <= k < b.pieces@.len() ==> piece_matches(
                        puzzle@,
                        b.width as int,
                        #[trigger] b.pieces@[k],
                    )
                &&& forall|k: int|
                    0 <= k < b.pieces@.len() ==> run_piece_for(
                        puzzle@,
                        b.width as int,
                        #[trigger] b.pieces@[k],
                    )
                &&& forall|j: int, k: int|
                    0 <= j < b.pieces@.len() && 0 <= k < b.pieces@.len() && j != k ==> (
                    #[trigger] b.pieces@[j]).val != (#[trigger] b.pieces@[k]).val
                &&& forall|k: int|
                    0 <= k < b.pieces@.len() && k != b.primary_piece_id ==> (
                    #[trigger] b.pieces@[k]).val != 'A'
                &&& forall|cx: int, cy: int|
                    0 <= cx < b.width as int && 0 <= cy < b.width as int ==> ((puzzle@[
                        #[trigger] cell_idx(b.width as int, cx, cy)
                    ] == 'x') <==> wall_at(b.walls@, cx, cy))
                &&& forall|cx: int, cy: int|
                    0 <= cx < b.width as int && 0 <= cy < b.width as int && is_piece_char(
                        puzzle@[#[trigger] cell_idx(b.width as int, cx, cy)],
                    ) ==> !clear_of_pieces(b.pieces@, b.pieces@.len() as int, cx, cy)
            },
    {
        let s = puzzle.as_str();
        let n = s.unicode_len();
        let mut board_size: usize = 0;
        while board_size < MAX_SIZE && square(board_size) < n
            invariant
                board_size <= MAX_SIZE,
                n == puzzle@.len(),
                forall|t: int| 0 <= t < board_size ==> #[trigger] (t * t) < n,
            decreases MAX_SIZE - board_size,
        {
            board_size += 1;
        }
        if square(board_size) != n {
            proof {
                if valid_puzzle(puzzle@) {
                    let side = choose|nn: int|
                    0 <= nn <= MAX_SIZE as int && puzzle@.len() == nn * nn
                    && #[trigger] valid_grid(puzzle@, nn);
                    if side < board_size as int {
                        assert(side * side < n);
                        assert(false);
                    } else {
                        lemma_square_le(board_size as int, side);
                        assert(false);
                    }
                }
            }
            return Err(String::from_str("Invalid puzzle size"));
        }
        let mut data: Vec<char> = Vec::new();
        let mut ci: usize = 0;
        while ci < n
            invariant
                ci <= n,
                n == puzzle@.len(),
                s@ == puzzle@,
                data@.len() == ci,
                forall|k: int| 0 <= k < ci ==> data@[k] == puzzle@[k],
            decreases n - ci,
        {
            data.push(s.get_char(ci));
            ci += 1;
        }
        proof {
            assert(data@ =~= puzzle@);
        }
        let bs = board_size;
        let ghost bsi = bs as int;
        let mut explored: Vec<bool> = Vec::new();
        let mut ei: usize = 0;
        while ei < n
            invariant
                ei <= n,
                explored@.len() == ei,
                forall|k: int| 0 <= k < ei ==> !(#[trigger] explored@[k]),
            decreases n - ei,
        {
            explored.push(false);
            ei += 1;
        }
        proof {
            assert forall|cx: int, cy: int| 0 <= cx < bsi && 0 <= cy < bsi implies !explored@[
            #[trigger] cell_idx(bsi, cx, cy)] by {
                lemma_row_major_bounds(bsi, cx, cy);
            }
        }
        let mut pieces: Vec<Piece> = Vec::new();
        let mut walls: Vec<(usize, usize)> = Vec::new();
        let mut used: Vec<char> = Vec::new();
        let mut primary_piece_id: usize = 0;
        let mut y: usize = 0;
        while y < bs
            invariant
                y <= bs,
                bs <= MAX_SIZE,
                bsi == bs as int,
                data@ == puzzle@,
                data@.len() == bs * bs,
                explored@.len() == bs * bs,
                forall|k: int|
                    0 <= k < pieces@.len() ==> piece_matches(data@, bsi, #[trigger] pieces@[k]),
                forall|j: int, k: int|
                    0 <= j < pieces@.len() && 0 <= k < pieces@.len() && j != k ==> (
                    #[trigger] pieces@[j]).val != (#[trigger] pieces@[k]).val,
                forall|k: int| 0 <= k < pieces@.len() ==> used@.contains((#[trigger] pieces@[k]).val),
                forall|wi: int|
                    0 <= wi < walls@.len() ==> wall_in_bounds(#[trigger] walls@[wi], bsi, bsi)
                        && data@[cell_idx(bsi, walls@[wi].0 as int, walls@[wi].1 as int)] == 'x',
                used@.contains('A') ==> (primary_piece_id < pieces@.len()
                    && pieces@[primary_piece_id as int].val == 'A'
                    && pieces@[primary_piece_id as int].spec_is_horizontal()),
                forall|cx: int, cy: int|
                    0 <= cx < bsi && 0 <= cy < bsi && before_cell(cx, cy, 0int, y as int) ==> legal_char(
                        data@[#[trigger] cell_idx(bsi, cx, cy)],
                    ),
                forall|cx: int, cy: int|
                    0 <= cx < bsi && 0 <= cy < bsi && before_cell(cx, cy, 0int, y as int) && is_piece_char(
                        data@[#[trigger] cell_idx(bsi, cx, cy)],
                    ) ==> !clear_of_pieces(pieces@, pieces@.len() as int, cx, cy),
                forall|cx: int, cy: int|
                    0 <= cx < bsi && 0 <= cy < bsi && before_cell(cx, cy, 0int, y as int) && data@[#[trigger] cell_idx(
                        bsi,
                        cx,
                        cy,
                    )] == 'x' ==> wall_at(walls@, cx, cy),
                valid_grid(data@, bsi) ==> forall|k: int|
                    0 <= k < pieces@.len() ==> run_piece_for(data@, bsi, #[trigger] pieces@[k]),
                forall|uj: int|
                    0 <= uj < used@.len() ==> val_recorded(pieces@, #[trigger] used@[uj]),
                forall|cx: int, cy: int|
                    0 <= cx < bsi && 0 <= cy < bsi ==> (explored@[#[trigger] cell_idx(bsi, cx, cy)] == (
                    before_cell(cx, cy, 0int, y as int) || !clear_of_pieces(pieces@, pieces@.len() as int, cx, cy))),
            decreases bs - y,
        {
            let mut x: usize = 0;
            while x < bs
                invariant
                    x <= bs,
                    y < bs,
                    bs <= MAX_SIZE,
                    bsi == bs as int,
                    data@ == puzzle@,
                    data@.len() == bs * bs,
                    explored@.len() == bs * bs,
                    forall|k: int|
                        0 <= k < pieces@.len() ==> piece_matches(data@, bsi, #[trigger] pieces@[k]),
                    forall|j: int, k: int|
                        0 <= j < pieces@.len() && 0 <= k < pieces@.len() && j != k ==> (
                        #[trigger] pieces@[j]).val != (#[trigger] pieces@[k]).val,
                    forall|k: int| 0 <= k < pieces@.len() ==> used@.contains((#[trigger] pieces@[k]).val),
                    forall|wi: int|
                        0 <= wi < walls@.len() ==> wall_in_bounds(#[trigger] walls@[wi], bsi, bsi)
                            && data@[cell_idx(bsi, walls@[wi].0 as int, walls@[wi].1 as int)] == 'x',
                    used@.contains('A') ==> (primary_piece_id < pieces@.len()
                        && pieces@[primary_piece_id as int].val == 'A'
                        && pieces@[primary_piece_id as int].spec_is_horizontal()),
                    forall|cx: int, cy: int|
                        0 <= cx < bsi && 0 <= cy < bsi && before_cell(cx, cy, x as int, y as int) ==> legal_char(
                            data@[#[trigger] cell_idx(bsi, cx, cy)],
                        ),
                    forall|cx: int, cy: int|
                        0 <= cx < bsi && 0 <= cy < bsi && before_cell(cx, cy, x as int, y as int) && is_piece_char(
                            data@[#[trigger] cell_idx(bsi, cx, cy)],
                        ) ==> !clear_of_pieces(pieces@, pieces@.len() as int, cx, cy),
                    forall|cx: int, cy: int|
                        0 <= cx < bsi && 0 <= cy < bsi && before_cell(cx, cy, x as int, y as int) && data@[#[trigger] cell_idx(
                            bsi,
                            cx,
                            cy,
                        )] == 'x' ==> wall_at(walls@, cx, cy),
                    valid_grid(data@, bsi) ==> forall|k: int|
                        0 <= k < pieces@.len() ==> run_piece_for(data@, bsi, #[trigger] pieces@[k]),
                    forall|uj: int|
                        0 <= uj < used@.len() ==> val_recorded(pieces@, #[trigger] used@[uj]),
                    forall|cx: int, cy: int|
                        0 <= cx < bsi && 0 <= cy < bsi ==> (explored@[#[trigger] cell_idx(bsi, cx, cy)] == (
                        before_cell(cx, cy, x as int, y as int) || !clear_of_pieces(pieces@, pieces@.len() as int, cx, cy))),
                decreases bs - x,
            {
                let ghost frontier_x = x as int;
                let ghost frontier_y = y as int;
                if !grid_free(&explored, bs, x, y) {
                    let ghost explored0 = explored@;
                    grid_set(&mut explored, bs, x, y, true);
                    proof {
                        lemma_row_major_bounds(bsi, frontier_x, frontier_y);
                        assert forall|cx: int, cy: int| 0 <= cx < bsi && 0 <= cy < bsi implies (
                        explored@[#[trigger] cell_idx(bsi, cx, cy)] == (before_cell(
                            cx,
                            cy,
                            frontier_x,
                            frontier_y,
                        ) || !clear_of_pieces(pieces@, pieces@.len() as int, cx, cy) || (cx
                            == frontier_x && cy == frontier_y))) by {
                            lemma_row_major_bounds(bsi, cx, cy);
                            if cell_idx(bsi, cx, cy) == cell_idx(bsi, frontier_x, frontier_y) {
                                lemma_row_major_inj(bsi, cx, cy, frontier_x, frontier_y);
                            } else {
                                assert(explored@[cell_idx(bsi, cx, cy)] == explored0[cell_idx(
                                    bsi,
                                    cx,
                                    cy,
                                )]);
                            }
                        }
                    }
                    let val = char_at(&data, bs, x, y);
                    if val == 'o' || val == '.' {
                        // empty cell
                    } else if val == 'x' {
                        let ghost walls0 = walls@;
                        walls.push((x, y));
                        proof {
                            assert forall|cx: int, cy: int|
                                0 <= cx < bsi && 0 <= cy < bsi && before_cell(
                                    cx,
                                    cy,
                                    frontier_x + 1,
                                    frontier_y,
                                ) && data@[#[trigger] cell_idx(bsi, cx, cy)]
                                == 'x' implies wall_at(walls@, cx, cy) by {
                                if before_cell(cx, cy, frontier_x, frontier_y) {
                                    let wi = choose|wi: int|
                                        0 <= wi < walls0.len() && (#[trigger] walls0[wi]).0 == cx
                                            && walls0[wi].1 == cy;
                                    assert((walls@[wi]).0 == cx && walls@[wi].1 == cy);
                                } else {
                                    assert((walls@[walls@.len() - 1]).0 == cx && walls@[walls@.len()
                                        - 1].1 == cy);
                                }
                            }
                        }
                    } else if !(val >= 'A' && val <= 'Z') {
                        proof {
                            if valid_puzzle(puzzle@) {
                                let side = choose|nn: int|
                                0 <= nn <= MAX_SIZE as int && puzzle@.len() == nn * nn && #[trigger] valid_grid(
                                    puzzle@,
                                    nn,
                                );
                                lemma_square_inj(side, bsi);
                                assert(valid_grid(data@, bsi));
                                assert(legal_char(data@[cell_idx(bsi, frontier_x, frontier_y)]));
                                assert(false);
                            }
                        }
                        return Err(
                            String::from_str(
                                "Unsupported value. Allowed values: '.' or 'o' for empty cells, 'x' for walls, and A-Z for pieces",
                            ),
                        );
                    } else if chars_contain(&used, val) {
                        proof {
                            if valid_puzzle(puzzle@) {
                                let side = choose|nn: int|
                                0 <= nn <= MAX_SIZE as int && puzzle@.len() == nn * nn && #[trigger] valid_grid(
                                    puzzle@,
                                    nn,
                                );
                                lemma_square_inj(side, bsi);
                                assert(valid_grid(data@, bsi));
                                let uj = choose|uj: int|
                                0 <= uj < used@.len() && used@[uj] == val;
                                assert(val_recorded(pieces@, val));
                                let k = choose|k: int|
                                0 <= k < pieces@.len() && (#[trigger] pieces@[k]).val == val;
                                assert(run_piece_for(data@, bsi, pieces@[k]));
                                assert(pieces@[k].spec_contains(frontier_x, frontier_y));
                                assert(!clear_of_pieces(
                                        pieces@,
                                        pieces@.len() as int,
                                        frontier_x,
                                        frontier_y,
                                ));
                                assert(explored0[cell_idx(bsi, frontier_x, frontier_y)]);
                                assert(false);
                            }
                        }
                        return Err(
                            String::from_str("There is more than one piece with this value"),
                        );
                    } else {
                        let ghost used0 = used@;
                        used.push(val);
                        let mut size: usize = 1;
                        while x + size < bs && char_at(&data, bs, x + size, y) == val
                            invariant
                                1 <= size,
                                x + size <= bs,
                                x < bs,
                                y < bs,
                                bs <= MAX_SIZE,
                                bsi == bs as int,
                                data@ == puzzle@,
                                data@.len() == bs * bs,
                                explored@.len() == bs * bs,
                                forall|k: int|
                                    0 <= k < pieces@.len() ==> piece_matches(data@, bsi, #[trigger] pieces@[k]),
                                forall|j: int, k: int|
                                    0 <= j < pieces@.len() && 0 <= k < pieces@.len() && j != k ==> (
                                    #[trigger] pieces@[j]).val != (#[trigger] pieces@[k]).val,
                                forall|k: int| 0 <= k < pieces@.len() ==> used@.contains((#[trigger] pieces@[k]).val),
                                forall|wi: int|
                                    0 <= wi < walls@.len() ==> wall_in_bounds(#[trigger] walls@[wi], bsi, bsi)
                                        && data@[cell_idx(bsi, walls@[wi].0 as int, walls@[wi].1 as int)] == 'x',
                                used0.contains('A') ==> (primary_piece_id < pieces@.len()
                                    && pieces@[primary_piece_id as int].val == 'A'
                                    && pieces@[primary_piece_id as int].spec_is_horizontal()),
                                forall|cx: int, cy: int|
                                    0 <= cx < bsi && 0 <= cy < bsi && before_cell(cx, cy, x as int, y as int) ==> legal_char(
                                        data@[#[trigger] cell_idx(bsi, cx, cy)],
                                    ),
                                forall|cx: int, cy: int|
                                    0 <= cx < bsi && 0 <= cy < bsi && before_cell(cx, cy, x as int, y as int) && is_piece_char(
                                        data@[#[trigger] cell_idx(bsi, cx, cy)],
                                    ) ==> !clear_of_pieces(pieces@, pieces@.len() as int, cx, cy),
                                forall|cx: int, cy: int|
                                    0 <= cx < bsi && 0 <= cy < bsi && before_cell(cx, cy, x as int, y as int)
                                        && data@[#[trigger] cell_idx(
                                        bsi,
                                        cx,
                                        cy,
                                    )] == 'x' ==> wall_at(walls@, cx, cy),
                                valid_grid(data@, bsi) ==> forall|k: int|
                                    0 <= k < pieces@.len() ==> run_piece_for(data@, bsi, #[trigger] pieces@[k]),
                                forall|uj: int|
                                    0 <= uj < used0.len() ==> val_recorded(pieces@, #[trigger] used0[uj]),
                                forall|cx: int, cy: int|
                                    0 <= cx < bsi && 0 <= cy < bsi ==> (explored@[#[trigger] cell_idx(bsi, cx, cy)] == (
                                    before_cell(cx, cy, x as int, y as int) || !clear_of_pieces(
                                        pieces@,
                                        pieces@.len() as int,
                                        cx,
                                        cy,
                                    ) || (cx == x as int && cy == y as int) || (cy == y as int && (
                                    x as int) < cx && cx < x as int + size as int))),
                                used@ == used0.push(val),
                                !used0.contains(val),
                                is_piece_char(val),
                                data@[cell_idx(bsi, x as int, y as int)] == val,
                                forall|px: int|
                                    x <= px < x + size ==> data@[#[trigger] cell_idx(
                                        bsi,
                                        px,
                                        y as int,
                                    )] == val,
                            decreases bs - x - size,
                        {
                            let ghost explored1 = explored@;
                            grid_set(&mut explored, bs, x + size, y, true);
                            proof {
                                let mx = x as int + size as int;
                                let my = y as int;
                                lemma_row_major_bounds(bsi, mx, my);
                                assert forall|cx: int, cy: int|
                                    0 <= cx < bsi && 0 <= cy < bsi implies (explored@[
                                #[trigger] cell_idx(bsi, cx, cy)] == (before_cell(
                                    cx,
                                    cy,
                                    x as int,
                                    y as int,
                                ) || !clear_of_pieces(pieces@, pieces@.len() as int, cx, cy) || (cx
                                    == x as int && cy == y as int) || (cy == y as int && (x as int)
                                    < cx && cx < x as int + (size + 1)))) by {
                                    lemma_row_major_bounds(bsi, cx, cy);
                                    if cell_idx(bsi, cx, cy) == cell_idx(bsi, mx, my) {
                                        lemma_row_major_inj(bsi, cx, cy, mx, my);
                                    } else {
                                        assert(explored@[cell_idx(bsi, cx, cy)] == explored1[
                                            cell_idx(bsi, cx, cy)]);
                                    }
                                }
                            }
                            size += 1;
                        }
                        if size > 1 {
                            let piece = Piece {
                                val,
                                p: x,
                                row: y,
                                size,
                                orientation: Orientation::Horizontal,
                            };
                            proof {
                                assert forall|cx: int, cy: int| #[trigger]
                                    piece.spec_contains(cx, cy) implies data@[cell_idx(
                                    bsi,
                                    cx,
                                    cy,
                                )] == piece.val by {}
                                assert(piece_matches(data@, bsi, piece));
                            }
                            let ghost pieces0 = pieces@;
                            pieces.push(piece);
                            if val == 'A' {
                                primary_piece_id = pieces.len() - 1;
                            }
                            proof {
                                let ghost np = pieces@.len() - 1;
                                assert(pieces@[np] == piece);
                                assert forall|k: int| 0 <= k < pieces@.len() implies used@.contains(
                                    (#[trigger] pieces@[k]).val,
                                ) by {
                                    if k < np {
                                        let wit = choose|w: int|
                                            0 <= w < used0.len() && used0[w] == pieces@[k].val;
                                        assert(used@[wit] == pieces@[k].val);
                                    } else {
                                        assert(used@[used@.len() - 1] == val);
                                    }
                                }
                                assert forall|uj: int| 0 <= uj < used@.len() implies val_recorded(
                                    pieces@,
                                    #[trigger] used@[uj],
                                ) by {
                                    if uj < used0.len() {
                                        let k = choose|k: int|
                                            0 <= k < pieces0.len() && (#[trigger] pieces0[k]).val
                                                == used0[uj];
                                        assert(pieces@[k].val == used@[uj]);
                                    } else {
                                        assert(pieces@[np].val == used@[uj]);
                                    }
                                }
                                assert forall|cx: int, cy: int|
                                    0 <= cx < bsi && 0 <= cy < bsi implies (explored@[
                                #[trigger] cell_idx(bsi, cx, cy)] == (before_cell(
                                    cx,
                                    cy,
                                    frontier_x + 1,
                                    frontier_y,
                                ) || !clear_of_pieces(pieces@, pieces@.len() as int, cx, cy))) by {
                                    if piece.spec_contains(cx, cy) {
                                        assert(!clear_of_pieces(
                                            pieces@,
                                            pieces@.len() as int,
                                            cx,
                                            cy,
                                        ));
                                    }
                                    if !clear_of_pieces(pieces@, pieces@.len() as int, cx, cy)
                                        && clear_of_pieces(pieces@, np, cx, cy) {
                                        assert(pieces@[np].spec_contains(cx, cy));
                                    }
                                }
                                if valid_grid(data@, bsi) {
                                    assert(grid_has_char(data@, bsi, val)) by {
                                        assert(data@[cell_idx(bsi, frontier_x, frontier_y)] == val);
                                    }
                                    let pcv = choose|pc: Piece| #[trigger]
                                        run_piece_for(data@, bsi, pc) && pc.val == val;
                                    assert(pcv.spec_contains(frontier_x, frontier_y));
                                    if pcv.spec_is_horizontal() {
                                        if (pcv.p as int) < frontier_x {
                                            assert(pcv.spec_contains(pcv.p as int, frontier_y));
                                            assert(data@[cell_idx(bsi, pcv.p as int, frontier_y)]
                                                == val);
                                            assert(!clear_of_pieces(
                                                pieces@,
                                                np,
                                                pcv.p as int,
                                                frontier_y,
                                            ));
                                            let j = choose|j: int|
                                                0 <= j < np && (#[trigger] pieces@[j]).spec_contains(
                                                    pcv.p as int,
                                                    frontier_y,
                                                );
                                            assert(pieces@[j].val == val);
                                            assert(used0.contains(val));
                                            assert(false);
                                        }
                                        assert(data@[cell_idx(
                                            bsi,
                                            frontier_x + size - 1,
                                            frontier_y,
                                        )] == val);
                                        assert(pcv.spec_contains(
                                            frontier_x + size - 1,
                                            frontier_y,
                                        ));
                                        if (size as int) < pcv.size as int {
                                            assert(pcv.spec_contains(
                                                frontier_x + size,
                                                frontier_y,
                                            ));
                                            assert(data@[cell_idx(
                                                bsi,
                                                frontier_x + size,
                                                frontier_y,
                                            )] == val);
                                            assert(false);
                                        }
                                        if (size as int) > pcv.size as int {
                                            assert(data@[cell_idx(
                                                bsi,
                                                frontier_x + pcv.size,
                                                frontier_y,
                                            )] == val);
                                            assert(pcv.spec_contains(
                                                frontier_x + pcv.size,
                                                frontier_y,
                                            ));
                                            assert(false);
                                        }
                                        assert(piece == pcv);
                                    } else {
                                        assert(data@[cell_idx(bsi, frontier_x + 1, frontier_y)]
                                            == val);
                                        assert(pcv.spec_contains(frontier_x + 1, frontier_y));
                                        assert(false);
                                    }
                                    assert forall|k: int| 0 <= k < pieces@.len() implies
                                        run_piece_for(data@, bsi, #[trigger] pieces@[k]) by {
                                        if k < np {
                                        } else {
                                            assert(pieces@[k] == pcv);
                                        }
                                    }
                                }
                            }
                        } else {
                            let mut size: usize = 1;
                            while y + size < bs && char_at(&data, bs, x, y + size) == val
                                invariant
                                    1 <= size,
                                    y + size <= bs,
                                    x < bs,
                                    y < bs,
                                    bs <= MAX_SIZE,
                                    bsi == bs as int,
                                    data@ == puzzle@,
                                    data@.len() == bs * bs,
                                    explored@.len() == bs * bs,
                                    forall|k: int|
                                        0 <= k < pieces@.len() ==> piece_matches(data@, bsi, #[trigger] pieces@[k]),
                                    forall|j: int, k: int|
                                        0 <= j < pieces@.len() && 0 <= k < pieces@.len() && j != k ==> (
                                        #[trigger] pieces@[j]).val != (#[trigger] pieces@[k]).val,
                                    forall|k: int| 0 <= k < pieces@.len() ==> used@.contains((#[trigger] pieces@[k]).val),
                                    forall|wi: int|
                                        0 <= wi < walls@.len() ==> wall_in_bounds(#[trigger] walls@[wi], bsi, bsi)
                                            && data@[cell_idx(bsi, walls@[wi].0 as int, walls@[wi].1 as int)] == 'x',
                                    used0.contains('A') ==> (primary_piece_id < pieces@.len()
                                        && pieces@[primary_piece_id as int].val == 'A'
                                        && pieces@[primary_piece_id as int].spec_is_horizontal()),
                                    forall|cx: int, cy: int|
                                        0 <= cx < bsi && 0 <= cy < bsi && before_cell(cx, cy, x as int, y as int) ==> legal_char(
                                            data@[#[trigger] cell_idx(bsi, cx, cy)],
                                        ),
                                    forall|cx: int, cy: int|
                                        0 <= cx < bsi && 0 <= cy < bsi && before_cell(cx, cy, x as int, y as int) && is_piece_char(
                                            data@[#[trigger] cell_idx(bsi, cx, cy)],
                                        ) ==> !clear_of_pieces(pieces@, pieces@.len() as int, cx, cy),
                                    forall|cx: int, cy: int|
                                        0 <= cx < bsi && 0 <= cy < bsi && before_cell(cx, cy, x as int, y as int)
                                        && data@[#[trigger] cell_idx(
                                            bsi,
                                            cx,
                                            cy,
                                        )] == 'x' ==> wall_at(walls@, cx, cy),
                                    valid_grid(data@, bsi) ==> forall|k: int|
                                        0 <= k < pieces@.len() ==> run_piece_for(data@, bsi, #[trigger] pieces@[k]),
                                    forall|uj: int|
                                        0 <= uj < used0.len() ==> val_recorded(pieces@, #[trigger] used0[uj]),
                                    forall|cx: int, cy: int|
                                        0 <= cx < bsi && 0 <= cy < bsi ==> (explored@[#[trigger] cell_idx(bsi, cx, cy)] == (
                                        before_cell(cx, cy, x as int, y as int)
                                            || !clear_of_pieces(
                                            pieces@,
                                            pieces@.len() as int,
                                            cx,
                                            cy,
                                        ) || (cx == x as int && cy == y as int) || (cx == x as int
                                            && (y as int) < cy && cy < y as int + size as int))),
                                    used@ == used0.push(val),
                                    !used0.contains(val),
                                    is_piece_char(val),
                                    data@[cell_idx(bsi, x as int, y as int)] == val,
                                    x as int + 1 >= bsi || data@[cell_idx(
                                        bsi,
                                        x as int + 1,
                                        y as int,
                                    )] != val,
                                    forall|py: int|
                                        y <= py < y + size ==> data@[#[trigger] cell_idx(
                                            bsi,
                                            x as int,
                                            py,
                                        )] == val,
                                decreases bs - y - size,
                            {
                                let ghost explored1 = explored@;
                                grid_set(&mut explored, bs, x, y + size, true);
                                proof {
                                    let mx = x as int;
                                    let my = y as int + size as int;
                                    lemma_row_major_bounds(bsi, mx, my);
                                    assert forall|cx: int, cy: int|
                                        0 <= cx < bsi && 0 <= cy < bsi implies (explored@[
                                    #[trigger] cell_idx(bsi, cx, cy)] == (before_cell(
                                        cx,
                                        cy,
                                        x as int,
                                        y as int,
                                    ) || !clear_of_pieces(pieces@, pieces@.len() as int, cx, cy) || (
                                    cx == x as int && cy == y as int) || (cx == x as int && (y as int)
                                        < cy && cy < y as int + (size + 1)))) by {
                                        lemma_row_major_bounds(bsi, cx, cy);
                                        if cell_idx(bsi, cx, cy) == cell_idx(bsi, mx, my) {
                                            lemma_row_major_inj(bsi, cx, cy, mx, my);
                                        } else {
                                            assert(explored@[cell_idx(bsi, cx, cy)] == explored1[
                                                cell_idx(bsi, cx, cy)]);
                                        }
                                    }
                                }
                                size += 1;
                            }
                            if size > 1 {
                                if val == 'A' {
                                    proof {
                                        if valid_puzzle(puzzle@) {
                                            let side = choose|nn: int|
                                            0 <= nn <= MAX_SIZE as int && puzzle@.len() == nn * nn && #[trigger] valid_grid(
                                                puzzle@,
                                                nn,
                                            );
                                            lemma_square_inj(side, bsi);
                                            assert(valid_grid(data@, bsi));
                                            let pcv = choose|pc: Piece| #[trigger]
                                            run_piece_for(data@, bsi, pc) && pc.val == 'A'
                                            && pc.spec_is_horizontal();
                                            assert(data@[cell_idx(bsi, frontier_x, frontier_y)] == 'A');
                                            assert(pcv.spec_contains(frontier_x, frontier_y));
                                            if (pcv.p as int) < frontier_x {
                                                assert(pcv.spec_contains(pcv.p as int, frontier_y));
                                                assert(data@[cell_idx(bsi, pcv.p as int, frontier_y)]
                                                    == 'A');
                                                assert(!clear_of_pieces(
                                                        pieces@,
                                                        pieces@.len() as int,
                                                        pcv.p as int,
                                                        frontier_y,
                                                ));
                                                let j = choose|j: int|
                                                0 <= j < pieces@.len() && (
                                                    #[trigger] pieces@[j]).spec_contains(
                                                    pcv.p as int,
                                                    frontier_y,
                                                );
                                                assert(pieces@[j].val == 'A');
                                                assert(used0.contains('A'));
                                                assert(false);
                                            } else {
                                                assert(pcv.spec_contains(frontier_x + 1, frontier_y));
                                                assert(data@[cell_idx(
                                                            bsi,
                                                            frontier_x + 1,
                                                            frontier_y,
                                                    )] == 'A');
                                                assert(false);
                                            }
                                        }
                                    }
                                    return Err(
                                        String::from_str("The primary piece must be horizontal"),
                                    );
                                }
                                let piece = Piece {
                                    val,
                                    p: y,
                                    row: x,
                                    size,
                                    orientation: Orientation::Vertical,
                                };
                                proof {
                                    assert forall|cx: int, cy: int| #[trigger]
                                        piece.spec_contains(cx, cy) implies data@[cell_idx(
                                        bsi,
                                        cx,
                                        cy,
                                    )] == piece.val by {}
                                    assert(piece_matches(data@, bsi, piece));
                                }
                                let ghost pieces0 = pieces@;
                                pieces.push(piece);
                                proof {
                                    let ghost np = pieces@.len() - 1;
                                    assert(pieces@[np] == piece);
                                    assert forall|k: int|
                                        0 <= k < pieces@.len() implies used@.contains(
                                        (#[trigger] pieces@[k]).val,
                                    ) by {
                                        if k < np {
                                            let wit = choose|w: int|
                                                0 <= w < used0.len() && used0[w] == pieces@[k].val;
                                            assert(used@[wit] == pieces@[k].val);
                                        } else {
                                            assert(used@[used@.len() - 1] == val);
                                        }
                                    }
                                    assert forall|uj: int|
                                        0 <= uj < used@.len() implies val_recorded(
                                        pieces@,
                                        #[trigger] used@[uj],
                                    ) by {
                                        if uj < used0.len() {
                                            let k = choose|k: int|
                                                0 <= k < pieces0.len() && (
                                                #[trigger] pieces0[k]).val == used0[uj];
                                            assert(pieces@[k].val == used@[uj]);
                                        } else {
                                            assert(pieces@[np].val == used@[uj]);
                                        }
                                    }
                                    assert forall|cx: int, cy: int|
                                        0 <= cx < bsi && 0 <= cy < bsi implies (explored@[
                                    #[trigger] cell_idx(bsi, cx, cy)] == (before_cell(
                                        cx,
                                        cy,
                                        frontier_x + 1,
                                        frontier_y,
                                    ) || !clear_of_pieces(pieces@, pieces@.len() as int, cx, cy)))
                                        by {
                                        if piece.spec_contains(cx, cy) {
                                            assert(!clear_of_pieces(
                                                pieces@,
                                                pieces@.len() as int,
                                                cx,
                                                cy,
                                            ));
                                        }
                                        if !clear_of_pieces(pieces@, pieces@.len() as int, cx, cy)
                                            && clear_of_pieces(pieces@, np, cx, cy) {
                                            assert(pieces@[np].spec_contains(cx, cy));
                                        }
                                    }
                                    if valid_grid(data@, bsi) {
                                        assert(grid_has_char(data@, bsi, val)) by {
                                            assert(data@[cell_idx(bsi, frontier_x, frontier_y)]
                                                == val);
                                        }
                                        let pcv = choose|pc: Piece| #[trigger]
                                            run_piece_for(data@, bsi, pc) && pc.val == val;
                                        assert(pcv.spec_contains(frontier_x, frontier_y));
                                        if pcv.spec_is_horizontal() {
                                            if (pcv.p as int) < frontier_x {
                                                assert(pcv.spec_contains(pcv.p as int, frontier_y));
                                                assert(data@[cell_idx(
                                                    bsi,
                                                    pcv.p as int,
                                                    frontier_y,
                                                )] == val);
                                                assert(!clear_of_pieces(
                                                    pieces@,
                                                    np,
                                                    pcv.p as int,
                                                    frontier_y,
                                                ));
                                                let j = choose|j: int|
                                                    0 <= j < np && (
                                                    #[trigger] pieces@[j]).spec_contains(
                                                        pcv.p as int,
                                                        frontier_y,
                                                    );
                                                assert(pieces@[j].val == val);
                                                assert(used0.contains(val));
                                                assert(false);
                                            } else {
                                                assert(pcv.spec_contains(
                                                    frontier_x + 1,
                                                    frontier_y,
                                                ));
                                                assert(data@[cell_idx(
                                                    bsi,
                                                    frontier_x + 1,
                                                    frontier_y,
                                                )] == val);
                                                assert(false);
                                            }
                                        } else {
                                            if (pcv.p as int) < frontier_y {
                                                assert(pcv.spec_contains(frontier_x, pcv.p as int));
                                                assert(data@[cell_idx(
                                                    bsi,
                                                    frontier_x,
                                                    pcv.p as int,
                                                )] == val);
                                                assert(!clear_of_pieces(
                                                    pieces@,
                                                    np,
                                                    frontier_x,
                                                    pcv.p as int,
                                                ));
                                                let j = choose|j: int|
                                                    0 <= j < np && (
                                                    #[trigger] pieces@[j]).spec_contains(
                                                        frontier_x,
                                                        pcv.p as int,
                                                    );
                                                assert(pieces@[j].val == val);
                                                assert(used0.contains(val));
                                                assert(false);
                                            }
                                            assert(data@[cell_idx(
                                                bsi,
                                                frontier_x,
                                                frontier_y + size - 1,
                                            )] == val);
                                            assert(pcv.spec_contains(
                                                frontier_x,
                                                frontier_y + size - 1,
                                            ));
                                            if (size as int) < pcv.size as int {
                                                assert(pcv.spec_contains(
                                                    frontier_x,
                                                    frontier_y + size,
                                                ));
                                                assert(data@[cell_idx(
                                                    bsi,
                                                    frontier_x,
                                                    frontier_y + size,
                                                )] == val);
                                                assert(false);
                                            }
                                            if (size as int) > pcv.size as int {
                                                assert(data@[cell_idx(
                                                    bsi,
                                                    frontier_x,
                                                    frontier_y + pcv.size,
                                                )] == val);
                                                assert(pcv.spec_contains(
                                                    frontier_x,
                                                    frontier_y + pcv.size,
                                                ));
                                                assert(false);
                                            }
                                            assert(piece == pcv);
                                        }
                                        assert forall|k: int| 0 <= k < pieces@.len() implies
                                            run_piece_for(data@, bsi, #[trigger] pieces@[k]) by {
                                            if k < np {
                                            } else {
                                                assert(pieces@[k] == pcv);
                                            }
                                        }
                                    }
                                }
                            } else {
                                proof {
                                    if valid_puzzle(puzzle@) {
                                        let side = choose|nn: int|
                                        0 <= nn <= MAX_SIZE as int && puzzle@.len() == nn * nn && #[trigger] valid_grid(
                                            puzzle@,
                                            nn,
                                        );
                                        lemma_square_inj(side, bsi);
                                        assert(valid_grid(data@, bsi));
                                        assert(grid_has_char(data@, bsi, val)) by {
                                            assert(data@[cell_idx(bsi, frontier_x, frontier_y)] == val);
                                        }
                                        let pcv = choose|pc: Piece| #[trigger]
                                        run_piece_for(data@, bsi, pc) && pc.val == val;
                                        assert(pcv.spec_contains(frontier_x, frontier_y));
                                        if pcv.spec_is_horizontal() {
                                            if (pcv.p as int) < frontier_x {
                                                assert(pcv.spec_contains(pcv.p as int, frontier_y));
                                                assert(data@[cell_idx(bsi, pcv.p as int, frontier_y)]
                                                    == val);
                                                assert(!clear_of_pieces(
                                                        pieces@,
                                                        pieces@.len() as int,
                                                        pcv.p as int,
                                                        frontier_y,
                                                ));
                                                let j = choose|j: int|
                                                0 <= j < pieces@.len() && (
                                                    #[trigger] pieces@[j]).spec_contains(
                                                    pcv.p as int,
                                                    frontier_y,
                                                );
                                                assert(pieces@[j].val == val);
                                                assert(used0.contains(val));
                                                assert(false);
                                            } else {
                                                assert(pcv.spec_contains(frontier_x + 1, frontier_y));
                                                assert(data@[cell_idx(
                                                            bsi,
                                                            frontier_x + 1,
                                                            frontier_y,
                                                    )] == val);
                                                assert(false);
                                            }
                                        } else {
                                            if (pcv.p as int) < frontier_y {
                                                assert(pcv.spec_contains(frontier_x, pcv.p as int));
                                                assert(data@[cell_idx(bsi, frontier_x, pcv.p as int)]
                                                    == val);
                                                assert(!clear_of_pieces(
                                                        pieces@,
                                                        pieces@.len() as int,
                                                        frontier_x,
                                                        pcv.p as int,
                                                ));
                                                let j = choose|j: int|
                                                0 <= j < pieces@.len() && (
                                                    #[trigger] pieces@[j]).spec_contains(
                                                    frontier_x,
                                                    pcv.p as int,
                                                );
                                                assert(pieces@[j].val == val);
                                                assert(used0.contains(val));
                                                assert(false);
                                            } else {
                                                assert(pcv.spec_contains(frontier_x, frontier_y + 1));
                                                assert(data@[cell_idx(
                                                            bsi,
                                                            frontier_x,
                                                            frontier_y + 1,
                                                    )] == val);
                                                assert(false);
                                            }
                                        }
                                    }
                                }
                                return Err(
                                    String::from_str(
                                        "Piece has a size of one. The size must be greater than one",
                                    ),
                                );
                            }
                        }
                    }
                } else {
                    proof {
                        assert(explored@[cell_idx(bsi, frontier_x, frontier_y)]);
                        assert(!clear_of_pieces(
                            pieces@,
                            pieces@.len() as int,
                            frontier_x,
                            frontier_y,
                        ));
                        let k = choose|k: int|
                            0 <= k < pieces@.len() && (#[trigger] pieces@[k]).spec_contains(
                                frontier_x,
                                frontier_y,
                            );
                        assert(piece_matches(data@, bsi, pieces@[k]));
                        assert(data@[cell_idx(bsi, frontier_x, frontier_y)] == pieces@[k].val);
                        assert(is_piece_char(pieces@[k].val));
                    }
                }
                x += 1;
            }
            y += 1;
        }
        if !chars_contain(&used, 'A') {
            proof {
                if valid_puzzle(puzzle@) {
                    let side = choose|nn: int|
                    0 <= nn <= MAX_SIZE as int && puzzle@.len() == nn * nn
                    && #[trigger] valid_grid(puzzle@, nn);
                    lemma_square_inj(side, bsi);
                    assert(valid_grid(data@, bsi));
                    let (ax, ay) = choose|ax: int, ay: int|
                    0 <= ax < bsi && 0 <= ay < bsi && data@[#[trigger] cell_idx(bsi, ax, ay)]
                    == 'A';
                    assert(before_cell(ax, ay, 0int, bsi));
                    assert(!clear_of_pieces(pieces@, pieces@.len() as int, ax, ay));
                    let k = choose|k: int|
                    0 <= k < pieces@.len() && (#[trigger] pieces@[k]).spec_contains(ax, ay);
                    assert(pieces@[k].val == 'A');
                    assert(used@.contains('A'));
                    assert(false);
                }
            }
            return Err(
                String::from_str(
                    "There is no primary piece. There must be a piece with the value 'A'",
                ),
            );
        }
        let board = Board { width: bs, height: bs, pieces, walls, primary_piece_id };
        proof {
            lemma_placed_id(&board);
            lemma_parse_wf(
                data@,
                bsi,
                board.pieces@,
                board.walls@,
                board.primary_piece_id as int,
            );
            assert forall|k: int| 0 <= k < board.pieces@.len() implies run_piece_for(
                data@,
                bsi,
                #[trigger] board.pieces@[k],
            ) by {
                assert forall|cx: int, cy: int| 0 <= cx < bsi && 0 <= cy < bsi implies ((data@[
                #[trigger] cell_idx(bsi, cx, cy)] == board.pieces@[k].val)
                    <==> board.pieces@[k].spec_contains(cx, cy)) by {
                    if data@[cell_idx(bsi, cx, cy)] == board.pieces@[k].val {
                        assert(before_cell(cx, cy, 0int, bsi));
                        assert(!clear_of_pieces(board.pieces@, board.pieces@.len() as int, cx, cy));
                        let j = choose|j: int|
                            0 <= j < board.pieces@.len() && (
                            #[trigger] board.pieces@[j]).spec_contains(cx, cy);
                        assert(board.pieces@[j].val == board.pieces@[k].val);
                        assert(j == k);
                    }
                }
            }
            let prim = board.primary_piece_id as int;
            assert(board.pieces@[prim].val == 'A');
            assert(grid_has_char(data@, bsi, 'A')) by {
                let pp = board.pieces@[prim];
                assert(pp.spec_contains(pp.p as int, pp.row as int));
                assert(data@[cell_idx(bsi, pp.p as int, pp.row as int)] == 'A');
            }
            assert forall|c: char|
                #[trigger] grid_has_char(data@, bsi, c) && is_piece_char(c) implies exists|pc: Piece|
                #[trigger] run_piece_for(data@, bsi, pc) && pc.val == c by {
                let (ax, ay) = choose|ax: int, ay: int|
                    0 <= ax < bsi && 0 <= ay < bsi && data@[#[trigger] cell_idx(bsi, ax, ay)] == c;
                assert(!clear_of_pieces(board.pieces@, board.pieces@.len() as int, ax, ay));
                let k = choose|k: int|
                    0 <= k < board.pieces@.len() && (#[trigger] board.pieces@[k]).spec_contains(
                        ax,
                        ay,
                    );
                assert(board.pieces@[k].val == c);
                assert(run_piece_for(data@, bsi, board.pieces@[k]) && board.pieces@[k].val == c);
            }
            assert(run_piece_for(data@, bsi, board.pieces@[prim]) && board.pieces@[prim].val == 'A'
                && board.pieces@[prim].spec_is_horizontal());
            assert(valid_grid(data@, bsi));
            assert(valid_puzzle(puzzle@));
            assert forall|cx: int, cy: int|
                0 <= cx < bsi && 0 <= cy < bsi implies ((puzzle@[#[trigger] cell_idx(bsi, cx, cy)]
                == 'x') <==> wall_at(board.walls@, cx, cy)) by {
                if wall_at(board.walls@, cx, cy) {
                    let wi = choose|wi: int|
                        0 <= wi < board.walls@.len() && (#[trigger] board.walls@[wi]).0 == cx
                            && board.walls@[wi].1 == cy;
                    assert(data@[cell_idx(bsi, cx, cy)] == 'x');
                }
            }
        }
        Ok(board)
    }

    pub fn get_piece(&self, piece_id: usize) -> (r: &Piece)
        requires
            piece_id < self.pieces@.len(),
        ensures
            *r == self.pieces@[piece_id as int],
    {
        &self.pieces[piece_id]
    }

    pub fn get_primary_piece(&self) -> (r: &Piece)
        requires
            self.primary_piece_id < self.pieces@.len(),
        ensures
            *r == self.pieces@[self.primary_piece_id as int],
    {
        &self.pieces[self.primary_piece_id]
    }

    /// True iff the primary piece is flush against the right edge.
    pub fn solved(&self) -> (r: bool)
        requires
            self.wf(),
        ensures
            r == self.spec_solved(),
    {
        proof {
            lemma_placed_id(self);
        }
        let primary_piece = self.get_primary_piece();
        primary_piece.p == self.width - primary_piece.size
    }

    /// All anchors, in piece order, in one pass.
    pub fn positions(&self) -> (r: Vec<usize>)
        ensures
            r@ == self.spec_config(),
    {
        let mut v: Vec<usize> = Vec::new();
        let n = self.pieces.len();
        let mut i: usize = 0;
        while i < n
            invariant
                i <= n,
                n == self.pieces@.len(),
                v@.len() == i,
                forall|k: int| 0 <= k < i ==> v@[k] == (#[trigger] self.pieces@[k]).p,
            decreases n - i,
        {
            v.push(self.pieces[i].p);
            i += 1;
        }
        proof {
            assert(v@ =~= self.spec_config());
        }
        v
    }

    /// Overwrite every anchor in one pass; nothing else changes.
    pub fn update_positions(&mut self, positions: &Vec<usize>)
        requires
            positions@.len() == old(self).pieces@.len(),
        ensures
            Board::same_skeleton(*final(self), *old(self)),
            final(self).spec_config() == positions@,
    {
        let n = positions.len();
        let mut i: usize = 0;
        while i < n
            invariant
                i <= n,
                n == positions@.len(),
                self.pieces@.len() == n,
                Board::same_skeleton(*self, *old(self)),
                forall|k: int| 0 <= k < i ==> (#[trigger] self.pieces@[k]).p == positions@[k],
                forall|k: int| i <= k < n ==> (#[trigger] self.pieces@[k]).p == old(
                    self,
                ).pieces@[k].p,
            decreases n - i,
        {
            self.pieces[i].p = positions[i];
            i += 1;
        }
        proof {
            assert(self.spec_config() =~= positions@);
        }
    }

    /// Slide one piece by a signed displacement. Callers apply only moves
    /// that are legal for the configuration they were enumerated against, so
    /// the invariant is preserved.
    pub fn move_piece(&mut self, piece_id: usize, d: i32)
        requires
            old(self).wf(),
            old(self).spec_move_ok(old(self).spec_config(), piece_id as int, d as int),
        ensures
            Board::same_skeleton(*final(self), *old(self)),
            final(self).spec_config() == conf_apply(
                old(self).spec_config(),
                piece_id as int,
                d as int,
            ),
            final(self).wf(),
    {
        proof {
            lemma_placed_id(self);
        }
        if d > 0 {
            self.pieces[piece_id].p += d as usize;
        } else {
            self.pieces[piece_id].p -= (-d) as usize;
        }
        proof {
            lemma_move_preserves_wf(old(self), old(self).spec_config(), piece_id as int, d as int);
            assert(self.spec_config() =~= conf_apply(
                old(self).spec_config(),
                piece_id as int,
                d as int,
            ));
            lemma_skeleton_placed(*self, *old(self), self.spec_config());
        }
    }

    /// Enumerate every legal single-piece slide at the current
    /// configuration: for each piece and each direction along its axis, every
    /// distance 1..k up to the first obstacle, each reported as its own move.
    pub fn movements(&self) -> (r: Vec<(usize, i32)>)
        requires
            self.wf(),
        ensures
            forall|mi: int|
                0 <= mi < r@.len() ==> self.spec_move_ok(
                    self.spec_config(),
                    (#[trigger] r@[mi]).0 as int,
                    r@[mi].1 as int,
                ),
            forall|i: int, d: int|
                #[trigger] self.spec_slide_ok(i, d) ==> r@.contains((i as usize, d as i32)),
            forall|mi: int|
                0 <= mi < r@.len() ==> self.spec_slide_ok(
                    (#[trigger] r@[mi]).0 as int,
                    r@[mi].1 as int,
                ),
    {
        proof {
            lemma_placed_id(self);
            lemma_square_le(self.width as int, MAX_SIZE as int);
        }
        let width = self.width;
        let ghost w = width as int;
        let total = width * width;
        let mut grid: Vec<bool> = Vec::new();
        let mut idx: usize = 0;
        while idx < total
            invariant
                idx <= total,
                grid@.len() == idx,
                forall|k: int| 0 <= k < idx ==> grid@[k],
            decreases total - idx,
        {
            grid.push(true);
            idx += 1;
        }
        proof {
            assert forall|x: int, y: int| 0 <= x < w && 0 <= y < w implies grid@[#[trigger] cell_idx(
                w,
                x,
                y,
            )] == clear_of_pieces(self.pieces@, 0, x, y) by {
                lemma_row_major_bounds(w, x, y);
            }
        }
        let n = self.pieces.len();
        let mut i: usize = 0;
        while i < n
            invariant
                self.wf(),
                i <= n,
                n == self.pieces@.len(),
                width == self.width,
                total == width * width,
                w == width as int,
                width <= MAX_SIZE,
                grid@.len() == total,
                self.placed(self.spec_config()) == self.pieces@,
                forall|x: int, y: int|
                    0 <= x < w && 0 <= y < w ==> grid@[#[trigger] cell_idx(w, x, y)]
                        == clear_of_pieces(self.pieces@, i as int, x, y),
            decreases n - i,
        {
            let pc = self.pieces[i];
            assert(piece_in_bounds(pc, w, w));
            if pc.is_horizontal() {
                let mut t: usize = 0;
                while t < pc.size
                    invariant
                        t <= pc.size,
                        0 <= i < n,
                        n == self.pieces@.len(),
                        pc == self.pieces@[i as int],
                        piece_in_bounds(pc, w, w),
                        pc.spec_is_horizontal(),
                        width == self.width,
                        total == width * width,
                        w == width as int,
                        width <= MAX_SIZE,
                        grid@.len() == total,
                        forall|x: int, y: int|
                            0 <= x < w && 0 <= y < w ==> grid@[#[trigger] cell_idx(w, x, y)] == (
                            clear_of_pieces(self.pieces@, i as int, x, y)
                                && !piece_prefix_contains(pc, t as int, x, y)),
                    decreases pc.size - t,
                {
                    let ghost grid0 = grid@;
                    grid_set(&mut grid, width, pc.p + t, pc.row, false);
                    proof {
                        let px = (pc.p + t) as int;
                        let py = pc.row as int;
                        lemma_row_major_bounds(w, px, py);
                        assert forall|x: int, y: int| 0 <= x < w && 0 <= y < w implies grid@[
                        #[trigger] cell_idx(w, x, y)] == (clear_of_pieces(
                            self.pieces@,
                            i as int,
                            x,
                            y,
                        ) && !piece_prefix_contains(pc, t + 1, x, y)) by {
                            lemma_row_major_bounds(w, x, y);
                            lemma_row_major_bounds(w, px, py);
                            if cell_idx(w, x, y) == cell_idx(w, px, py) {
                                lemma_row_major_inj(w, x, y, px, py);
                                assert(piece_prefix_contains(pc, t + 1, x, y));
                            } else {
                                assert(grid@[cell_idx(w, x, y)] == grid0[cell_idx(w, x, y)]);
                            }
                        }
                    }
                    t += 1;
                }
                proof {
                    assert forall|x: int, y: int| 0 <= x < w && 0 <= y < w implies grid@[
                    #[trigger] cell_idx(w, x, y)] == clear_of_pieces(
                        self.pieces@,
                        i + 1,
                        x,
                        y,
                    ) by {
                        assert(piece_prefix_contains(pc, pc.size as int, x, y)
                            == pc.spec_contains(x, y));
                        if clear_of_pieces(self.pieces@, i as int, x, y) && !pc.spec_contains(
                            x,
                            y,
                        ) {
                            assert forall|k: int| 0 <= k < i + 1 implies !(
                            #[trigger] self.pieces@[k]).spec_contains(x, y) by {}
                        }
                        if clear_of_pieces(self.pieces@, i + 1, x, y) {
                            assert(!self.pieces@[i as int].spec_contains(x, y));
                        }
                    }
                }
            } else {
                let mut t: usize = 0;
                while t < pc.size
                    invariant
                        t <= pc.size,
                        0 <= i < n,
                        n == self.pieces@.len(),
                        pc == self.pieces@[i as int],
                        piece_in_bounds(pc, w, w),
                        !pc.spec_is_horizontal(),
                        width == self.width,
                        total == width * width,
                        w == width as int,
                        width <= MAX_SIZE,
                        grid@.len() == total,
                        forall|x: int, y: int|
                            0 <= x < w && 0 <= y < w ==> grid@[#[trigger] cell_idx(w, x, y)] == (
                            clear_of_pieces(self.pieces@, i as int, x, y)
                                && !piece_prefix_contains(pc, t as int, x, y)),
                    decreases pc.size - t,
                {
                    let ghost grid0 = grid@;
                    grid_set(&mut grid, width, pc.row, pc.p + t, false);
                    proof {
                        let px = pc.row as int;
                        let py = (pc.p + t) as int;
                        lemma_row_major_bounds(w, px, py);
                        assert forall|x: int, y: int| 0 <= x < w && 0 <= y < w implies grid@[
                        #[trigger] cell_idx(w, x, y)] == (clear_of_pieces(
                            self.pieces@,
                            i as int,
                            x,
                            y,
                        ) && !piece_prefix_contains(pc, t + 1, x, y)) by {
                            lemma_row_major_bounds(w, x, y);
                            lemma_row_major_bounds(w, px, py);
                            if cell_idx(w, x, y) == cell_idx(w, px, py) {
                                lemma_row_major_inj(w, x, y, px, py);
                                assert(piece_prefix_contains(pc, t + 1, x, y));
                            } else {
                                assert(grid@[cell_idx(w, x, y)] == grid0[cell_idx(w, x, y)]);
                            }
                        }
                    }
                    t += 1;
                }
                proof {
                    assert forall|x: int, y: int| 0 <= x < w && 0 <= y < w implies grid@[
                    #[trigger] cell_idx(w, x, y)] == clear_of_pieces(
                        self.pieces@,
                        i + 1,
                        x,
                        y,
                    ) by {
                        assert(piece_prefix_contains(pc, pc.size as int, x, y)
                            == pc.spec_contains(x, y));
                        if clear_of_pieces(self.pieces@, i as int, x, y) && !pc.spec_contains(
                            x,
                            y,
                        ) {
                            assert forall|k: int| 0 <= k < i + 1 implies !(
                            #[trigger] self.pieces@[k]).spec_contains(x, y) by {}
                        }
                        if clear_of_pieces(self.pieces@, i + 1, x, y) {
                            assert(!self.pieces@[i as int].spec_contains(x, y));
                        }
                    }
                }
            }
            i += 1;
        }
        let m = self.walls.len();
        let mut wi: usize = 0;
        while wi < m
            invariant
                self.wf(),
                wi <= m,
                m == self.walls@.len(),
                n == self.pieces@.len(),
                width == self.width,
                total == width * width,
                w == width as int,
                width <= MAX_SIZE,
                grid@.len() == total,
                forall|x: int, y: int|
                    0 <= x < w && 0 <= y < w ==> grid@[#[trigger] cell_idx(w, x, y)] == (
                    clear_of_pieces(self.pieces@, n as int, x, y) && clear_of_walls(
                        self.walls@,
                        wi as int,
                        x,
                        y,
                    )),
            decreases m - wi,
        {
            let wall = self.walls[wi];
            proof {
                lemma_placed_id(self);
                assert(wall_in_bounds(wall, w, w));
            }
            let ghost grid0 = grid@;
            grid_set(&mut grid, width, wall.0, wall.1, false);
            proof {
                let px = wall.0 as int;
                let py = wall.1 as int;
                lemma_row_major_bounds(w, px, py);
                assert forall|x: int, y: int| 0 <= x < w && 0 <= y < w implies grid@[
                #[trigger] cell_idx(w, x, y)] == (clear_of_pieces(self.pieces@, n as int, x, y)
                    && clear_of_walls(self.walls@, wi + 1, x, y)) by {
                    lemma_row_major_bounds(w, x, y);
                    lemma_row_major_bounds(w, px, py);
                    if cell_idx(w, x, y) == cell_idx(w, px, py) {
                        lemma_row_major_inj(w, x, y, px, py);
                        assert(!clear_of_walls(self.walls@, wi + 1, x, y));
                    } else {
                        assert(grid@[cell_idx(w, x, y)] == grid0[cell_idx(w, x, y)]);
                        if clear_of_walls(self.walls@, wi as int, x, y) && !(self.walls@[wi as int].0
                            == x && self.walls@[wi as int].1 == y) {
                            assert forall|k: int| 0 <= k < wi + 1 implies !((
                            #[trigger] self.walls@[k]).0 == x && self.walls@[k].1 == y) by {}
                        }
                        if clear_of_walls(self.walls@, wi + 1, x, y) {
                            assert(!(self.walls@[wi as int].0 == x && self.walls@[wi as int].1
                                == y));
                        }
                    }
                }
            }
            wi += 1;
        }
        proof {
            assert forall|x: int, y: int| 0 <= x < w && 0 <= y < w implies grid@[
            #[trigger] cell_idx(w, x, y)] == self.spec_free(x, y) by {}
        }
        let mut results: Vec<(usize, i32)> = Vec::new();
        let mut i: usize = 0;
        while i < n
            invariant
                self.wf(),
                i <= n,
                n == self.pieces@.len(),
                width == self.width,
                total == width * width,
                w == width as int,
                width <= MAX_SIZE,
                grid@.len() == total,
                grid_reflects(self, w, grid@),
                forall|mi: int|
                    0 <= mi < results@.len() ==> self.spec_move_ok(
                        self.spec_config(),
                        (#[trigger] results@[mi]).0 as int,
                        results@[mi].1 as int,
                    ),
                forall|mi: int|
                    0 <= mi < results@.len() ==> self.spec_slide_ok(
                        (#[trigger] results@[mi]).0 as int,
                        results@[mi].1 as int,
                    ),
                forall|i2: int, dd: int|
                    0 <= i2 < i && #[trigger] self.spec_slide_ok(i2, dd) ==> results@.contains(
                        (i2 as usize, dd as i32),
                    ),
            decreases n - i,
        {
            let pc = self.pieces[i];
            proof {
                lemma_placed_id(self);
                assert(piece_in_bounds(pc, w, w));
            }
            if pc.is_horizontal() {
                let mut dl: usize = 1;
                while pc.p >= dl && grid_free(&grid, width, pc.p - dl, pc.row)
                    invariant
                        self.wf(),
                        1 <= dl,
                        dl <= pc.p + 1,
                        0 <= i < n,
                        n == self.pieces@.len(),
                        pc == self.pieces@[i as int],
                        piece_in_bounds(pc, w, w),
                        pc.spec_is_horizontal(),
                        width == self.width,
                        total == width * width,
                        w == width as int,
                        width <= MAX_SIZE,
                        grid@.len() == total,
                        grid_reflects(self, w, grid@),
                        forall|pos: int|
                            pc.p - dl < pos < pc.p ==> #[trigger] self.spec_free(
                                pos,
                                pc.row as int,
                            ),
                        forall|mi: int|
                            0 <= mi < results@.len() ==> self.spec_move_ok(
                                self.spec_config(),
                                (#[trigger] results@[mi]).0 as int,
                                results@[mi].1 as int,
                            ),
                        forall|mi: int|
                            0 <= mi < results@.len() ==> self.spec_slide_ok(
                                (#[trigger] results@[mi]).0 as int,
                                results@[mi].1 as int,
                            ),
                        forall|i2: int, dd: int|
                            0 <= i2 < i && #[trigger] self.spec_slide_ok(i2, dd)
                                ==> results@.contains((i2 as usize, dd as i32)),
                        forall|e: int|
                            1 <= e < dl ==> results@.contains((i as usize, #[trigger] ((-e) as i32))),
                    decreases pc.p + 1 - dl,
                {
                    proof {
                        assert(grid@[cell_idx(w, pc.p - dl, pc.row as int)]);
                        assert(self.spec_free(pc.p - dl, pc.row as int));
                        lemma_clear_path_move_ok_h(self, i as int, -(dl as int));
                        assert forall|pos: int|
                            pc.p - (dl as int) <= pos < pc.p implies free_along(
                            self,
                            self.pieces@[i as int],
                            pos,
                        ) by {}
                        assert(self.spec_slide_ok(i as int, -(dl as int)));
                    }
                    results.push((i, -(dl as i32)));
                    dl += 1;
                }
                let mut dr: usize = 1;
                let end = pc.p + pc.size - 1;
                while end + dr < width && grid_free(&grid, width, end + dr, pc.row)
                    invariant
                        self.wf(),
                        1 <= dr,
                        1 <= dl,
                        end == pc.p + pc.size - 1,
                        end + dr <= width + 1,
                        0 <= i < n,
                        n == self.pieces@.len(),
                        pc == self.pieces@[i as int],
                        piece_in_bounds(pc, w, w),
                        pc.spec_is_horizontal(),
                        width == self.width,
                        total == width * width,
                        w == width as int,
                        width <= MAX_SIZE,
                        grid@.len() == total,
                        grid_reflects(self, w, grid@),
                        forall|pos: int|
                            pc.p + pc.size <= pos < end + dr ==> #[trigger] self.spec_free(
                                pos,
                                pc.row as int,
                            ),
                        forall|mi: int|
                            0 <= mi < results@.len() ==> self.spec_move_ok(
                                self.spec_config(),
                                (#[trigger] results@[mi]).0 as int,
                                results@[mi].1 as int,
                            ),
                        forall|mi: int|
                            0 <= mi < results@.len() ==> self.spec_slide_ok(
                                (#[trigger] results@[mi]).0 as int,
                                results@[mi].1 as int,
                            ),
                        forall|i2: int, dd: int|
                            0 <= i2 < i && #[trigger] self.spec_slide_ok(i2, dd)
                                ==> results@.contains((i2 as usize, dd as i32)),
                        forall|e: int|
                            1 <= e < dl ==> results@.contains((i as usize, #[trigger] ((-e) as i32))),
                        forall|e: int|
                            1 <= e < dr ==> results@.contains((i as usize, #[trigger] (e as i32))),
                    decreases width + 1 - end - dr,
                {
                    proof {
                        assert(grid@[cell_idx(w, end + dr, pc.row as int)]);
                        assert(self.spec_free(end + dr, pc.row as int));
                        lemma_clear_path_move_ok_h(self, i as int, dr as int);
                        assert forall|pos: int|
                            pc.p + pc.size <= pos < pc.p + pc.size + (dr as int) implies free_along(
                            self,
                            self.pieces@[i as int],
                            pos,
                        ) by {}
                        assert(self.spec_slide_ok(i as int, dr as int));
                    }
                    results.push((i, dr as i32));
                    dr += 1;
                }
                proof {
                    assert forall|dd: int| #[trigger] self.spec_slide_ok(i as int, dd)
                        implies results@.contains((i as usize, dd as i32)) by {
                        let ppos = pc.p as int;
                        let psize = pc.size as int;
                        if dd < 0 {
                            let e = -dd;
                            if e < dl {
                                assert(results@.contains((i as usize, (-e) as i32)));
                            } else {
                                assert(ppos + dd >= 0);
                                assert(ppos >= dl);
                                assert(!grid@[cell_idx(w, ppos - dl, pc.row as int)]);
                                assert(free_along(self, self.pieces@[i as int], ppos - dl));
                                assert(false);
                            }
                        } else {
                            if dd < dr {
                                assert(results@.contains((i as usize, dd as i32)));
                            } else {
                                if end + dr < width {
                                    assert(!grid@[cell_idx(w, end + dr, pc.row as int)]);
                                    assert(free_along(self, self.pieces@[i as int], end + dr));
                                    assert(false);
                                } else {
                                    assert(ppos + dd + psize > w);
                                    assert(false);
                                }
                            }
                        }
                    }
                }
            } else {
                let mut dl: usize = 1;
                while pc.p >= dl && grid_free(&grid, width, pc.row, pc.p - dl)
                    invariant
                        self.wf(),
                        1 <= dl,
                        dl <= pc.p + 1,
                        0 <= i < n,
                        n == self.pieces@.len(),
                        pc == self.pieces@[i as int],
                        piece_in_bounds(pc, w, w),
                        !pc.spec_is_horizontal(),
                        width == self.width,
                        total == width * width,
                        w == width as int,
                        width <= MAX_SIZE,
                        grid@.len() == total,
                        grid_reflects(self, w, grid@),
                        forall|pos: int|
                            pc.p - dl < pos < pc.p ==> #[trigger] self.spec_free(
                                pc.row as int,
                                pos,
                            ),
                        forall|mi: int|
                            0 <= mi < results@.len() ==> self.spec_move_ok(
                                self.spec_config(),
                                (#[trigger] results@[mi]).0 as int,
                                results@[mi].1 as int,
                            ),
                        forall|mi: int|
                            0 <= mi < results@.len() ==> self.spec_slide_ok(
                                (#[trigger] results@[mi]).0 as int,
                                results@[mi].1 as int,
                            ),
                        forall|i2: int, dd: int|
                            0 <= i2 < i && #[trigger] self.spec_slide_ok(i2, dd)
                                ==> results@.contains((i2 as usize, dd as i32)),
                        forall|e: int|
                            1 <= e < dl ==> results@.contains((i as usize, #[trigger] ((-e) as i32))),
                    decreases pc.p + 1 - dl,
                {
                    proof {
                        assert(grid@[cell_idx(w, pc.row as int, pc.p - dl)]);
                        assert(self.spec_free(pc.row as int, pc.p - dl));
                        lemma_clear_path_move_ok_v(self, i as int, -(dl as int));
                        assert forall|pos: int|
                            pc.p - (dl as int) <= pos < pc.p implies free_along(
                            self,
                            self.pieces@[i as int],
                            pos,
                        ) by {}
                        assert(self.spec_slide_ok(i as int, -(dl as int)));
                    }
                    results.push((i, -(dl as i32)));
                    dl += 1;
                }
                let mut dr: usize = 1;
                let end = pc.p + pc.size - 1;
                while end + dr < width && grid_free(&grid, width, pc.row, end + dr)
                    invariant
                        self.wf(),
                        1 <= dr,
                        1 <= dl,
                        end == pc.p + pc.size - 1,
                        end + dr <= width + 1,
                        0 <= i < n,
                        n == self.pieces@.len(),
                        pc == self.pieces@[i as int],
                        piece_in_bounds(pc, w, w),
                        !pc.spec_is_horizontal(),
                        width == self.width,
                        total == width * width,
                        w == width as int,
                        width <= MAX_SIZE,
                        grid@.len() == total,
                        grid_reflects(self, w, grid@),
                        forall|pos: int|
                            pc.p + pc.size <= pos < end + dr ==> #[trigger] self.spec_free(
                                pc.row as int,
                                pos,
                            ),
                        forall|mi: int|
                            0 <= mi < results@.len() ==> self.spec_move_ok(
                                self.spec_config(),
                                (#[trigger] results@[mi]).0 as int,
                                results@[mi].1 as int,
                            ),
                        forall|mi: int|
                            0 <= mi < results@.len() ==> self.spec_slide_ok(
                                (#[trigger] results@[mi]).0 as int,
                                results@[mi].1 as int,
                            ),
                        forall|i2: int, dd: int|
                            0 <= i2 < i && #[trigger] self.spec_slide_ok(i2, dd)
                                ==> results@.contains((i2 as usize, dd as i32)),
                        forall|e: int|
                            1 <= e < dl ==> results@.contains((i as usize, #[trigger] ((-e) as i32))),
                        forall|e: int|
                            1 <= e < dr ==> results@.contains((i as usize, #[trigger] (e as i32))),
                    decreases width + 1 - end - dr,
                {
                    proof {
                        assert(grid@[cell_idx(w, pc.row as int, end + dr)]);
                        assert(self.spec_free(pc.row as int, end + dr));
                        lemma_clear_path_move_ok_v(self, i as int, dr as int);
                        assert forall|pos: int|
                            pc.p + pc.size <= pos < pc.p + pc.size + (dr as int) implies free_along(
                            self,
                            self.pieces@[i as int],
                            pos,
                        ) by {}
                        assert(self.spec_slide_ok(i as int, dr as int));
                    }
                    results.push((i, dr as i32));
                    dr += 1;
                }
                proof {
                    assert forall|dd: int| #[trigger] self.spec_slide_ok(i as int, dd)
                        implies results@.contains((i as usize, dd as i32)) by {
                        let ppos = pc.p as int;
                        let psize = pc.size as int;
                        if dd < 0 {
                            let e = -dd;
                            if e < dl {
                                assert(results@.contains((i as usize, (-e) as i32)));
                            } else {
                                assert(ppos + dd >= 0);
                                assert(ppos >= dl);
                                assert(!grid@[cell_idx(w, pc.row as int, ppos - dl)]);
                                assert(free_along(self, self.pieces@[i as int], ppos - dl));
                                assert(false);
                            }
                        } else {
                            if dd < dr {
                                assert(results@.contains((i as usize, dd as i32)));
                            } else {
                                if end + dr < width {
                                    assert(!grid@[cell_idx(w, pc.row as int, end + dr)]);
                                    assert(free_along(self, self.pieces@[i as int], end + dr));
                                    assert(false);
                                } else {
                                    assert(ppos + dd + psize > w);
                                    assert(false);
                                }
                            }
                        }
                    }
                }
            }
            i += 1;
        }
        results
    }

    /// True iff no piece and no wall covers cell (x, y); used by setup-time
    /// insertion.
    pub fn is_free(&self, x: usize, y: usize) -> (r: bool)
        ensures
            r == self.spec_free(x as int, y as int),
    {
        let n = self.pieces.len();
        let mut i: usize = 0;
        while i < n
            invariant
                i <= n,
                n == self.pieces@.len(),
                forall|k: int|
                    0 <= k < i ==> !(#[trigger] self.pieces@[k]).spec_contains(
                        x as int,
                        y as int,
                    ),
            decreases n - i,
        {
            if self.pieces[i].contains(x, y) {
                return false;
            }
            i += 1;
        }
        let m = self.walls.len();
        let mut wi: usize = 0;
        while wi < m
            invariant
                wi <= m,
                m == self.walls@.len(),
                forall|k: int|
                    0 <= k < wi ==> !((#[trigger] self.walls@[k]).0 == x as int && self.walls@[k].1
                        == y as int),
            decreases m - wi,
        {
            let w = self.walls[wi];
            if x == w.0 && y == w.1 {
                return false;
            }
            wi += 1;
        }
        true
    }

    /// Insert a wall on a free in-bounds cell; setup-time only.
    pub fn add_wall(&mut self, x: usize, y: usize)
        requires
            old(self).wf(),
            old(self).spec_free(x as int, y as int),
            x < old(self).width,
            y < old(self).height,
        ensures
            final(self).wf(),
            final(self).walls@ == old(self).walls@.push((x, y)),
            final(self).pieces@ == old(self).pieces@,
            final(self).width == old(self).width,
            final(self).height == old(self).height,
            final(self).primary_piece_id == old(self).primary_piece_id,
    {
        proof {
            lemma_placed_id(self);
        }
        self.walls.push((x, y));
        proof {
            lemma_placed_id(self);
            assert(self.placed(self.spec_config()) =~= old(self).placed(old(self).spec_config()));
        }
    }

    /// Insert a piece whose cells are all free and in bounds; setup-time
    /// only.
    pub fn add_piece(&mut self, piece: &Piece)
        requires
            old(self).wf(),
            piece_in_bounds(*piece, old(self).width as int, old(self).height as int),
            forall|x: int, y: int|
                #[trigger] piece.spec_contains(x, y) ==> old(self).spec_free(x, y),
        ensures
            final(self).wf(),
            final(self).pieces@ == old(self).pieces@.push(*piece),
            final(self).walls@ == old(self).walls@,
            final(self).width == old(self).width,
            final(self).height == old(self).height,
            final(self).primary_piece_id == old(self).primary_piece_id,
    {
        proof {
            lemma_placed_id(self);
        }
        self.pieces.push(*piece);
        proof {
            lemma_placed_id(self);
            let ps = self.placed(self.spec_config());
            let old_ps = old(self).placed(old(self).spec_config());
            assert(ps =~= old_ps.push(*piece));
            let w = self.width as int;
            let h = self.height as int;
            let n = old_ps.len() as int;
            assert forall|j: int, k: int|
                0 <= j < ps.len() && 0 <= k < ps.len() && j != k implies pieces_disjoint(
                #[trigger] ps[j],
                #[trigger] ps[k],
            ) by {
                if j == n {
                    assert forall|x: int, y: int|
                        #![trigger ps[j].spec_contains(x, y), ps[k].spec_contains(x, y)]
                        !(ps[j].spec_contains(x, y) && ps[k].spec_contains(x, y)) by {
                        if piece.spec_contains(x, y) {
                            assert(old(self).spec_free(x, y));
                        }
                    }
                } else if k == n {
                    assert forall|x: int, y: int|
                        #![trigger ps[j].spec_contains(x, y), ps[k].spec_contains(x, y)]
                        !(ps[j].spec_contains(x, y) && ps[k].spec_contains(x, y)) by {
                        if piece.spec_contains(x, y) {
                            assert(old(self).spec_free(x, y));
                        }
                    }
                } else {
                    assert(pieces_disjoint(old_ps[j], old_ps[k]));
                }
            }
            assert forall|k: int, wi: int|
                0 <= k < ps.len() && 0 <= wi < self.walls@.len() implies !(
            #[trigger] ps[k].spec_contains(
                (#[trigger] self.walls@[wi]).0 as int,
                self.walls@[wi].1 as int,
            )) by {
                if k == n {
                    let wx = self.walls@[wi].0 as int;
                    let wy = self.walls@[wi].1 as int;
                    if piece.spec_contains(wx, wy) {
                        assert(old(self).spec_free(wx, wy));
                    }
                }
            }
        }
    }
}

} // verus!
