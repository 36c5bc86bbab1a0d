use vstd::prelude::*;

use crate::board::{conf_apply, Board, MAX_SIZE};
use vstd::arithmetic::power::pow;
use vstd::set_lib::lemma_int_range;
use vstd::set_lib::set_int_range;

verus! {

/// One record of the visited map: a discovered configuration, the single
/// (piece, displacement) move that produced it from its parent, and its
/// breadth-first depth. The zero-displacement move is the sentinel of the
/// initial configuration.
pub type SearchEntry = (Vec<usize>, (usize, i32), usize);

/// The configuration reached by playing `moves` from `c`, one slide at a
/// time.
pub open spec fn play(c: Seq<usize>, moves: Seq<(usize, i32)>) -> Seq<usize>
    decreases moves.len(),
{
    if moves.len() == 0 {
        c
    } else {
        play(conf_apply(c, moves[0].0 as int, moves[0].1 as int), moves.drop_first())
    }
}

/// Every move of `moves` is legal at the configuration it is played from.
pub open spec fn plays_legal(b: Board, c: Seq<usize>, moves: Seq<(usize, i32)>) -> bool
    decreases moves.len(),
{
    moves.len() == 0 || (b.spec_move_ok(c, moves[0].0 as int, moves[0].1 as int) && plays_legal(
        b,
        conf_apply(c, moves[0].0 as int, moves[0].1 as int),
        moves.drop_first(),
    ))
}

/// Every move of `moves` is a clear-path slide at the configuration it is
/// played from.
pub open spec fn plays_slide(b: Board, c: Seq<usize>, moves: Seq<(usize, i32)>) -> bool
    decreases moves.len(),
{
    moves.len() == 0 || (b.slide_at(c, moves[0].0 as int, moves[0].1 as int) && plays_slide(
        b,
        conf_apply(c, moves[0].0 as int, moves[0].1 as int),
        moves.drop_first(),
    ))
}

/// A configuration read as a base-`base` numeral, anchors as digits.
pub open spec fn conf_encode(c: Seq<usize>, base: int) -> int
    decreases c.len(),
{
    if c.len() == 0 {
        0
    } else {
        c[0] + base * conf_encode(c.drop_first(), base)
    }
}

/// Some entry of the map records configuration `c`.
pub open spec fn map_has_key(map: Seq<SearchEntry>, c: Seq<usize>) -> bool {
    exists|e: int| 0 <= e < map.len() && (#[trigger] map[e]).0@ == c
}

/// No two entries record the same configuration.
pub open spec fn keys_unique(map: Seq<SearchEntry>) -> bool {
    forall|e1: int, e2: int|
        0 <= e1 < map.len() && 0 <= e2 < map.len() && (#[trigger] map[e1]).0@ == (
        #[trigger] map[e2]).0@ ==> e1 == e2
}

/// The entry recording configuration `c`; meaningful under `keys_unique`.
pub open spec fn key_index(map: Seq<SearchEntry>, c: Seq<usize>) -> int {
    choose|e: int| 0 <= e < map.len() && (#[trigger] map[e]).0@ == c
}

/// The breadth-first depth recorded for configuration `c`.
pub open spec fn key_depth(map: Seq<SearchEntry>, c: Seq<usize>) -> int {
    map[key_index(map, c)].2 as int
}

/// Soundness of one visited-map entry: its configuration is well-formed, and
/// a non-sentinel entry was produced by a legal move from a recorded parent
/// one level shallower.
pub open spec fn entry_ok(b: Board, map: Seq<SearchEntry>, init: Seq<usize>, e: int) -> bool {
    let c = map[e].0@;
    let pid = map[e].1.0 as int;
    let d = map[e].1.1 as int;
    let dep = map[e].2 as int;
    &&& b.wf_config(c)
    &&& dep < map.len()
    &&& if d == 0 {
        c == init && dep == 0
    } else {
        let parent = c.update(pid, (c[pid] - d) as usize);
        &&& 0 <= pid < c.len()
        &&& 0 <= c[pid] - d <= MAX_SIZE
        &&& b.spec_move_ok(parent, pid, d)
        &&& b.slide_at(parent, pid, d)
        &&& conf_apply(parent, pid, d) == c
        &&& exists|pe: int|
            0 <= pe < map.len() && (#[trigger] map[pe]).0@ == parent && map[pe].2 + 1 == dep
    }
}

/// Soundness of the whole visited map.
pub open spec fn map_ok(b: Board, map: Seq<SearchEntry>, init: Seq<usize>) -> bool {
    forall|e: int| 0 <= e < map.len() ==> #[trigger] entry_ok(b, map, init, e)
}

/// Every clear-path slide from the entry's configuration leads to a
/// recorded configuration at most one level deeper.
pub open spec fn expanded(b: Board, map: Seq<SearchEntry>, e: int) -> bool {
    forall|i: int, d: int|
        #[trigger] b.slide_at(map[e].0@, i, d) ==> exists|e2: int|
            0 <= e2 < map.len() && (#[trigger] map[e2]).0@ == conf_apply(map[e].0@, i, d)
                && map[e2].2 <= map[e].2 + 1
}

/// Playing one more move extends the played sequence by one slide.
pub proof fn lemma_play_snoc(b: Board, c: Seq<usize>, moves: Seq<(usize, i32)>, mv: (usize, i32))
    ensures
        play(c, moves.push(mv)) == conf_apply(play(c, moves), mv.0 as int, mv.1 as int),
        plays_slide(b, c, moves.push(mv)) == (plays_slide(b, c, moves) && b.slide_at(
            play(c, moves),
            mv.0 as int,
            mv.1 as int,
        )),
    decreases moves.len(),
{
    if moves.len() == 0 {
        assert(moves.push(mv).drop_first() =~= moves);
        assert(moves.push(mv)[0] == mv);
        let c1 = conf_apply(c, mv.0 as int, mv.1 as int);
        assert(play(c1, moves) == c1);
        assert(plays_slide(b, c1, moves));
        assert(play(c, moves.push(mv)) == play(c1, moves));
        assert(plays_slide(b, c, moves.push(mv)) == (b.slide_at(c, mv.0 as int, mv.1 as int)
            && plays_slide(b, c1, moves)));
        assert(play(c, moves) == c);
        assert(plays_slide(b, c, moves));
    } else {
        assert(moves.push(mv).drop_first() =~= moves.drop_first().push(mv));
        lemma_play_snoc(
            b,
            conf_apply(c, moves[0].0 as int, moves[0].1 as int),
            moves.drop_first(),
            mv,
        );
        assert(moves.push(mv)[0] == moves[0]);
    }
}

/// In a depth-sorted map whose entries shallower than entry `h` are all
/// expanded, any slide sequence from the initial configuration no longer
/// than the depth of `h` ends at a recorded configuration no deeper than the
/// sequence's length.
pub proof fn lemma_short_paths_recorded(
    b: Board,
    map: Seq<SearchEntry>,
    init: Seq<usize>,
    h: int,
    moves: Seq<(usize, i32)>,
)
    requires
        0 <= h < map.len(),
        map[0].0@ == init,
        map[0].2 == 0,
        forall|e1: int, e2: int|
            0 <= e1 <= e2 < map.len() ==> (#[trigger] map[e1]).2 <= (#[trigger] map[e2]).2,
        forall|e: int|
            0 <= e < map.len() && (#[trigger] map[e]).2 < map[h].2 ==> expanded(b, map, e),
        plays_slide(b, init, moves),
        moves.len() <= map[h].2,
    ensures
        exists|e2: int|
            0 <= e2 < map.len() && (#[trigger] map[e2]).0@ == play(init, moves) && map[e2].2
                <= moves.len(),
    decreases moves.len(),
{
    if moves.len() == 0 {
        assert(map[0].0@ == play(init, moves) && map[0].2 <= moves.len());
    } else {
        let prefix = moves.drop_last();
        let mv = moves.last();
        assert(moves =~= prefix.push(mv));
        lemma_play_snoc(b, init, prefix, mv);
        lemma_short_paths_recorded(b, map, init, h, prefix);
        let e1 = choose|e1: int|
            0 <= e1 < map.len() && (#[trigger] map[e1]).0@ == play(init, prefix) && map[e1].2
                <= prefix.len();
        assert(map[e1].2 < map[h].2);
        assert(expanded(b, map, e1));
        assert(b.slide_at(map[e1].0@, mv.0 as int, mv.1 as int));
        let e2 = choose|e2: int|
            0 <= e2 < map.len() && (#[trigger] map[e2]).0@ == conf_apply(
                map[e1].0@,
                mv.0 as int,
                mv.1 as int,
            ) && map[e2].2 <= map[e1].2 + 1;
        assert(map[e2].0@ == play(init, moves));
        assert(map[e2].2 <= moves.len());
    }
}

/// Anchors of a well-formed configuration are strictly below width + 1.
pub proof fn lemma_config_entries_bounded(b: Board, c: Seq<usize>)
    requires
        b.wf_config(c),
    ensures
        forall|k: int| 0 <= k < c.len() ==> 0 <= #[trigger] c[k] < b.width as int + 1,
{
    assert forall|k: int| 0 <= k < c.len() implies 0 <= #[trigger] c[k] < b.width as int + 1 by {
        let pc = b.placed(c)[k];
        assert(crate::board::piece_in_bounds(pc, b.width as int, b.height as int));
        assert(pc.p == c[k]);
    }
}

pub proof fn lemma_radix_digit(a1: int, a2: int, e1: int, e2: int, base: int)
    by (nonlinear_arith)
    requires
        0 <= a1 < base,
        0 <= a2 < base,
        a1 + base * e1 == a2 + base * e2,
    ensures
        a1 == a2,
        e1 == e2,
{
}

/// A base-`base` numeral with digits below `base` lies below
/// `base ^ digits`.
pub proof fn lemma_conf_encode_bounds(c: Seq<usize>, base: int)
    requires
        base >= 1,
        forall|k: int| 0 <= k < c.len() ==> 0 <= #[trigger] c[k] < base,
    ensures
        0 <= conf_encode(c, base) < pow(base, c.len()),
    decreases c.len(),
{
    if c.len() == 0 {
        assert(pow(base, 0) == 1) by {
            vstd::arithmetic::power::lemma_pow0(base);
        }
    } else {
        let rest = c.drop_first();
        lemma_conf_encode_bounds(rest, base);
        let er = conf_encode(rest, base);
        let pr = pow(base, rest.len());
        assert(pow(base, c.len()) == base * pr) by {
            vstd::arithmetic::power::lemma_pow_adds(base, 1, rest.len());
            vstd::arithmetic::power::lemma_pow1(base);
        }
        assert(c[0] + base * er < base * pr) by (nonlinear_arith)
            requires
                0 <= c[0] < base,
                0 <= er < pr,
        {
        }
    }
}

/// Distinct equal-length configurations with anchors below `base` encode to
/// distinct numerals.
pub proof fn lemma_conf_encode_inj(c1: Seq<usize>, c2: Seq<usize>, base: int)
    requires
        base >= 1,
        c1.len() == c2.len(),
        forall|k: int| 0 <= k < c1.len() ==> 0 <= #[trigger] c1[k] < base,
        forall|k: int| 0 <= k < c2.len() ==> 0 <= #[trigger] c2[k] < base,
        conf_encode(c1, base) == conf_encode(c2, base),
    ensures
        c1 == c2,
    decreases c1.len(),
{
    if c1.len() == 0 {
        assert(c1 =~= c2);
    } else {
        let r1 = c1.drop_first();
        let r2 = c2.drop_first();
        lemma_radix_digit(
            c1[0] as int,
            c2[0] as int,
            conf_encode(r1, base),
            conf_encode(r2, base),
            base,
        );
        assert forall|k: int| 0 <= k < r1.len() implies 0 <= #[trigger] r1[k] < base by {
            assert(r1[k] == c1[k + 1]);
        }
        assert forall|k: int| 0 <= k < r2.len() implies 0 <= #[trigger] r2[k] < base by {
            assert(r2[k] == c2[k + 1]);
        }
        lemma_conf_encode_inj(r1, r2, base);
        assert forall|k: int| 0 <= k < c1.len() implies c1[k] == c2[k] by {
            if k > 0 {
                assert(r1[k - 1] == c1[k]);
                assert(r2[k - 1] == c2[k]);
            }
        }
        assert(c1 =~= c2);
    }
}

/// An exact copy of an anchor vector.
fn copy_positions(v: &Vec<usize>) -> (r: Vec<usize>)
    ensures
        r@ == v@,
{
    let n = v.len();
    let mut r: Vec<usize> = Vec::new();
    let mut i: usize = 0;
    while i < n
        invariant
            i <= n,
            n == v@.len(),
            r@.len() == i,
            forall|k: int| 0 <= k < i ==> r@[k] == v@[k],
        decreases n - i,
    {
        r.push(v[i]);
        i += 1;
    }
    proof {
        assert(r@ =~= v@);
    }
    r
}

/// Element-wise equality of two anchor vectors.
fn configs_equal(a: &Vec<usize>, b: &Vec<usize>) -> (r: bool)
    ensures
        r == (a@ == b@),
{
    let n = a.len();
    if n != b.len() {
        return false;
    }
    let mut i: usize = 0;
    while i < n
        invariant
            i <= n,
            n == a@.len(),
            n == b@.len(),
            forall|k: int| 0 <= k < i ==> a@[k] == b@[k],
        decreases n - i,
    {
        if a[i] != b[i] {
            return false;
        }
        i += 1;
    }
    proof {
        assert(a@ =~= b@);
    }
    true
}

/// Linear search of the visited map for a configuration; returns its
/// recorded move.
fn map_find(map: &Vec<SearchEntry>, key: &Vec<usize>) -> (r: Option<(usize, i32)>)
    ensures
        r matches Some(mv) ==> exists|e: int|
            0 <= e < map@.len() && (#[trigger] map@[e]).0@ == key@ && map@[e].1 == mv,
        r is None ==> !map_has_key(map@, key@),
{
    let n = map.len();
    let mut i: usize = 0;
    while i < n
        invariant
            i <= n,
            n == map@.len(),
            forall|e: int| 0 <= e < i ==> (#[trigger] map@[e]).0@ != key@,
        decreases n - i,
    {
        if configs_equal(&map[i].0, key) {
            return Some(map[i].1);
        }
        i += 1;
    }
    None
}

/// Walk the visited map backwards from `positions` to the initial
/// configuration, undoing each recorded move, and return the move sequence
/// in forward order.
fn restore_solution(
    positions: &Vec<usize>,
    map: &Vec<SearchEntry>,
    Ghost(b): Ghost<Board>,
    Ghost(init): Ghost<Seq<usize>>,
) -> (solution: Vec<(usize, i32)>)
    requires
        map_ok(b, map@, init),
        keys_unique(map@),
        map_has_key(map@, positions@),
    ensures
        plays_legal(b, init, solution@),
        plays_slide(b, init, solution@),
        play(init, solution@) == positions@,
        solution@.len() == key_depth(map@, positions@),
{
    let mut cur = copy_positions(positions);
    let mut solution: Vec<(usize, i32)> = Vec::new();
    let mut mv = match map_find(map, &cur) {
        Some(m) => m,
        None => {
            // unreachable: the walked configuration is always recorded
            proof {
                assert(false);
            }
            (0, 0)
        },
    };
    while mv.1 != 0
        invariant
            map_ok(b, map@, init),
            keys_unique(map@),
            map_has_key(map@, cur@),
            ({
                let e = key_index(map@, cur@);
                0 <= e < map@.len() && map@[e].0@ == cur@ && map@[e].1 == mv
            }),
            plays_legal(b, cur@, solution@),
            plays_slide(b, cur@, solution@),
            play(cur@, solution@) == positions@,
            solution@.len() + key_depth(map@, cur@) == key_depth(map@, positions@),
        decreases key_depth(map@, cur@),
    {
        let (pid, d) = mv;
        let ghost cur0 = cur@;
        let ghost sol0 = solution@;
        let ghost e0 = key_index(map@, cur0);
        proof {
            assert(entry_ok(b, map@, init, e0));
        }
        if d > 0 {
            cur[pid] -= d as usize;
        } else {
            cur[pid] += (-d) as usize;
        }
        solution.insert(0, (pid, d));
        proof {
            assert(cur@ =~= cur0.update(pid as int, (cur0[pid as int] - d) as usize));
            let pe = choose|pe: int|
                0 <= pe < map@.len() && (#[trigger] map@[pe]).0@ == cur@ && map@[pe].2 + 1
                    == map@[e0].2;
            assert(map_has_key(map@, cur@));
            assert(key_index(map@, cur@) == pe);
            assert(solution@[0] == (pid, d));
            assert(solution@.drop_first() =~= sol0);
            assert(conf_apply(cur@, pid as int, d as int) == cur0);
            assert(plays_legal(b, cur@, solution@));
            assert(plays_slide(b, cur@, solution@));
            assert(play(cur@, solution@) == positions@);
        }
        mv = match map_find(map, &cur) {
            Some(m) => m,
            None => {
                // unreachable: the recorded parent is itself recorded
                proof {
                    assert(false);
                }
                (0, 0)
            },
        };
        proof {
            let e1 = key_index(map@, cur@);
            assert(entry_ok(b, map@, init, e1));
        }
    }
    proof {
        let e = key_index(map@, cur@);
        assert(entry_ok(b, map@, init, e));
        assert(cur@ == init);
    }
    solution
}

/// When every recorded configuration has been expanded, every slide
/// sequence from the initial configuration ends at a recorded configuration:
/// the map covers the whole reachable set.
pub proof fn lemma_all_paths_recorded(
    b: Board,
    map: Seq<SearchEntry>,
    init: Seq<usize>,
    moves: Seq<(usize, i32)>,
)
    requires
        map.len() >= 1,
        map[0].0@ == init,
        forall|e: int| 0 <= e < map.len() ==> expanded(b, map, e),
        plays_slide(b, init, moves),
    ensures
        exists|e2: int| 0 <= e2 < map.len() && (#[trigger] map[e2]).0@ == play(init, moves),
    decreases moves.len(),
{
    if moves.len() == 0 {
        assert(map[0].0@ == play(init, moves));
    } else {
        let prefix = moves.drop_last();
        let mv = moves.last();
        assert(moves =~= prefix.push(mv));
        lemma_play_snoc(b, init, prefix, mv);
        lemma_all_paths_recorded(b, map, init, prefix);
        let e1 = choose|e1: int|
            0 <= e1 < map.len() && (#[trigger] map[e1]).0@ == play(init, prefix);
        assert(expanded(b, map, e1));
        assert(b.slide_at(map[e1].0@, mv.0 as int, mv.1 as int));
        let e2 = choose|e2: int|
            0 <= e2 < map.len() && (#[trigger] map[e2]).0@ == conf_apply(
                map[e1].0@,
                mv.0 as int,
                mv.1 as int,
            ) && map[e2].2 <= map[e1].2 + 1;
        assert(map[e2].0@ == play(init, moves));
    }
}

/// Boards of the same skeleton admit the same slide sequences from any
/// configuration, and agree on the goal at the end.
pub proof fn lemma_plays_agree(b1: Board, b2: Board, c: Seq<usize>, mvs: Seq<(usize, i32)>)
    requires
        Board::same_skeleton(b1, b2),
    ensures
        plays_slide(b1, c, mvs) == plays_slide(b2, c, mvs),
        b1.primary_piece_id < b1.pieces@.len() ==> b1.spec_solved_config(play(c, mvs))
            == b2.spec_solved_config(play(c, mvs)),
    decreases mvs.len(),
{
    crate::board::lemma_slide_at_agree(b1, b2, c);
    if mvs.len() == 0 {
        if b1.primary_piece_id < b1.pieces@.len() {
            assert(b1.spec_solved_config(c) == b2.spec_solved_config(c));
        }
    } else {
        lemma_plays_agree(
            b1,
            b2,
            conf_apply(c, mvs[0].0 as int, mvs[0].1 as int),
            mvs.drop_first(),
        );
    }
}

/// Two boards that agree field for field — grid, walls, primary-piece
/// index, and every piece's letter, cross-coordinate, length, orientation
/// and anchor — have the same solvability and the same minimal move count,
/// whatever order their moves are enumerated in: any two solutions, each
/// minimal for its own board, are equally long.
pub proof fn lemma_search_outcome_determined(
    b1: Board,
    b2: Board,
    s1: Seq<(usize, i32)>,
    s2: Seq<(usize, i32)>,
)
    requires
        Board::same_skeleton(b1, b2),
        b1.wf(),
        b1.spec_config() == b2.spec_config(),
        plays_slide(b1, b1.spec_config(), s1),
        b1.spec_solved_config(play(b1.spec_config(), s1)),
        forall|mvs: Seq<(usize, i32)>|
            #[trigger] plays_slide(b1, b1.spec_config(), mvs) && b1.spec_solved_config(
                play(b1.spec_config(), mvs),
            ) ==> mvs.len() >= s1.len(),
        plays_slide(b2, b2.spec_config(), s2),
        b2.spec_solved_config(play(b2.spec_config(), s2)),
        forall|mvs: Seq<(usize, i32)>|
            #[trigger] plays_slide(b2, b2.spec_config(), mvs) && b2.spec_solved_config(
                play(b2.spec_config(), mvs),
            ) ==> mvs.len() >= s2.len(),
    ensures
        s1.len() == s2.len(),
{
    let c = b1.spec_config();
    lemma_plays_agree(b1, b2, c, s1);
    lemma_plays_agree(b1, b2, c, s2);
    assert(plays_slide(b1, c, s2) && b1.spec_solved_config(play(c, s2)));
    assert(plays_slide(b2, c, s1) && b2.spec_solved_config(play(c, s1)));
}

/// Two minimal solutions of the same puzzle have the same move count: any
/// two slide sequences that reach a solved configuration and are each no
/// longer than every such sequence are equally long, so the count returned
/// by the search does not depend on the order in which moves are enumerated.
pub proof fn lemma_minimal_count_unique(
    b: Board,
    c: Seq<usize>,
    s1: Seq<(usize, i32)>,
    s2: Seq<(usize, i32)>,
)
    requires
        plays_slide(b, c, s1),
        b.spec_solved_config(play(c, s1)),
        forall|mvs: Seq<(usize, i32)>|
            #[trigger] plays_slide(b, c, mvs) && b.spec_solved_config(play(c, mvs)) ==> mvs.len()
                >= s1.len(),
        plays_slide(b, c, s2),
        b.spec_solved_config(play(c, s2)),
        forall|mvs: Seq<(usize, i32)>|
            #[trigger] plays_slide(b, c, mvs) && b.spec_solved_config(play(c, mvs)) ==> mvs.len()
                >= s2.len(),
    ensures
        s1.len() == s2.len(),
{
}

/// Breadth-first search over the configuration graph. On success the board
/// is restored to its starting configuration and the returned moves, played
/// in order from that configuration, are clear-path slides that end in a
/// solved configuration, and no slide sequence from the starting
/// configuration to any solved configuration is shorter; a board that is
/// already solved yields an empty move list. On failure the move list is
/// empty and the board was not solved at entry.
pub fn bfs(board: &mut Board) -> (r: (bool, Vec<(usize, i32)>))
    requires
        old(board).wf(),
    ensures
        Board::same_skeleton(*final(board), *old(board)),
        r.0 ==> final(board).spec_config() == old(board).spec_config(),
        r.0 ==> plays_legal(*old(board), old(board).spec_config(), r.1@) && old(
            board,
        ).spec_solved_config(play(old(board).spec_config(), r.1@)),
        r.0 ==> plays_slide(*old(board), old(board).spec_config(), r.1@),
        r.0 ==> forall|mvs: Seq<(usize, i32)>|
            #[trigger] plays_slide(*old(board), old(board).spec_config(), mvs) && old(
                board,
            ).spec_solved_config(play(old(board).spec_config(), mvs)) ==> mvs.len() >= r.1@.len(),
        old(board).spec_solved() ==> r.0 && r.1@.len() == 0,
        !r.0 ==> r.1@.len() == 0 && !old(board).spec_solved(),
        !r.0 ==> forall|mvs: Seq<(usize, i32)>|
            #[trigger] plays_slide(*old(board), old(board).spec_config(), mvs)
                ==> !old(board).spec_solved_config(play(old(board).spec_config(), mvs)),
{
    let ghost b0 = *old(board);
    let init_positions = board.positions();
    let ghost init = init_positions@;
    let ghost n_pieces = b0.pieces@.len() as int;
    let ghost base = b0.width as int + 1;
    let mut map: Vec<SearchEntry> = Vec::new();
    let mut queue: Vec<(Vec<usize>, usize)> = Vec::new();
    let first_key = copy_positions(&init_positions);
    let first_queued = copy_positions(&init_positions);
    map.push((first_key, (0, 0), 0));
    queue.push((first_queued, 0));
    let mut head: usize = 0;
    let ghost mut enc_set: Set<int> = Set::empty().insert(conf_encode(init, base));
    proof {
        lemma_config_entries_bounded(b0, init);
        lemma_conf_encode_bounds(init, base);
        assert(map@[0].0@ == init);
        assert(entry_ok(b0, map@, init, 0));
        assert(Set::empty().insert(conf_encode(init, base)).len() == 1) by {
            assert(!Set::<int>::empty().contains(conf_encode(init, base)));
        }
    }
    while head < queue.len()
        invariant
            b0 == *old(board),
            init_positions@ == init,
            init == b0.spec_config(),
            Board::same_skeleton(*board, b0),
            b0.wf(),
            b0.wf_config(init),
            init.len() == b0.pieces@.len(),
            n_pieces == b0.pieces@.len() as int,
            base == b0.width as int + 1,
            head <= queue.len(),
            map@.len() >= 1,
            map@[0].0@ == init && map@[0].1 == (0usize, 0i32) && map@[0].2 == 0,
            map_ok(b0, map@, init),
            keys_unique(map@),
            queue@.len() == map@.len(),
            forall|e: int|
                0 <= e < map@.len() ==> (#[trigger] queue@[e]).0@ == map@[e].0@ && queue@[e].1
                    == map@[e].2,
            forall|e1: int, e2: int|
                0 <= e1 <= e2 < map@.len() ==> (#[trigger] map@[e1]).2 <= (#[trigger] map@[e2]).2,
            head < map@.len() ==> map@[map@.len() - 1].2 <= map@[head as int].2 + 1,
            forall|e: int| 0 <= e < head ==> !b0.spec_solved_config((#[trigger] map@[e]).0@),
            forall|e: int| 0 <= e < head ==> expanded(b0, map@, e),
            enc_set.finite(),
            enc_set.len() == map@.len(),
            forall|e: int|
                0 <= e < map@.len() ==> enc_set.contains(
                    conf_encode((#[trigger] map@[e]).0@, base),
                ),
            forall|z: int|
                #[trigger] enc_set.contains(z) ==> exists|e: int|
                    0 <= e < map@.len() && conf_encode((#[trigger] map@[e]).0@, base) == z,
            forall|z: int| #[trigger] enc_set.contains(z) ==> 0 <= z < pow(base, n_pieces as nat),
        decreases pow(base, n_pieces as nat) - enc_set.len(), queue@.len() - head,
    {
        proof {
            lemma_int_range(0, pow(base, n_pieces as nat));
            vstd::set_lib::lemma_len_subset(enc_set, set_int_range(0, pow(base, n_pieces as nat)));
        }
        let positions = copy_positions(&queue[head].0);
        let pdepth = queue[head].1;
        let ghost c = positions@;
        proof {
            assert(map@[head as int].0@ == c && map@[head as int].2 == pdepth);
            assert(entry_ok(b0, map@, init, head as int));
            assert(b0.wf_config(c));
        }
        head += 1;
        let ghost board_at_top = *board;
        board.update_positions(&positions);
        proof {
            crate::board::lemma_skeleton_trans(*board, board_at_top, b0);
            crate::board::lemma_skeleton_placed(*board, b0, c);
            assert(board.wf());
        }
        if board.solved() {
            proof {
                assert(b0.spec_solved_config(c));
                if b0.spec_solved_config(init) {
                    if head > 1 {
                        assert(!b0.spec_solved_config(map@[0].0@));
                        assert(false);
                    }
                    assert(c == init);
                }
            }
            let ghost board_mid = *board;
            board.update_positions(&init_positions);
            proof {
                crate::board::lemma_skeleton_trans(*board, board_mid, b0);
            }
            let solution = restore_solution(&positions, &map, Ghost(b0), Ghost(init));
            proof {
                crate::board::lemma_skeleton_placed(*board, b0, init);
                if b0.spec_solved_config(init) {
                    assert(key_index(map@, init) == 0);
                    assert(key_depth(map@, init) == 0);
                }
                let h = head as int - 1;
                assert(map@[h].0@ == c && map@[h].2 == pdepth);
                assert(key_index(map@, c) == h);
                assert(solution@.len() == pdepth);
                assert forall|mvs: Seq<(usize, i32)>|
                    #[trigger] plays_slide(b0, init, mvs) && b0.spec_solved_config(
                        play(init, mvs),
                    ) implies mvs.len() >= solution@.len() by {
                    if mvs.len() < solution@.len() {
                        assert forall|e: int|
                            0 <= e < map@.len() && (#[trigger] map@[e]).2 < map@[h].2
                                implies expanded(b0, map@, e) by {
                            if e >= h {
                                assert(map@[h].2 <= map@[e].2);
                                assert(false);
                            }
                        }
                        lemma_short_paths_recorded(b0, map@, init, h, mvs);
                        let e2 = choose|e2: int|
                            0 <= e2 < map@.len() && (#[trigger] map@[e2]).0@ == play(init, mvs)
                                && map@[e2].2 <= mvs.len();
                        if e2 >= h {
                            assert(map@[h].2 <= map@[e2].2);
                            assert(false);
                        }
                        assert(!b0.spec_solved_config(map@[e2].0@));
                        assert(false);
                    }
                }
            }
            return (true, solution);
        }
        proof {
            assert(!b0.spec_solved_config(c));
        }
        let moves = board.movements();
        proof {
            crate::board::lemma_skeleton_placed(*board, b0, c);
            crate::board::lemma_slide_transfer(board, &b0, c);
            assert forall|k: int| 0 <= k < moves@.len() implies b0.spec_move_ok(
                c,
                (#[trigger] moves@[k]).0 as int,
                moves@[k].1 as int,
            ) by {}
            assert forall|k: int| 0 <= k < moves@.len() implies b0.slide_at(
                c,
                (#[trigger] moves@[k]).0 as int,
                moves@[k].1 as int,
            ) by {
                assert(board.spec_slide_ok(moves@[k].0 as int, moves@[k].1 as int));
            }
            assert forall|i2: int, d2: int| #[trigger] b0.slide_at(c, i2, d2)
                implies moves@.contains((i2 as usize, d2 as i32)) by {
                assert(board.spec_slide_ok(i2, d2));
            }
            assert forall|e: int| 0 <= e < map@.len() implies (#[trigger] map@[e]).2 <= pdepth
                + 1 by {
                assert(map@[e].2 <= map@[map@.len() - 1].2);
            }
        }
        let n_moves = moves.len();
        let mut mi: usize = 0;
        let ghost enc_len_at_top = enc_set.len();
        let ghost queue_len_at_top = queue@.len();
        while mi < n_moves
            invariant
                enc_len_at_top <= enc_set.len(),
                queue@.len() + enc_len_at_top == queue_len_at_top + enc_set.len(),
                Board::same_skeleton(*board, b0),
                b0.wf(),
                b0.wf_config(init),
                init.len() == b0.pieces@.len(),
                n_pieces == b0.pieces@.len() as int,
                base == b0.width as int + 1,
                mi <= n_moves,
                n_moves == moves@.len(),
                1 <= head,
                head <= map@.len(),
                map@.len() >= 1,
                map@[0].0@ == init && map@[0].1 == (0usize, 0i32) && map@[0].2 == 0,
                map_ok(b0, map@, init),
                keys_unique(map@),
                queue@.len() == map@.len(),
                forall|e: int|
                    0 <= e < map@.len() ==> (#[trigger] queue@[e]).0@ == map@[e].0@ && queue@[e].1
                        == map@[e].2,
                forall|e1: int, e2: int|
                    0 <= e1 <= e2 < map@.len() ==> (#[trigger] map@[e1]).2 <= (
                    #[trigger] map@[e2]).2,
                forall|e: int| 0 <= e < map@.len() ==> (#[trigger] map@[e]).2 <= pdepth + 1,
                map@[head as int - 1].0@ == c && map@[head as int - 1].2 == pdepth,
                forall|e: int| 0 <= e < head ==> !b0.spec_solved_config((#[trigger] map@[e]).0@),
                forall|e: int| 0 <= e < head - 1 ==> expanded(b0, map@, e),
                enc_set.finite(),
                enc_set.len() == map@.len(),
                forall|e: int|
                    0 <= e < map@.len() ==> enc_set.contains(
                        conf_encode((#[trigger] map@[e]).0@, base),
                    ),
                forall|z: int|
                    #[trigger] enc_set.contains(z) ==> exists|e: int|
                        0 <= e < map@.len() && conf_encode((#[trigger] map@[e]).0@, base) == z,
                forall|z: int|
                    #[trigger] enc_set.contains(z) ==> 0 <= z < pow(base, n_pieces as nat),
                b0.wf_config(c),
                c == positions@,
                c.len() == b0.pieces@.len(),
                forall|k: int|
                    0 <= k < moves@.len() ==> b0.spec_move_ok(
                        c,
                        (#[trigger] moves@[k]).0 as int,
                        moves@[k].1 as int,
                    ),
                forall|k: int|
                    0 <= k < moves@.len() ==> b0.slide_at(
                        c,
                        (#[trigger] moves@[k]).0 as int,
                        moves@[k].1 as int,
                    ),
                forall|k: int|
                    0 <= k < mi ==> exists|e2: int|
                        0 <= e2 < map@.len() && (#[trigger] map@[e2]).0@ == conf_apply(
                            c,
                            (#[trigger] moves@[k]).0 as int,
                            moves@[k].1 as int,
                        ) && map@[e2].2 <= pdepth + 1,
            decreases n_moves - mi,
        {
            let (piece_id, d) = moves[mi];
            proof {
                assert(b0.spec_move_ok(c, piece_id as int, d as int));
                assert(b0.slide_at(c, piece_id as int, d as int));
                crate::board::lemma_placed_id(&b0);
                lemma_config_entries_bounded(b0, c);
                assert(b0.placed(c)[piece_id as int].p == c[piece_id as int]);
            }
            let mut next_positions = copy_positions(&positions);
            if d > 0 {
                next_positions[piece_id] += d as usize;
            } else {
                next_positions[piece_id] -= (-d) as usize;
            }
            let ghost next = next_positions@;
            proof {
                assert(next =~= conf_apply(c, piece_id as int, d as int));
                crate::board::lemma_move_preserves_wf(&b0, c, piece_id as int, d as int);
                lemma_config_entries_bounded(b0, next);
                lemma_conf_encode_bounds(next, base);
            }
            let found = map_find(&map, &next_positions);
            if found.is_none() {
                let ghost map0 = map@;
                let ghost queue0 = queue@;
                let stored_key = copy_positions(&next_positions);
                let ml = map.len();
                proof {
                    assert(entry_ok(b0, map@, init, head as int - 1));
                    assert((pdepth as int) < ml as int);
                }
                map.push((stored_key, (piece_id, d), pdepth + 1));
                queue.push((next_positions, pdepth + 1));
                proof {
                    let ghost ne = map@.len() - 1;
                    assert(map@[ne].0@ == next);
                    assert forall|e1: int, e2: int|
                        0 <= e1 < map@.len() && 0 <= e2 < map@.len() && (#[trigger] map@[e1]).0@
                            == (#[trigger] map@[e2]).0@ implies e1 == e2 by {
                        if e1 < ne && e2 == ne {
                            assert(map_has_key(map0, next));
                            assert(false);
                        }
                        if e2 < ne && e1 == ne {
                            assert(map_has_key(map0, next));
                            assert(false);
                        }
                    }
                    assert forall|e: int| 0 <= e < map@.len() implies #[trigger] entry_ok(
                        b0,
                        map@,
                        init,
                        e,
                    ) by {
                        if e < ne {
                            assert(entry_ok(b0, map0, init, e));
                            assert(map@[e] == map0[e]);
                            if map0[e].1.1 != 0 {
                                let parent = map0[e].0@.update(
                                    map0[e].1.0 as int,
                                    (map0[e].0@[map0[e].1.0 as int] - map0[e].1.1 as int) as usize,
                                );
                                let pe = choose|pe: int|
                                    0 <= pe < map0.len() && (#[trigger] map0[pe]).0@ == parent
                                        && map0[pe].2 + 1 == map0[e].2;
                                assert(map@[pe].0@ == parent && map@[pe].2 + 1 == map@[e].2);
                            }
                        } else {
                            assert(next.update(
                                piece_id as int,
                                (next[piece_id as int] - d as int) as usize,
                            ) =~= c);
                            let pe = head as int - 1;
                            assert(map@[pe].0@ == c && map@[pe].2 + 1 == pdepth + 1);
                        }
                    }
                    assert forall|e: int|
                        0 <= e < map@.len() implies (#[trigger] queue@[e]).0@ == map@[e].0@
                        && queue@[e].1 == map@[e].2 by {
                        if e < ne {
                            assert(queue@[e] == queue0[e]);
                            assert(map@[e] == map0[e]);
                        }
                    }
                    assert forall|e1: int, e2: int|
                        0 <= e1 <= e2 < map@.len() implies (#[trigger] map@[e1]).2 <= (
                    #[trigger] map@[e2]).2 by {
                        if e2 == ne && e1 < ne {
                            assert(map0[e1].2 <= pdepth + 1);
                        }
                    }
                    assert forall|e: int| 0 <= e < head - 1 implies expanded(b0, map@, e) by {
                        assert(expanded(b0, map0, e));
                        assert(map@[e] == map0[e]);
                        assert forall|i2: int, d2: int| #[trigger] b0.slide_at(map@[e].0@, i2, d2)
                            implies exists|e2: int|
                            0 <= e2 < map@.len() && (#[trigger] map@[e2]).0@ == conf_apply(
                                map@[e].0@,
                                i2,
                                d2,
                            ) && map@[e2].2 <= map@[e].2 + 1 by {
                            let w2 = choose|e2: int|
                                0 <= e2 < map0.len() && (#[trigger] map0[e2]).0@ == conf_apply(
                                    map0[e].0@,
                                    i2,
                                    d2,
                                ) && map0[e2].2 <= map0[e].2 + 1;
                            assert(map@[w2].0@ == conf_apply(map@[e].0@, i2, d2) && map@[w2].2
                                <= map@[e].2 + 1);
                        }
                    }
                    assert forall|k: int| 0 <= k < mi implies exists|e2: int|
                        0 <= e2 < map@.len() && (#[trigger] map@[e2]).0@ == conf_apply(
                            c,
                            (#[trigger] moves@[k]).0 as int,
                            moves@[k].1 as int,
                        ) && map@[e2].2 <= pdepth + 1 by {
                        let w2 = choose|e2: int|
                            0 <= e2 < map0.len() && (#[trigger] map0[e2]).0@ == conf_apply(
                                c,
                                moves@[k].0 as int,
                                moves@[k].1 as int,
                            ) && map0[e2].2 <= pdepth + 1;
                        assert(map@[w2].0@ == conf_apply(c, moves@[k].0 as int, moves@[k].1 as int)
                            && map@[w2].2 <= pdepth + 1);
                    }
                    let nz = conf_encode(next, base);
                    if enc_set.contains(nz) {
                        let we = choose|e: int|
                            0 <= e < map0.len() && conf_encode((#[trigger] map0[e]).0@, base) == nz;
                        assert(entry_ok(b0, map0, init, we));
                        lemma_config_entries_bounded(b0, map0[we].0@);
                        lemma_conf_encode_inj(map0[we].0@, next, base);
                        assert(map_has_key(map0, next));
                        assert(false);
                    }
                    enc_set = enc_set.insert(nz);
                    assert forall|e: int| 0 <= e < map@.len() implies enc_set.contains(
                        conf_encode((#[trigger] map@[e]).0@, base),
                    ) by {
                        if e < ne {
                            assert(map@[e].0@ == map0[e].0@);
                        }
                    }
                    assert forall|z: int| #[trigger] enc_set.contains(z) implies exists|e: int|
                        0 <= e < map@.len() && conf_encode((#[trigger] map@[e]).0@, base) == z by {
                        if z == nz {
                            assert(conf_encode(map@[ne].0@, base) == z);
                        } else {
                            let we = choose|e: int|
                                0 <= e < map0.len() && conf_encode((#[trigger] map0[e]).0@, base)
                                    == z;
                            assert(conf_encode(map@[we].0@, base) == z);
                        }
                    }
                }
            }
            proof {
                assert(exists|e2: int|
                    0 <= e2 < map@.len() && (#[trigger] map@[e2]).0@ == conf_apply(
                        c,
                        piece_id as int,
                        d as int,
                    ) && map@[e2].2 <= pdepth + 1);
            }
            mi += 1;
        }
        proof {
            assert forall|e: int| 0 <= e < head implies expanded(b0, map@, e) by {
                if e == head - 1 {
                    assert forall|i2: int, d2: int| #[trigger] b0.slide_at(map@[e].0@, i2, d2)
                        implies exists|e2: int|
                        0 <= e2 < map@.len() && (#[trigger] map@[e2]).0@ == conf_apply(
                            map@[e].0@,
                            i2,
                            d2,
                        ) && map@[e2].2 <= map@[e].2 + 1 by {
                        assert(map@[e].0@ == c);
                        assert(moves@.contains((i2 as usize, d2 as i32)));
                        let k = choose|k: int|
                            0 <= k < moves@.len() && moves@[k] == (i2 as usize, d2 as i32);
                        assert((moves@[k].0 as int) == i2);
                        assert((moves@[k].1 as int) == d2);
                    }
                }
            }
            if head < map@.len() {
                assert(map@[head as int].2 >= pdepth);
            }
            lemma_int_range(0, pow(base, n_pieces as nat));
            vstd::set_lib::lemma_len_subset(enc_set, set_int_range(0, pow(base, n_pieces as nat)));
        }
    }
    proof {
        assert forall|mvs: Seq<(usize, i32)>| #[trigger] plays_slide(b0, init, mvs)
            implies !b0.spec_solved_config(play(init, mvs)) by {
            lemma_all_paths_recorded(b0, map@, init, mvs);
            let e2 = choose|e2: int|
                0 <= e2 < map@.len() && (#[trigger] map@[e2]).0@ == play(init, mvs);
            assert(!b0.spec_solved_config(map@[e2].0@));
        }
    }
    (false, Vec::new())
}

} // verus!
