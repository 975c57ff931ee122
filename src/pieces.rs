use vstd::prelude::*;

use itertools::Itertools;

use crate::board::{
    at, file_idx, holds_color, occupied, on_board, opponent, pieces_wf, rank_idx, Board, Color,
    Figure, Piece, Square,
};

verus! {

/// A step in files and ranks.
pub type Offset = (i8, i8);

/// Rank step of a pawn of color `c`.
pub open spec fn forward(c: Color) -> int {
    match c {
        Color::White => 1,
        Color::Black => -1,
    }
}

/// Rank index on which the pawns of color `c` start.
pub open spec fn pawn_home(c: Color) -> int {
    match c {
        Color::White => 1,
        Color::Black => 6,
    }
}

pub open spec fn abs(x: int) -> int {
    if x < 0 {
        -x
    } else {
        x
    }
}

/// The eight jumps of a knight.
pub open spec fn knight_offset(dx: int, dy: int) -> bool {
    abs(dx) <= 2 && abs(dy) <= 2 && abs(dx) + abs(dy) == 3
}

/// The eight unit steps: the king's moves, and the queen's directions.
pub open spec fn king_offset(dx: int, dy: int) -> bool {
    abs(dx) <= 1 && abs(dy) <= 1 && !(dx == 0 && dy == 0)
}

/// The directions along which a sliding figure moves.
pub open spec fn slide_dir(fig: Figure, dx: int, dy: int) -> bool {
    match fig {
        Figure::Rook => king_offset(dx, dy) && (dx == 0 || dy == 0),
        Figure::Bishop => king_offset(dx, dy) && dx != 0 && dy != 0,
        Figure::Queen => king_offset(dx, dy),
        _ => false,
    }
}

/// Walking from `(f, r)` in steps of `(dx, dy)`, at most `fuel` of them, a piece
/// of color `c` gets to `(tf, tr)`: every square before it is empty, and it
/// does not hold a piece of color `c`.
pub open spec fn ray_reaches(
    ps: Seq<Piece>,
    c: Color,
    f: int,
    r: int,
    dx: int,
    dy: int,
    tf: int,
    tr: int,
    fuel: nat,
) -> bool
    decreases fuel,
{
    if fuel == 0 {
        false
    } else {
        let nf = f + dx;
        let nr = r + dy;
        if !on_board(nf, nr) {
            false
        } else if nf == tf && nr == tr {
            !holds_color(ps, c, nf, nr)
        } else if occupied(ps, nf, nr) {
            false
        } else {
            ray_reaches(ps, c, nf, nr, dx, dy, tf, tr, (fuel - 1) as nat)
        }
    }
}

/// A pawn's squares: one step forward onto an empty square, two from its
/// starting rank over empty squares, and a forward diagonal holding an enemy.
pub open spec fn pawn_reaches(ps: Seq<Piece>, p: Piece, tf: int, tr: int) -> bool {
    let f = file_idx(p.square);
    let r = rank_idx(p.square);
    let d = forward(p.color);
    &&& on_board(tf, tr)
    &&& {
        ||| (tf == f && tr == r + d && !occupied(ps, tf, tr))
        ||| (tf == f && tr == r + 2 * d && r == pawn_home(p.color) && !occupied(ps, f, r + d)
            && !occupied(ps, tf, tr))
        ||| ((tf == f + 1 || tf == f - 1) && tr == r + d && holds_color(
            ps,
            opponent(p.color),
            tf,
            tr,
        ))
    }
}

/// The piece `p` can go to `(tf, tr)` by its geometry on the placement `ps`,
/// whatever that does to its own king.
pub open spec fn reaches(ps: Seq<Piece>, p: Piece, tf: int, tr: int) -> bool {
    let f = file_idx(p.square);
    let r = rank_idx(p.square);
    match p.figure {
        Figure::Pawn => pawn_reaches(ps, p, tf, tr),
        Figure::Knight => on_board(tf, tr) && knight_offset(tf - f, tr - r) && !holds_color(
            ps,
            p.color,
            tf,
            tr,
        ),
        Figure::King => on_board(tf, tr) && king_offset(tf - f, tr - r) && !holds_color(
            ps,
            p.color,
            tf,
            tr,
        ),
        _ => slider_reaches(ps, p, p.figure, tf, tr),
    }
}

/// Sliding along one of the directions of `fig`, `p` gets to `(tf, tr)`.
pub open spec fn slider_reaches(ps: Seq<Piece>, p: Piece, fig: Figure, tf: int, tr: int) -> bool {
    exists|dx: int, dy: int|
        slide_dir(fig, dx, dy) && #[trigger] ray_reaches(
            ps,
            p.color,
            file_idx(p.square),
            rank_idx(p.square),
            dx,
            dy,
            tf,
            tr,
            7,
        )
}

/// `t` is a candidate square of `p`.
pub open spec fn candidate(ps: Seq<Piece>, p: Piece, t: Square) -> bool {
    t.wf() && reaches(ps, p, file_idx(t), rank_idx(t))
}

/// `t` is a candidate square of `p` that holds a piece of the other color.
pub open spec fn attacked(ps: Seq<Piece>, p: Piece, t: Square) -> bool {
    candidate(ps, p, t) && holds_color(ps, opponent(p.color), file_idx(t), rank_idx(t))
}

/// The ray from `p` in direction `d` gets to `t`.
pub open spec fn dir_ray(ps: Seq<Piece>, p: Piece, d: (i8, i8), t: Square) -> bool {
    ray_reaches(
        ps,
        p.color,
        file_idx(p.square),
        rank_idx(p.square),
        d.0 as int,
        d.1 as int,
        file_idx(t),
        rank_idx(t),
        7,
    )
}

/// One step from `p` by `d` lands on `t`, which holds no piece of `p`'s color.
pub open spec fn dir_step(ps: Seq<Piece>, p: Piece, d: (i8, i8), t: Square) -> bool {
    at(t, file_idx(p.square) + d.0, rank_idx(p.square) + d.1) && !holds_color(
        ps,
        p.color,
        file_idx(t),
        rank_idx(t),
    )
}

/// Two squares at the same indices are the same square.
pub proof fn lemma_square_eq(a: Square, b: Square)
    requires
        at(a, file_idx(b), rank_idx(b)),
    ensures
        a == b,
{
    assert(a.pos.0 == b.pos.0);
    assert(a.pos.1 == b.pos.1);
}

/// Relies on itertools' `cartesian_product`: it yields each pair of an item of
/// the first iterator with an item of the second, once.
#[verifier::external_body]
fn offset_grid(lo: i8, hi: i8) -> (r: Vec<Offset>)
    ensures
        forall|d: Offset| r@.contains(d) <==> (lo <= d.0 <= hi && lo <= d.1 <= hi),
        r@.no_duplicates(),
{
    (lo..=hi).cartesian_product(lo..=hi).collect()
}

/// Whether `v` holds `s`.
fn contains_square(v: &Vec<Square>, s: Square) -> (r: bool)
    ensures
        r == v@.contains(s),
{
    let mut i: usize = 0;
    while i < v.len()
        invariant
            i <= v@.len(),
            forall|j: int| 0 <= j < i ==> v@[j] != s,
        decreases v@.len() - i,
    {
        if v[i] == s {
            return true;
        }
        i += 1;
    }
    false
}

/// Adds `s` to `v` unless it is there already.
fn insert_square(v: &mut Vec<Square>, s: Square)
    requires
        old(v)@.no_duplicates(),
    ensures
        final(v)@.no_duplicates(),
        forall|t: Square| #[trigger] final(v)@.contains(t) <==> old(v)@.contains(t) || t == s,
{
    if !contains_square(v, s) {
        v.push(s);
        proof {
            assert forall|t: Square| #[trigger] v@.contains(t) <==> old(v)@.contains(t) || t == s by {
                if v@.contains(t) {
                    let k = choose|k: int| 0 <= k < v@.len() && v@[k] == t;
                    if k < old(v)@.len() {
                        assert(old(v)@[k] == t);
                    }
                }
                if old(v)@.contains(t) {
                    let k = choose|k: int| 0 <= k < old(v)@.len() && old(v)@[k] == t;
                    assert(v@[k] == t);
                }
                if t == s {
                    assert(v@[v@.len() - 1] == t);
                }
            }
        }
    }
}

impl Piece {
    /// Adds the squares that the ray from this piece in direction `d` gets to.
    fn walk_ray(&self, board: &Board, d: (i8, i8), res: &mut Vec<Square>)
        requires
            pieces_wf(board.pieces@),
            self.square.wf(),
            -1 <= d.0 <= 1,
            -1 <= d.1 <= 1,
            old(res)@.no_duplicates(),
        ensures
            final(res)@.no_duplicates(),
            forall|t: Square|
                #[trigger] final(res)@.contains(t) <==> old(res)@.contains(t) || (t.wf()
                    && dir_ray(board.pieces@, *self, d, t)),
    {
        let ghost ps = board.pieces@;
        let ghost f0 = file_idx(self.square);
        let ghost r0 = rank_idx(self.square);
        let mut cur = self.square;
        let mut fuel: u8 = 7;
        while fuel > 0
            invariant
                pieces_wf(ps),
                ps == board.pieces@,
                cur.wf(),
                fuel <= 7,
                -1 <= d.0 <= 1,
                -1 <= d.1 <= 1,
                res@.no_duplicates(),
                forall|t: Square| #[trigger] old(res)@.contains(t) ==> res@.contains(t),
                forall|t: Square|
                    #[trigger] res@.contains(t) ==> old(res)@.contains(t) || (t.wf() && dir_ray(
                        ps,
                        *self,
                        d,
                        t,
                    )),
                forall|t: Square|
                    t.wf() && #[trigger] dir_ray(ps, *self, d, t) ==> res@.contains(t) || ray_reaches(
                        ps,
                        self.color,
                        file_idx(cur),
                        rank_idx(cur),
                        d.0 as int,
                        d.1 as int,
                        file_idx(t),
                        rank_idx(t),
                        fuel as nat,
                    ),
                forall|t: Square| #[trigger] res@.contains(t) ==> old(res)@.contains(t) || t.wf(),
                forall|t: Square|
                    #![trigger dir_ray(ps, *self, d, t)]
                    ray_reaches(
                        ps,
                        self.color,
                        file_idx(cur),
                        rank_idx(cur),
                        d.0 as int,
                        d.1 as int,
                        file_idx(t),
                        rank_idx(t),
                        fuel as nat,
                    ) ==> dir_ray(ps, *self, d, t),
                f0 == file_idx(self.square),
                r0 == rank_idx(self.square),
            decreases fuel,
        {
            let next_opt = cur.move_by(d);
            if next_opt.is_none() {
                fuel = 0;
            } else {
                let next = next_opt.unwrap();
                let ghost nf = file_idx(next);
                let ghost nr = rank_idx(next);
                let ghost cf = file_idx(cur);
                let ghost cr = rank_idx(cur);
                let ghost fl = fuel as nat;
                match board.check_square_for_piece(&next) {
                    Some(q) => {
                        if q.color != self.color {
                            insert_square(res, next);
                        }
                        proof {
                            assert forall|t: Square|
                                t.wf() && #[trigger] dir_ray(ps, *self, d, t) implies res@.contains(t) by {
                                let tf = file_idx(t);
                                let tr = rank_idx(t);
                                if at(t, nf, nr) {
                                    lemma_square_eq(t, next);
                                    assert(ray_reaches(ps, self.color, cf, cr, d.0 as int, d.1 as int, tf, tr, fl)
                                        == (q.color != self.color));
                                } else {
                                    assert(!ray_reaches(ps, self.color, cf, cr, d.0 as int, d.1 as int, tf, tr, fl));
                                }
                            }
                            assert(ray_reaches(ps, self.color, cf, cr, d.0 as int, d.1 as int, nf, nr, fl)
                                == (q.color != self.color));
                        }
                        fuel = 0;
                    },
                    None => {
                        insert_square(res, next);
                        proof {
                            assert(ray_reaches(ps, self.color, cf, cr, d.0 as int, d.1 as int, nf, nr, fl));
                            assert forall|t: Square|
                                t.wf() && #[trigger] dir_ray(ps, *self, d, t) implies res@.contains(t) || ray_reaches(
                                    ps,
                                    self.color,
                                    nf,
                                    nr,
                                    d.0 as int,
                                    d.1 as int,
                                    file_idx(t),
                                    rank_idx(t),
                                    (fl - 1) as nat,
                                ) by {
                                let tf = file_idx(t);
                                let tr = rank_idx(t);
                                if at(t, nf, nr) {
                                    lemma_square_eq(t, next);
                                } else {
                                    assert(ray_reaches(ps, self.color, cf, cr, d.0 as int, d.1 as int, tf, tr, fl)
                                        == ray_reaches(ps, self.color, nf, nr, d.0 as int, d.1 as int, tf, tr, (fl - 1) as nat));
                                }
                            }
                            assert forall|t: Square|
                                #![trigger dir_ray(ps, *self, d, t)]
                                ray_reaches(
                                    ps,
                                    self.color,
                                    nf,
                                    nr,
                                    d.0 as int,
                                    d.1 as int,
                                    file_idx(t),
                                    rank_idx(t),
                                    (fl - 1) as nat,
                                ) implies dir_ray(ps, *self, d, t) by {
                                let tf = file_idx(t);
                                let tr = rank_idx(t);
                                assert(ray_reaches(ps, self.color, cf, cr, d.0 as int, d.1 as int, tf, tr, fl));
                            }
                        }
                        cur = next;
                        fuel -= 1;
                    },
                }
            }
        }
        proof {
            assert forall|t: Square|
                #[trigger] res@.contains(t) <==> old(res)@.contains(t) || (t.wf() && dir_ray(
                    ps,
                    *self,
                    d,
                    t,
                )) by {
                if t.wf() && dir_ray(ps, *self, d, t) {
                    assert(res@.contains(t));
                }
            }
        }
    }
}


/// The offsets `d` of `grid` for which `keep(d)` holds, where `keep` is the
/// jump of a knight when `knight` is set and a unit step otherwise.
fn offsets_where(grid: &Vec<Offset>, knight: bool) -> (r: Vec<Offset>)
    requires
        grid@.no_duplicates(),
    ensures
        r@.no_duplicates(),
        forall|d: Offset|
            #[trigger] r@.contains(d) <==> grid@.contains(d) && (if knight {
                knight_offset(d.0 as int, d.1 as int)
            } else {
                king_offset(d.0 as int, d.1 as int)
            }),
{
    let mut r: Vec<Offset> = Vec::new();
    let mut i: usize = 0;
    while i < grid.len()
        invariant
            i <= grid@.len(),
            grid@.no_duplicates(),
            r@.no_duplicates(),
            forall|d: Offset|
                #[trigger] r@.contains(d) <==> grid@.subrange(0, i as int).contains(d) && (if knight {
                    knight_offset(d.0 as int, d.1 as int)
                } else {
                    king_offset(d.0 as int, d.1 as int)
                }),
        decreases grid@.len() - i,
    {
        let d = grid[i];
        let ax: i16 = if d.0 < 0 { -(d.0 as i16) } else { d.0 as i16 };
        let ay: i16 = if d.1 < 0 { -(d.1 as i16) } else { d.1 as i16 };
        let keep = if knight {
            ax <= 2 && ay <= 2 && ax + ay == 3
        } else {
            ax <= 1 && ay <= 1 && !(ax == 0 && ay == 0)
        };
        let ghost before = r@;
        if keep {
            r.push(d);
        }
        proof {
            let pre = grid@.subrange(0, i as int);
            let post = grid@.subrange(0, i as int + 1);
            assert(post == pre.push(d));
            assert forall|e: Offset| #[trigger] post.contains(e) <==> pre.contains(e) || e == d by {
                if post.contains(e) {
                    let k = choose|k: int| 0 <= k < post.len() && post[k] == e;
                    if k < pre.len() {
                        assert(pre[k] == e);
                    }
                }
                if pre.contains(e) {
                    let k = choose|k: int| 0 <= k < pre.len() && pre[k] == e;
                    assert(post[k] == e);
                }
                if e == d {
                    assert(post[post.len() - 1] == e);
                }
            }
            if keep {
                assert(!pre.contains(d)) by {
                    if pre.contains(d) {
                        let k = choose|k: int| 0 <= k < pre.len() && pre[k] == d;
                        assert(grid@[k] == grid@[i as int]);
                    }
                }
                assert(!before.contains(d));
                assert forall|e: Offset| #[trigger] r@.contains(e) <==> before.contains(e) || e == d by {
                    if r@.contains(e) {
                        let k = choose|k: int| 0 <= k < r@.len() && r@[k] == e;
                        if k < before.len() {
                            assert(before[k] == e);
                        }
                    }
                    if before.contains(e) {
                        let k = choose|k: int| 0 <= k < before.len() && before[k] == e;
                        assert(r@[k] == e);
                    }
                    if e == d {
                        assert(r@[r@.len() - 1] == e);
                    }
                }
            }
        }
        i += 1;
    }
    assert(grid@.subrange(0, grid@.len() as int) == grid@);
    r
}

impl Piece {
    /// Adds the square one step of `d` away, unless it is off the board or
    /// holds a piece of this piece's color.
    fn walk_step(&self, board: &Board, d: Offset, res: &mut Vec<Square>)
        requires
            pieces_wf(board.pieces@),
            self.square.wf(),
            old(res)@.no_duplicates(),
        ensures
            final(res)@.no_duplicates(),
            forall|t: Square|
                #[trigger] final(res)@.contains(t) <==> old(res)@.contains(t) || (t.wf()
                    && dir_step(board.pieces@, *self, d, t)),
    {
        match self.square.move_by(d) {
            Some(next) => {
                let own = match board.check_square_for_piece(&next) {
                    Some(q) => q.color == self.color,
                    None => false,
                };
                if !own {
                    insert_square(res, next);
                }
                proof {
                    assert forall|t: Square|
                        #[trigger] res@.contains(t) <==> old(res)@.contains(t) || (t.wf()
                            && dir_step(board.pieces@, *self, d, t)) by {
                        if t.wf() && dir_step(board.pieces@, *self, d, t) {
                            lemma_square_eq(t, next);
                        }
                    }
                }
            },
            None => {},
        }
    }

    /// The squares that the rays along `directions` get to.
    fn get_directional_moves(&self, board: &Board, directions: Vec<Offset>) -> (res: Vec<Square>)
        requires
            pieces_wf(board.pieces@),
            self.square.wf(),
            forall|k: int|
                0 <= k < directions@.len() ==> -1 <= (#[trigger] directions@[k]).0 <= 1 && -1
                    <= directions@[k].1 <= 1,
        ensures
            res@.no_duplicates(),
            forall|t: Square|
                #[trigger] res@.contains(t) <==> t.wf() && exists|k: int|
                    0 <= k < directions@.len() && dir_ray(board.pieces@, *self, #[trigger] directions@[k], t),
    {
        let mut res: Vec<Square> = Vec::new();
        let mut i: usize = 0;
        while i < directions.len()
            invariant
                i <= directions@.len(),
                pieces_wf(board.pieces@),
                self.square.wf(),
                forall|k: int|
                    0 <= k < directions@.len() ==> -1 <= (#[trigger] directions@[k]).0 <= 1 && -1
                        <= directions@[k].1 <= 1,
                res@.no_duplicates(),
                forall|t: Square|
                    #[trigger] res@.contains(t) <==> t.wf() && exists|k: int|
                        0 <= k < i && dir_ray(board.pieces@, *self, #[trigger] directions@[k], t),
            decreases directions@.len() - i,
        {
            let d = directions[i];
            self.walk_ray(board, d, &mut res);
            proof {
                assert forall|t: Square|
                    #[trigger] res@.contains(t) <==> t.wf() && exists|k: int|
                        0 <= k < i + 1 && dir_ray(board.pieces@, *self, #[trigger] directions@[k], t) by {
                    if t.wf() && dir_ray(board.pieces@, *self, d, t) {
                        assert(directions@[i as int] == d);
                    }
                }
            }
            i += 1;
        }
        res
    }

    /// The squares one step along each of `directions` that do not hold a
    /// piece of this piece's color.
    fn get_directional_move(&self, board: &Board, directions: Vec<Offset>) -> (res: Vec<Square>)
        requires
            pieces_wf(board.pieces@),
            self.square.wf(),
        ensures
            res@.no_duplicates(),
            forall|t: Square|
                #[trigger] res@.contains(t) <==> t.wf() && exists|k: int|
                    0 <= k < directions@.len() && dir_step(board.pieces@, *self, #[trigger] directions@[k], t),
    {
        let mut res: Vec<Square> = Vec::new();
        let mut i: usize = 0;
        while i < directions.len()
            invariant
                i <= directions@.len(),
                pieces_wf(board.pieces@),
                self.square.wf(),
                res@.no_duplicates(),
                forall|t: Square|
                    #[trigger] res@.contains(t) <==> t.wf() && exists|k: int|
                        0 <= k < i && dir_step(board.pieces@, *self, #[trigger] directions@[k], t),
            decreases directions@.len() - i,
        {
            let d = directions[i];
            self.walk_step(board, d, &mut res);
            proof {
                assert forall|t: Square|
                    #[trigger] res@.contains(t) <==> t.wf() && exists|k: int|
                        0 <= k < i + 1 && dir_step(board.pieces@, *self, #[trigger] directions@[k], t) by {
                    if t.wf() && dir_step(board.pieces@, *self, d, t) {
                        assert(directions@[i as int] == d);
                    }
                }
            }
            i += 1;
        }
        res
    }
}

/// A list of directions that holds exactly the directions of `fig` finds the
/// same squares as `slider_reaches`.
proof fn lemma_slide_dirs(ps: Seq<Piece>, p: Piece, fig: Figure, dirs: Seq<Offset>, t: Square)
    requires
        forall|d: Offset| #[trigger] dirs.contains(d) ==> slide_dir(fig, d.0 as int, d.1 as int),
        forall|dx: int, dy: int| slide_dir(fig, dx, dy) ==> #[trigger] dirs.contains((dx as i8, dy as i8)),
    ensures
        (exists|k: int| 0 <= k < dirs.len() && dir_ray(ps, p, #[trigger] dirs[k], t)) <==> slider_reaches(
            ps,
            p,
            fig,
            file_idx(t),
            rank_idx(t),
        ),
{
    let f = file_idx(p.square);
    let r = rank_idx(p.square);
    if exists|k: int| 0 <= k < dirs.len() && dir_ray(ps, p, #[trigger] dirs[k], t) {
        let k = choose|k: int| 0 <= k < dirs.len() && dir_ray(ps, p, #[trigger] dirs[k], t);
        assert(dirs.contains(dirs[k]));
        assert(ray_reaches(ps, p.color, f, r, dirs[k].0 as int, dirs[k].1 as int, file_idx(t), rank_idx(t), 7));
    }
    if slider_reaches(ps, p, fig, file_idx(t), rank_idx(t)) {
        let (dx, dy) = choose|dx: int, dy: int|
            slide_dir(fig, dx, dy) && #[trigger] ray_reaches(ps, p.color, f, r, dx, dy, file_idx(t), rank_idx(t), 7);
        let d = (dx as i8, dy as i8);
        assert(dirs.contains(d));
        let k = choose|k: int| 0 <= k < dirs.len() && dirs[k] == d;
        assert(dir_ray(ps, p, dirs[k], t));
    }
}

/// A list that holds exactly the offsets satisfying `knight_offset` (or
/// `king_offset`) finds the squares of a knight (or king).
proof fn lemma_step_dirs(ps: Seq<Piece>, p: Piece, knight: bool, dirs: Seq<Offset>, t: Square)
    requires
        t.wf(),
        p.square.wf(),
        forall|d: Offset|
            #[trigger] dirs.contains(d) <==> (if knight {
                knight_offset(d.0 as int, d.1 as int)
            } else {
                king_offset(d.0 as int, d.1 as int)
            }),
    ensures
        (exists|k: int| 0 <= k < dirs.len() && dir_step(ps, p, #[trigger] dirs[k], t)) <==> ((if knight {
            knight_offset(file_idx(t) - file_idx(p.square), rank_idx(t) - rank_idx(p.square))
        } else {
            king_offset(file_idx(t) - file_idx(p.square), rank_idx(t) - rank_idx(p.square))
        }) && !holds_color(ps, p.color, file_idx(t), rank_idx(t))),
{
    let dx = file_idx(t) - file_idx(p.square);
    let dy = rank_idx(t) - rank_idx(p.square);
    if exists|k: int| 0 <= k < dirs.len() && dir_step(ps, p, #[trigger] dirs[k], t) {
        let k = choose|k: int| 0 <= k < dirs.len() && dir_step(ps, p, #[trigger] dirs[k], t);
        assert(dirs.contains(dirs[k]));
    }
    let pred = if knight {
        knight_offset(dx, dy)
    } else {
        king_offset(dx, dy)
    };
    if pred && !holds_color(ps, p.color, file_idx(t), rank_idx(t)) {
        let d = (dx as i8, dy as i8);
        assert(dirs.contains(d));
        let k = choose|k: int| 0 <= k < dirs.len() && dirs[k] == d;
        assert(dir_step(ps, p, dirs[k], t));
    }
}

impl Piece {
    fn get_available_squares_rook(&self, board: &Board) -> (res: Vec<Square>)
        requires
            pieces_wf(board.pieces@),
            self.square.wf(),
        ensures
            res@.no_duplicates(),
            forall|t: Square|
                #[trigger] res@.contains(t) <==> t.wf() && slider_reaches(
                    board.pieces@,
                    *self,
                    Figure::Rook,
                    file_idx(t),
                    rank_idx(t),
                ),
    {
        let directions: Vec<Offset> = vec![(0, 1), (0, -1), (1, 0), (-1, 0)];
        let ghost dirs = directions@;
        assert(dirs == seq![(0i8, 1i8), (0i8, -1i8), (1i8, 0i8), (-1i8, 0i8)]);
        assert forall|d: Offset| #[trigger] dirs.contains(d) <==> slide_dir(Figure::Rook, d.0 as int, d.1 as int) by {
            if slide_dir(Figure::Rook, d.0 as int, d.1 as int) {
                if d == (0i8, 1i8) { assert(dirs[0] == d); }
                else if d == (0i8, -1i8) { assert(dirs[1] == d); }
                else if d == (1i8, 0i8) { assert(dirs[2] == d); }
                else { assert(dirs[3] == d); }
            }
        }
        let res = self.get_directional_moves(board, directions);
        proof {
            assert forall|t: Square| #[trigger] res@.contains(t) <==> t.wf() && slider_reaches(
                board.pieces@, *self, Figure::Rook, file_idx(t), rank_idx(t)) by {
                lemma_slide_dirs(board.pieces@, *self, Figure::Rook, dirs, t);
            }
        }
        res
    }

    fn get_available_squares_bishop(&self, board: &Board) -> (res: Vec<Square>)
        requires
            pieces_wf(board.pieces@),
            self.square.wf(),
        ensures
            res@.no_duplicates(),
            forall|t: Square|
                #[trigger] res@.contains(t) <==> t.wf() && slider_reaches(
                    board.pieces@,
                    *self,
                    Figure::Bishop,
                    file_idx(t),
                    rank_idx(t),
                ),
    {
        let directions: Vec<Offset> = vec![(1, 1), (1, -1), (-1, 1), (-1, -1)];
        let ghost dirs = directions@;
        assert(dirs == seq![(1i8, 1i8), (1i8, -1i8), (-1i8, 1i8), (-1i8, -1i8)]);
        assert forall|d: Offset| #[trigger] dirs.contains(d) <==> slide_dir(Figure::Bishop, d.0 as int, d.1 as int) by {
            if slide_dir(Figure::Bishop, d.0 as int, d.1 as int) {
                if d == (1i8, 1i8) { assert(dirs[0] == d); }
                else if d == (1i8, -1i8) { assert(dirs[1] == d); }
                else if d == (-1i8, 1i8) { assert(dirs[2] == d); }
                else { assert(dirs[3] == d); }
            }
        }
        let res = self.get_directional_moves(board, directions);
        proof {
            assert forall|t: Square| #[trigger] res@.contains(t) <==> t.wf() && slider_reaches(
                board.pieces@, *self, Figure::Bishop, file_idx(t), rank_idx(t)) by {
                lemma_slide_dirs(board.pieces@, *self, Figure::Bishop, dirs, t);
            }
        }
        res
    }

    fn get_available_squares_queen(&self, board: &Board) -> (res: Vec<Square>)
        requires
            pieces_wf(board.pieces@),
            self.square.wf(),
        ensures
            res@.no_duplicates(),
            forall|t: Square|
                #[trigger] res@.contains(t) <==> t.wf() && slider_reaches(
                    board.pieces@,
                    *self,
                    Figure::Queen,
                    file_idx(t),
                    rank_idx(t),
                ),
    {
        let grid = offset_grid(-1, 1);
        let directions = offsets_where(&grid, false);
        let ghost dirs = directions@;
        assert forall|d: Offset| #[trigger] dirs.contains(d) implies slide_dir(Figure::Queen, d.0 as int, d.1 as int) by {}
        assert forall|k: int| 0 <= k < dirs.len() implies -1 <= (#[trigger] dirs[k]).0 <= 1 && -1 <= dirs[k].1 <= 1 by {
            assert(dirs.contains(dirs[k]));
        }
        assert forall|dx: int, dy: int| slide_dir(Figure::Queen, dx, dy) implies #[trigger] dirs.contains((dx as i8, dy as i8)) by {
            assert(grid@.contains((dx as i8, dy as i8)));
        }
        let res = self.get_directional_moves(board, directions);
        proof {
            assert forall|t: Square| #[trigger] res@.contains(t) <==> t.wf() && slider_reaches(
                board.pieces@, *self, Figure::Queen, file_idx(t), rank_idx(t)) by {
                lemma_slide_dirs(board.pieces@, *self, Figure::Queen, dirs, t);
            }
        }
        res
    }

    fn get_available_squares_knight(&self, board: &Board) -> (res: Vec<Square>)
        requires
            pieces_wf(board.pieces@),
            self.square.wf(),
        ensures
            res@.no_duplicates(),
            forall|t: Square|
                #[trigger] res@.contains(t) <==> t.wf() && knight_offset(
                    file_idx(t) - file_idx(self.square),
                    rank_idx(t) - rank_idx(self.square),
                ) && !holds_color(board.pieces@, self.color, file_idx(t), rank_idx(t)),
    {
        let grid = offset_grid(-2, 2);
        let directions = offsets_where(&grid, true);
        let ghost dirs = directions@;
        assert forall|d: Offset| #[trigger] dirs.contains(d) <==> knight_offset(d.0 as int, d.1 as int) by {
            if knight_offset(d.0 as int, d.1 as int) {
                assert(grid@.contains(d));
            }
        }
        let res = self.get_directional_move(board, directions);
        proof {
            assert forall|t: Square| #[trigger] res@.contains(t) <==> t.wf() && knight_offset(
                file_idx(t) - file_idx(self.square),
                rank_idx(t) - rank_idx(self.square),
            ) && !holds_color(board.pieces@, self.color, file_idx(t), rank_idx(t)) by {
                if t.wf() {
                    lemma_step_dirs(board.pieces@, *self, true, dirs, t);
                }
            }
        }
        res
    }

    fn get_available_squares_king(&self, board: &Board) -> (res: Vec<Square>)
        requires
            pieces_wf(board.pieces@),
            self.square.wf(),
        ensures
            res@.no_duplicates(),
            forall|t: Square|
                #[trigger] res@.contains(t) <==> t.wf() && king_offset(
                    file_idx(t) - file_idx(self.square),
                    rank_idx(t) - rank_idx(self.square),
                ) && !holds_color(board.pieces@, self.color, file_idx(t), rank_idx(t)),
    {
        let grid = offset_grid(-1, 1);
        let directions = offsets_where(&grid, false);
        let ghost dirs = directions@;
        assert forall|d: Offset| #[trigger] dirs.contains(d) <==> king_offset(d.0 as int, d.1 as int) by {
            if king_offset(d.0 as int, d.1 as int) {
                assert(grid@.contains(d));
            }
        }
        let res = self.get_directional_move(board, directions);
        proof {
            assert forall|t: Square| #[trigger] res@.contains(t) <==> t.wf() && king_offset(
                file_idx(t) - file_idx(self.square),
                rank_idx(t) - rank_idx(self.square),
            ) && !holds_color(board.pieces@, self.color, file_idx(t), rank_idx(t)) by {
                if t.wf() {
                    lemma_step_dirs(board.pieces@, *self, false, dirs, t);
                }
            }
        }
        res
    }
}

impl Piece {
    /// A pawn's squares; it moves toward rank 8 if White and rank 1 if Black.
    fn get_available_squares_pawn(&self, board: &Board) -> (res: Vec<Square>)
        requires
            pieces_wf(board.pieces@),
            self.square.wf(),
        ensures
            res@.no_duplicates(),
            forall|t: Square|
                #[trigger] res@.contains(t) <==> t.wf() && pawn_reaches(
                    board.pieces@,
                    *self,
                    file_idx(t),
                    rank_idx(t),
                ),
    {
        let ghost ps = board.pieces@;
        let ghost f = file_idx(self.square);
        let ghost r = rank_idx(self.square);
        let d: i8 = match self.color {
            Color::White => 1,
            Color::Black => -1,
        };
        let home: i8 = match self.color {
            Color::White => 1,
            Color::Black => 6,
        };
        let mut res: Vec<Square> = Vec::new();
        let ghost mut one_ok = false;
        let ghost mut one_sq = self.square;
        let ghost mut two_sq = self.square;
        match self.square.move_by((0, d)) {
            Some(one) => {
                proof {
                    one_sq = one;
                }
                if board.check_square_for_piece(&one).is_none() {
                    insert_square(&mut res, one);
                    proof {
                        one_ok = true;
                    }
                    if self.square.rank() == home {
                        match self.square.move_by((0, 2 * d)) {
                            Some(two) => {
                                proof {
                                    two_sq = two;
                                }
                                if board.check_square_for_piece(&two).is_none() {
                                    insert_square(&mut res, two);
                                }
                            },
                            None => {},
                        }
                    }
                }
            },
            None => {},
        }
        let ghost mut left_sq = self.square;
        let ghost mut right_sq = self.square;
        match self.square.move_by((1, d)) {
            Some(diag) => {
                proof {
                    right_sq = diag;
                }
                match board.check_square_for_piece(&diag) {
                    Some(q) => {
                        if q.color != self.color {
                            insert_square(&mut res, diag);
                        }
                    },
                    None => {},
                }
            },
            None => {},
        }
        match self.square.move_by((-1, d)) {
            Some(diag) => {
                proof {
                    left_sq = diag;
                }
                match board.check_square_for_piece(&diag) {
                    Some(q) => {
                        if q.color != self.color {
                            insert_square(&mut res, diag);
                        }
                    },
                    None => {},
                }
            },
            None => {},
        }
        proof {
            assert forall|t: Square|
                #[trigger] res@.contains(t) <==> t.wf() && pawn_reaches(ps, *self, file_idx(t), rank_idx(t)) by {
                let tf = file_idx(t);
                let tr = rank_idx(t);
                if t.wf() && tf == f && tr == r + d {
                    lemma_square_eq(t, one_sq);
                }
                if t.wf() && tf == f && tr == r + 2 * d && r == home && !occupied(ps, f, r + d) {
                    assert(one_ok);
                    lemma_square_eq(t, two_sq);
                }
                if t.wf() && tf == f + 1 && tr == r + d {
                    lemma_square_eq(t, right_sq);
                }
                if t.wf() && tf == f - 1 && tr == r + d {
                    lemma_square_eq(t, left_sq);
                }
            }
        }
        res
    }

    /// The squares this piece can go to by its geometry, whatever that does to
    /// its own king.
    pub fn get_available_squares(&self, board: &Board) -> (res: Vec<Square>)
        requires
            pieces_wf(board.pieces@),
            self.square.wf(),
        ensures
            res@.no_duplicates(),
            forall|t: Square| #[trigger] res@.contains(t) <==> candidate(board.pieces@, *self, t),
    {
        match self.figure {
            Figure::Pawn => self.get_available_squares_pawn(board),
            Figure::Rook => self.get_available_squares_rook(board),
            Figure::Knight => self.get_available_squares_knight(board),
            Figure::Bishop => self.get_available_squares_bishop(board),
            Figure::King => self.get_available_squares_king(board),
            Figure::Queen => self.get_available_squares_queen(board),
        }
    }

    /// The candidate squares of this piece that hold a piece of the other color.
    pub fn get_attacked_squares(&self, board: &Board) -> (res: Vec<Square>)
        requires
            pieces_wf(board.pieces@),
            self.square.wf(),
        ensures
            res@.no_duplicates(),
            forall|t: Square| #[trigger] res@.contains(t) <==> attacked(board.pieces@, *self, t),
    {
        let cands = self.get_available_squares(board);
        let mut res: Vec<Square> = Vec::new();
        let mut i: usize = 0;
        while i < cands.len()
            invariant
                i <= cands@.len(),
                pieces_wf(board.pieces@),
                self.square.wf(),
                cands@.no_duplicates(),
                forall|t: Square| #[trigger] cands@.contains(t) <==> candidate(board.pieces@, *self, t),
                res@.no_duplicates(),
                forall|t: Square|
                    #[trigger] res@.contains(t) <==> cands@.subrange(0, i as int).contains(t) && holds_color(
                        board.pieces@,
                        opponent(self.color),
                        file_idx(t),
                        rank_idx(t),
                    ),
            decreases cands@.len() - i,
        {
            let sq = cands[i];
            let enemy = match board.check_square_for_piece(&sq) {
                Some(q) => q.color != self.color,
                None => false,
            };
            if enemy {
                insert_square(&mut res, sq);
            }
            proof {
                let pre = cands@.subrange(0, i as int);
                let post = cands@.subrange(0, i as int + 1);
                assert forall|e: Square| #[trigger] post.contains(e) <==> pre.contains(e) || e == sq by {
                    if post.contains(e) {
                        let k = choose|k: int| 0 <= k < post.len() && post[k] == e;
                        if k < pre.len() {
                            assert(pre[k] == e);
                        }
                    }
                    if pre.contains(e) {
                        let k = choose|k: int| 0 <= k < pre.len() && pre[k] == e;
                        assert(post[k] == e);
                    }
                    if e == sq {
                        assert(post[post.len() - 1] == e);
                    }
                }
            }
            i += 1;
        }
        assert(cands@.subrange(0, cands@.len() as int) == cands@);
        res
    }

    /// The letter of this piece's figure, capital for White.
    pub(crate) fn print_piece(&self) -> (c: char)
        ensures
            c == fen_letter(self.color, self.figure),
    {
        match (self.figure, self.color) {
            (Figure::Pawn, Color::White) => 'P',
            (Figure::Rook, Color::White) => 'R',
            (Figure::Knight, Color::White) => 'N',
            (Figure::Bishop, Color::White) => 'B',
            (Figure::Queen, Color::White) => 'Q',
            (Figure::King, Color::White) => 'K',
            (Figure::Pawn, Color::Black) => 'p',
            (Figure::Rook, Color::Black) => 'r',
            (Figure::Knight, Color::Black) => 'n',
            (Figure::Bishop, Color::Black) => 'b',
            (Figure::Queen, Color::Black) => 'q',
            (Figure::King, Color::Black) => 'k',
        }
    }
}

/// The FEN letter of a figure: lower case for Black, capital for White.
pub open spec fn fen_letter(c: Color, fig: Figure) -> char {
    let lower = match fig {
        Figure::Pawn => 'p',
        Figure::Rook => 'r',
        Figure::Knight => 'n',
        Figure::Bishop => 'b',
        Figure::Queen => 'q',
        Figure::King => 'k',
    };
    match c {
        Color::Black => lower,
        Color::White => match fig {
            Figure::Pawn => 'P',
            Figure::Rook => 'R',
            Figure::Knight => 'N',
            Figure::Bishop => 'B',
            Figure::Queen => 'Q',
            Figure::King => 'K',
        },
    }
}

/// Some piece of a color other than `target`'s has `target`'s square among its
/// attacked squares.
pub open spec fn under_attack(ps: Seq<Piece>, target: Piece) -> bool {
    exists|i: int|
        0 <= i < ps.len() && (#[trigger] ps[i]).color != target.color && attacked(ps, ps[i], target.square)
}

impl Board {
    /// Whether a piece of the other color attacks the square of `piece`.
    pub fn is_attacked(&self, piece: Piece) -> (r: bool)
        requires
            pieces_wf(self.pieces@),
        ensures
            r == under_attack(self.pieces@, piece),
    {
        let mut i: usize = 0;
        while i < self.pieces.len()
            invariant
                i <= self.pieces@.len(),
                pieces_wf(self.pieces@),
                forall|j: int|
                    0 <= j < i ==> !((#[trigger] self.pieces@[j]).color != piece.color && attacked(
                        self.pieces@,
                        self.pieces@[j],
                        piece.square,
                    )),
            decreases self.pieces@.len() - i,
        {
            let q = self.pieces[i];
            if q.color != piece.color {
                let sqs = q.get_attacked_squares(self);
                if contains_square(&sqs, piece.square) {
                    return true;
                }
            }
            i += 1;
        }
        false
    }
}

/// Every attacked square of a piece is one of its candidate squares.
pub proof fn lemma_attacked_are_candidates(ps: Seq<Piece>, p: Piece, t: Square)
    requires
        attacked(ps, p, t),
    ensures
        candidate(ps, p, t),
{
}

/// A ray never ends on a square holding a piece of the walker's color.
pub proof fn lemma_ray_target_not_own(
    ps: Seq<Piece>,
    c: Color,
    f: int,
    r: int,
    dx: int,
    dy: int,
    tf: int,
    tr: int,
    fuel: nat,
)
    requires
        ray_reaches(ps, c, f, r, dx, dy, tf, tr, fuel),
    ensures
        !holds_color(ps, c, tf, tr),
    decreases fuel,
{
    if fuel > 0 {
        let nf = f + dx;
        let nr = r + dy;
        if on_board(nf, nr) && !(nf == tf && nr == tr) && !occupied(ps, nf, nr) {
            lemma_ray_target_not_own(ps, c, nf, nr, dx, dy, tf, tr, (fuel - 1) as nat);
        }
    }
}

/// No candidate square of a piece holds a piece of its own color.
pub proof fn lemma_candidate_not_own(ps: Seq<Piece>, p: Piece, t: Square)
    requires
        candidate(ps, p, t),
    ensures
        !holds_color(ps, p.color, file_idx(t), rank_idx(t)),
{
    let f = file_idx(p.square);
    let r = rank_idx(p.square);
    match p.figure {
        Figure::Pawn => {},
        Figure::Knight => {},
        Figure::King => {},
        _ => {
            let (dx, dy) = choose|dx: int, dy: int|
                slide_dir(p.figure, dx, dy) && #[trigger] ray_reaches(
                    ps,
                    p.color,
                    f,
                    r,
                    dx,
                    dy,
                    file_idx(t),
                    rank_idx(t),
                    7,
                );
            lemma_ray_target_not_own(ps, p.color, f, r, dx, dy, file_idx(t), rank_idx(t), 7);
        },
    }
}

} // verus!
