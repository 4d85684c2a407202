//! Which pieces attack a square, and which give check.
use crate::game::board::movegen::walk_measure;
use crate::game::board::{on_board, Board, Square};
use crate::game::piece::{Color, Piece, PieceType};
use vstd::prelude::*;

verus! {

/// The eight directions a line piece moves in, in the order they are looked at.
pub const RAY_DIRECTIONS: [(i8, i8); 8] = [(1, 0), (0, 1), (1, 1), (-1, 0), (0, -1), (-1, -1), (-1, 1), (1, -1)];

/// The eight knight jumps, in the order they are looked at.
pub const KNIGHT_JUMPS: [(i8, i8); 8] = [(2, 1), (2, -1), (-2, 1), (-2, -1), (1, 2), (1, -2), (-1, 2), (-1, -2)];

/// The first piece met walking from `(f, r)` in direction `(df, dr)`, with
/// its square and its distance, counting from `dist`.
pub open spec fn first_piece(b: Board, f: int, r: int, df: int, dr: int, dist: int) -> Option<(int, int, Piece, int)>
    decreases walk_measure(f, r, df, dr),
    when df != 0 || dr != 0
{
    let nf = f + df;
    let nr = r + dr;
    if !on_board(nf, nr) {
        None
    } else {
        match b.at(nf, nr) {
            Some(p) => Some((nf, nr, p, dist + 1)),
            None => first_piece(b, nf, nr, df, dr, dist + 1),
        }
    }
}

/// Whether piece `p`, met first at `distance` steps in direction `(df, dr)`
/// from a square, attacks that square along the line. A king attacks the
/// squares next to it; a pawn attacks diagonally forward.
pub open spec fn line_attacks(p: Piece, df: int, dr: int, distance: int) -> bool {
    let is_diagonal = df != 0 && dr != 0;
    match p.kind {
        PieceType::Queen => true,
        PieceType::Rook => !is_diagonal,
        PieceType::Bishop => is_diagonal,
        PieceType::Pawn => distance == 1 && is_diagonal && ((p.color == Color::White && dr == -1) || (
        p.color == Color::Black && dr == 1)),
        PieceType::King => distance == 1,
        PieceType::Knight => false,
    }
}

/// The attacker of colour `c` on the line from `(f, r)` in direction `(df, dr)`, if any.
pub open spec fn line_attacker(b: Board, f: int, r: int, df: int, dr: int, c: Color) -> Seq<Square> {
    match first_piece(b, f, r, df, dr, 0) {
        Some((pf, pr, p, d)) => if p.color == c && line_attacks(p, df, dr, d) {
            seq![(pf as usize, pr as usize)]
        } else {
            Seq::empty()
        },
        None => Seq::empty(),
    }
}

/// The attackers of colour `c` on the lines from `(f, r)` in the given directions.
pub open spec fn lines_attackers(b: Board, f: int, r: int, dirs: Seq<(i8, i8)>, c: Color) -> Seq<Square>
    decreases dirs.len(),
{
    if dirs.len() == 0 {
        Seq::empty()
    } else {
        lines_attackers(b, f, r, dirs.drop_last(), c) + line_attacker(
            b,
            f,
            r,
            dirs.last().0 as int,
            dirs.last().1 as int,
            c,
        )
    }
}

/// The knight of colour `c` a jump `(df, dr)` away from `(f, r)`, if any.
pub open spec fn knight_attacker(b: Board, f: int, r: int, df: int, dr: int, c: Color) -> Seq<Square> {
    let nf = f + df;
    let nr = r + dr;
    if on_board(nf, nr) && (b.at(nf, nr) matches Some(p) && p.color == c && p.kind == PieceType::Knight) {
        seq![(nf as usize, nr as usize)]
    } else {
        Seq::empty()
    }
}

/// The knights of colour `c` the given jumps away from `(f, r)`.
pub open spec fn knights_attackers(b: Board, f: int, r: int, jumps: Seq<(i8, i8)>, c: Color) -> Seq<Square>
    decreases jumps.len(),
{
    if jumps.len() == 0 {
        Seq::empty()
    } else {
        knights_attackers(b, f, r, jumps.drop_last(), c) + knight_attacker(
            b,
            f,
            r,
            jumps.last().0 as int,
            jumps.last().1 as int,
            c,
        )
    }
}

/// The squares of the pieces of colour `c` that attack `(f, r)`: first along
/// the eight lines, then by a knight's jump.
pub open spec fn attackers_of(b: Board, f: int, r: int, c: Color) -> Seq<Square> {
    lines_attackers(b, f, r, RAY_DIRECTIONS@, c) + knights_attackers(b, f, r, KNIGHT_JUMPS@, c)
}

/// The square index `i` in rank-major order stands for.
pub open spec fn index_square(i: int) -> (int, int) {
    (i % 8, i / 8)
}

/// The first square from index `i` on, in rank-major order, that holds the king of colour `c`.
pub open spec fn king_search(b: Board, c: Color, i: int) -> Option<(int, int)>
    decreases 64 - i,
{
    if i < 0 || i >= 64 {
        None
    } else if b.at(i % 8, i / 8) matches Some(p) && p.kind == PieceType::King && p.color == c {
        Some((i % 8, i / 8))
    } else {
        king_search(b, c, i + 1)
    }
}

/// The square of the king of colour `c`: the first one in rank-major order.
pub open spec fn king_square(b: Board, c: Color) -> Option<(int, int)> {
    king_search(b, c, 0)
}

/// The pieces that give check to the king of colour `c`; none without a king.
pub open spec fn checkers_of(b: Board, c: Color) -> Seq<Square> {
    match king_square(b, c) {
        None => Seq::empty(),
        Some((f, r)) => attackers_of(b, f, r, c.other()),
    }
}

/// Whether the coordinates of `square`, read as `i8`, leave room for a knight's jump.
pub open spec fn attack_query_safe(square: Square) -> bool {
    -126 <= (square.0 as i8) <= 125 && -126 <= (square.1 as i8) <= 125
}

pub proof fn lemma_king_search_on_board(b: Board, c: Color, i: int)
    ensures
        king_search(b, c, i) matches Some((f, r)) ==> on_board(f, r) && (b.at(f, r) matches Some(p)
            && p.kind == PieceType::King && p.color == c),
    decreases 64 - i,
{
    if 0 <= i < 64 {
        lemma_king_search_on_board(b, c, i + 1);
    }
}

impl Board {
    /// The attacker of colour `color` on the line from `(f0, r0)` in direction `(df, dr)`.
    fn line_attacker(&self, f0: i8, r0: i8, df: i8, dr: i8, color: Color, attackers: &mut Vec<Square>)
        requires
            -126 <= f0 <= 125,
            -126 <= r0 <= 125,
            -1 <= df <= 1,
            -1 <= dr <= 1,
            df != 0 || dr != 0,
        ensures
            final(attackers)@ == old(attackers)@ + line_attacker(*self, f0 as int, r0 as int, df as int, dr as int, color),
    {
        let ghost found = first_piece(*self, f0 as int, r0 as int, df as int, dr as int, 0);
        let mut f = f0;
        let mut r = r0;
        let mut distance: i32 = 0;
        assert(walk_measure(f0 as int, r0 as int, df as int, dr as int) <= 200);
        loop
            invariant_except_break
                -127 <= f <= 126,
                -127 <= r <= 126,
                0 <= distance,
                distance + walk_measure(f as int, r as int, df as int, dr as int) <= walk_measure(
                    f0 as int,
                    r0 as int,
                    df as int,
                    dr as int,
                ),
                distance > 0 ==> on_board(f as int, r as int),
                -1 <= df <= 1,
                -1 <= dr <= 1,
                df != 0 || dr != 0,
                first_piece(*self, f as int, r as int, df as int, dr as int, distance as int) == found,
                found == first_piece(*self, f0 as int, r0 as int, df as int, dr as int, 0),
                attackers@ == old(attackers)@,
            ensures
                attackers@ == old(attackers)@ + line_attacker(*self, f0 as int, r0 as int, df as int, dr as int, color),
            decreases walk_measure(f as int, r as int, df as int, dr as int),
        {
            let ghost (pf, pr, pd) = (f as int, r as int, distance as int);
            f += df;
            r += dr;
            assert(distance < 200);
            distance += 1;
            assert(found == first_piece(*self, pf, pr, df as int, dr as int, pd));
            if f < 0 || f >= 8 || r < 0 || r >= 8 {
                assert(found is None);
                assert(attackers@ =~= old(attackers)@ + line_attacker(*self, f0 as int, r0 as int, df as int, dr as int, color));
                break;
            }
            if let Some(piece) = self.get((f as usize, r as usize)) {
                assert(found == Some((f as int, r as int, piece, distance as int)));
                if piece.color == color {
                    let is_diagonal = df != 0 && dr != 0;
                    let attacks = match piece.kind {
                        PieceType::Queen => true,
                        PieceType::Rook => !is_diagonal,
                        PieceType::Bishop => is_diagonal,
                        PieceType::Pawn => {
                            // a pawn attacks one square diagonally forward
                            distance == 1 && is_diagonal && ((piece.color == Color::White && dr == -1) || (
                            piece.color == Color::Black && dr == 1))
                        },
                        PieceType::King => distance == 1,
                        _ => false,
                    };
                    if attacks {
                        attackers.push((f as usize, r as usize));
                    }
                }
                assert(attackers@ =~= old(attackers)@ + line_attacker(*self, f0 as int, r0 as int, df as int, dr as int, color));
                break;
            }
        }
    }

    /// The squares of the pieces of colour `color` that attack `square`: first
    /// along the eight lines from it, then by a knight's jump.
    pub fn attacking_pieces(&self, square: Square, color: Color) -> (attackers: Vec<Square>)
        requires
            attack_query_safe(square),
        ensures
            attackers@ == attackers_of(*self, (square.0 as i8) as int, (square.1 as i8) as int, color),
    {
        let (file, rank) = square;
        let fi = file as i8;
        let ri = rank as i8;
        let mut attackers: Vec<Square> = Vec::new();
        let mut i: usize = 0;
        while i < 8
            invariant
                -126 <= fi <= 125,
                -126 <= ri <= 125,
                0 <= i <= 8,
                attackers@ == lines_attackers(*self, fi as int, ri as int, RAY_DIRECTIONS@.take(i as int), color),
            decreases 8 - i,
        {
            let (df, dr) = RAY_DIRECTIONS[i];
            assert(RAY_DIRECTIONS@.take(i as int + 1).drop_last() =~= RAY_DIRECTIONS@.take(i as int));
            self.line_attacker(fi, ri, df, dr, color, &mut attackers);
            i += 1;
        }
        assert(RAY_DIRECTIONS@.take(8) =~= RAY_DIRECTIONS@);
        let ghost lines = attackers@;
        let mut j: usize = 0;
        while j < 8
            invariant
                -126 <= fi <= 125,
                -126 <= ri <= 125,
                0 <= j <= 8,
                lines == lines_attackers(*self, fi as int, ri as int, RAY_DIRECTIONS@, color),
                attackers@ == lines + knights_attackers(*self, fi as int, ri as int, KNIGHT_JUMPS@.take(j as int), color),
            decreases 8 - j,
        {
            let (df, dr) = KNIGHT_JUMPS[j];
            assert(KNIGHT_JUMPS@.take(j as int + 1).drop_last() =~= KNIGHT_JUMPS@.take(j as int));
            let f = fi + df;
            let r = ri + dr;
            if f >= 0 && f < 8 && r >= 0 && r < 8 {
                if let Some(piece) = self.get((f as usize, r as usize)) {
                    if piece.color == color && piece.kind == PieceType::Knight {
                        attackers.push((f as usize, r as usize));
                    }
                }
            }
            assert(attackers@ =~= lines + knights_attackers(*self, fi as int, ri as int, KNIGHT_JUMPS@.take(j as int + 1), color));
            j += 1;
        }
        assert(KNIGHT_JUMPS@.take(8) =~= KNIGHT_JUMPS@);
        attackers
    }

    /// The square of the first king of colour `color` in rank-major order.
    fn find_king(&self, color: Color) -> (square: Option<Square>)
        ensures
            match square {
                None => king_square(*self, color) is None,
                Some(s) => king_square(*self, color) == Some((s.0 as int, s.1 as int)),
            },
    {
        let mut rindex: usize = 0;
        while rindex < 8
            invariant
                0 <= rindex <= 8,
                king_search(*self, color, 0) == king_search(*self, color, rindex * 8),
            decreases 8 - rindex,
        {
            let mut findex: usize = 0;
            while findex < 8
                invariant
                    0 <= rindex < 8,
                    0 <= findex <= 8,
                    king_search(*self, color, 0) == king_search(*self, color, rindex * 8 + findex),
                decreases 8 - findex,
            {
                let ghost i = rindex * 8 + findex;
                assert(i % 8 == findex && i / 8 == rindex);
                if let Some(piece) = self.get((findex, rindex)) {
                    if piece.kind == PieceType::King && piece.color == color {
                        return Some((findex, rindex));
                    }
                }
                findex += 1;
            }
            rindex += 1;
        }
        None
    }

    /// The squares of the pieces giving check to the king of colour `color`;
    /// none when that colour has no king.
    pub fn checking_pieces(&self, color: Color) -> (checkers: Vec<Square>)
        ensures
            checkers@ == checkers_of(*self, color),
    {
        // Without a king nothing can give check.
        match self.find_king(color) {
            None => Vec::new(),
            Some((file, rank)) => {
                proof {
                    lemma_king_search_on_board(*self, color, 0);
                }
                self.attacking_pieces((file, rank), color.opposite())
            },
        }
    }
}

} // verus!

verus! {

proof fn lemma_king_search_finds(b: Board, c: Color, i: int, f: int, r: int)
    requires
        on_board(f, r),
        0 <= i <= r * 8 + f,
        forall|g: int, h: int|
            on_board(g, h) && (b.at(g, h) matches Some(p) && p.kind == PieceType::King && p.color == c) ==> g == f
                && h == r,
        b.at(f, r) matches Some(p) && p.kind == PieceType::King && p.color == c,
    ensures
        king_search(b, c, i) == Some((f, r)),
    decreases r * 8 + f - i,
{
    assert(0 <= i % 8 < 8 && 0 <= i / 8 < 8);
    if i < r * 8 + f {
        lemma_king_search_finds(b, c, i + 1, f, r);
        if b.at(i % 8, i / 8) matches Some(p) && p.kind == PieceType::King && p.color == c {
            assert(i % 8 == f && i / 8 == r);
        }
    } else {
        assert(i % 8 == f && i / 8 == r);
    }
}

/// With exactly one king of colour `c`, the pieces giving it check are the
/// pieces of the other colour that attack its square.
pub proof fn lemma_checkers_of_single_king(b: Board, c: Color, f: int, r: int)
    requires
        on_board(f, r),
        b.at(f, r) matches Some(p) && p.kind == PieceType::King && p.color == c,
        forall|g: int, h: int|
            on_board(g, h) && (b.at(g, h) matches Some(p) && p.kind == PieceType::King && p.color == c) ==> g == f
                && h == r,
    ensures
        checkers_of(b, c) == attackers_of(b, f, r, c.other()),
{
    lemma_king_search_finds(b, c, 0, f, r);
}

/// Without a king of colour `c`, nothing gives it check.
pub proof fn lemma_checkers_of_no_king(b: Board, c: Color)
    requires
        forall|g: int, h: int| on_board(g, h) ==> !(b.at(g, h) matches Some(p) && p.kind == PieceType::King && p.color == c),
    ensures
        checkers_of(b, c) == Seq::<Square>::empty(),
{
    lemma_king_search_on_board(b, c, 0);
}


proof fn lemma_first_piece_ahead(b: Board, f: int, r: int, df: int, dr: int, dist: int)
    requires
        df != 0 || dr != 0,
    ensures
        first_piece(b, f, r, df, dr, dist) matches Some((pf, pr, p, d)) ==> {
            &&& on_board(pf, pr)
            &&& b.at(pf, pr) == Some(p)
            &&& df > 0 ==> pf > f
            &&& df < 0 ==> pf < f
            &&& dr > 0 ==> pr > r
            &&& dr < 0 ==> pr < r
            &&& d > dist
            &&& d == dist + 1 ==> pf == f + df && pr == r + dr
        },
    decreases walk_measure(f, r, df, dr),
{
    let nf = f + df;
    let nr = r + dr;
    if on_board(nf, nr) && b.at(nf, nr) is None {
        lemma_first_piece_ahead(b, nf, nr, df, dr, dist + 1);
    }
}

proof fn lemma_lines_attackers_own(b: Board, f: int, r: int, dirs: Seq<(i8, i8)>, c: Color, s: Square)
    requires
        forall|i: int| 0 <= i < dirs.len() ==> (#[trigger] dirs[i]).0 != 0 || dirs[i].1 != 0,
    ensures
        lines_attackers(b, f, r, dirs, c).contains(s) ==> on_board(s.0 as int, s.1 as int) && (b.at(
            s.0 as int,
            s.1 as int,
        ) matches Some(p) && p.color == c) && (s.0 as int != f || s.1 as int != r),
    decreases dirs.len(),
{
    if dirs.len() > 0 {
        let d = dirs.last();
        assert(dirs[dirs.len() - 1] == d);
        lemma_lines_attackers_own(b, f, r, dirs.drop_last(), c, s);
        lemma_first_piece_ahead(b, f, r, d.0 as int, d.1 as int, 0);
        let rest = lines_attackers(b, f, r, dirs.drop_last(), c);
        let last = line_attacker(b, f, r, d.0 as int, d.1 as int, c);
        if (rest + last).contains(s) && !rest.contains(s) {
            let k = choose|k: int| 0 <= k < (rest + last).len() && (rest + last)[k] == s;
            assert(last[k - rest.len()] == s);
        }
    }
}

proof fn lemma_knights_attackers_own(b: Board, f: int, r: int, jumps: Seq<(i8, i8)>, c: Color, s: Square)
    requires
        forall|i: int| 0 <= i < jumps.len() ==> (#[trigger] jumps[i]).0 != 0 || jumps[i].1 != 0,
    ensures
        knights_attackers(b, f, r, jumps, c).contains(s) ==> on_board(s.0 as int, s.1 as int) && (b.at(
            s.0 as int,
            s.1 as int,
        ) matches Some(p) && p.color == c && p.kind == PieceType::Knight) && (s.0 as int != f || s.1 as int
            != r),
    decreases jumps.len(),
{
    if jumps.len() > 0 {
        let d = jumps.last();
        assert(jumps[jumps.len() - 1] == d);
        lemma_knights_attackers_own(b, f, r, jumps.drop_last(), c, s);
        let rest = knights_attackers(b, f, r, jumps.drop_last(), c);
        let last = knight_attacker(b, f, r, d.0 as int, d.1 as int, c);
        if (rest + last).contains(s) && !rest.contains(s) {
            let k = choose|k: int| 0 <= k < (rest + last).len() && (rest + last)[k] == s;
            assert(last[k - rest.len()] == s);
        }
    }
}

proof fn lemma_knights_attackers_complete(b: Board, f: int, r: int, jumps: Seq<(i8, i8)>, c: Color, i: int)
    requires
        0 <= i < jumps.len(),
        on_board(f + jumps[i].0, r + jumps[i].1),
        b.at(f + jumps[i].0, r + jumps[i].1) matches Some(p) && p.color == c && p.kind == PieceType::Knight,
    ensures
        knights_attackers(b, f, r, jumps, c).contains(((f + jumps[i].0) as usize, (r + jumps[i].1) as usize)),
    decreases jumps.len(),
{
    let rest = knights_attackers(b, f, r, jumps.drop_last(), c);
    let last = knight_attacker(b, f, r, jumps.last().0 as int, jumps.last().1 as int, c);
    if i < jumps.len() - 1 {
        assert(jumps.drop_last()[i] == jumps[i]);
        lemma_knights_attackers_complete(b, f, r, jumps.drop_last(), c, i);
        let k = choose|k: int| 0 <= k < rest.len() && rest[k] == ((f + jumps[i].0) as usize, (r + jumps[i].1) as usize);
        assert((rest + last)[k] == rest[k]);
    } else {
        assert((rest + last)[rest.len() as int] == last[0]);
    }
}

proof fn lemma_lines_attackers_adjacent(b: Board, f: int, r: int, dirs: Seq<(i8, i8)>, c: Color, i: int)
    requires
        0 <= i < dirs.len(),
        dirs[i].0 != 0 || dirs[i].1 != 0,
        on_board(f + dirs[i].0, r + dirs[i].1),
        b.at(f + dirs[i].0, r + dirs[i].1) matches Some(p) && p.color == c && line_attacks(
            p,
            dirs[i].0 as int,
            dirs[i].1 as int,
            1,
        ),
    ensures
        lines_attackers(b, f, r, dirs, c).contains(((f + dirs[i].0) as usize, (r + dirs[i].1) as usize)),
    decreases dirs.len(),
{
    let rest = lines_attackers(b, f, r, dirs.drop_last(), c);
    let last = line_attacker(b, f, r, dirs.last().0 as int, dirs.last().1 as int, c);
    if i < dirs.len() - 1 {
        assert(dirs.drop_last()[i] == dirs[i]);
        lemma_lines_attackers_adjacent(b, f, r, dirs.drop_last(), c, i);
        let k = choose|k: int| 0 <= k < rest.len() && rest[k] == ((f + dirs[i].0) as usize, (r + dirs[i].1) as usize);
        assert((rest + last)[k] == rest[k]);
    } else {
        assert((rest + last)[rest.len() as int] == last[0]);
    }
}

/// What the attackers of a square are: every square listed holds a piece of
/// the attacking colour, lies on the board and is not the square itself; a
/// knight of that colour a knight's jump away is always listed, and so is a
/// queen or a king of that colour on a square next to it.
pub proof fn lemma_attackers_of(b: Board, f: int, r: int, c: Color, s: Square, i: int)
    ensures
        attackers_of(b, f, r, c).contains(s) ==> on_board(s.0 as int, s.1 as int) && (b.at(
            s.0 as int,
            s.1 as int,
        ) matches Some(p) && p.color == c) && (s.0 as int != f || s.1 as int != r),
        0 <= i < 8 && on_board(f + KNIGHT_JUMPS@[i].0, r + KNIGHT_JUMPS@[i].1) && (b.at(
            f + KNIGHT_JUMPS@[i].0,
            r + KNIGHT_JUMPS@[i].1,
        ) matches Some(p) && p.color == c && p.kind == PieceType::Knight) ==> attackers_of(b, f, r, c).contains(
            ((f + KNIGHT_JUMPS@[i].0) as usize, (r + KNIGHT_JUMPS@[i].1) as usize),
        ),
        0 <= i < 8 && on_board(f + RAY_DIRECTIONS@[i].0, r + RAY_DIRECTIONS@[i].1) && (b.at(
            f + RAY_DIRECTIONS@[i].0,
            r + RAY_DIRECTIONS@[i].1,
        ) matches Some(p) && p.color == c && (p.kind == PieceType::Queen || p.kind == PieceType::King))
            ==> attackers_of(b, f, r, c).contains(
            ((f + RAY_DIRECTIONS@[i].0) as usize, (r + RAY_DIRECTIONS@[i].1) as usize),
        ),
{
    let lines = lines_attackers(b, f, r, RAY_DIRECTIONS@, c);
    let knights = knights_attackers(b, f, r, KNIGHT_JUMPS@, c);
    assert forall|k: int| 0 <= k < RAY_DIRECTIONS@.len() implies (#[trigger] RAY_DIRECTIONS@[k]).0 != 0
        || RAY_DIRECTIONS@[k].1 != 0 by {}
    assert forall|k: int| 0 <= k < KNIGHT_JUMPS@.len() implies (#[trigger] KNIGHT_JUMPS@[k]).0 != 0
        || KNIGHT_JUMPS@[k].1 != 0 by {}
    lemma_lines_attackers_own(b, f, r, RAY_DIRECTIONS@, c, s);
    lemma_knights_attackers_own(b, f, r, KNIGHT_JUMPS@, c, s);
    if (lines + knights).contains(s) {
        let k = choose|k: int| 0 <= k < (lines + knights).len() && (lines + knights)[k] == s;
        if k < lines.len() {
            assert(lines[k] == s);
        } else {
            assert(knights[k - lines.len()] == s);
        }
    }
    if 0 <= i < 8 && on_board(f + KNIGHT_JUMPS@[i].0, r + KNIGHT_JUMPS@[i].1) && (b.at(
        f + KNIGHT_JUMPS@[i].0,
        r + KNIGHT_JUMPS@[i].1,
    ) matches Some(p) && p.color == c && p.kind == PieceType::Knight) {
        lemma_knights_attackers_complete(b, f, r, KNIGHT_JUMPS@, c, i);
        let t = ((f + KNIGHT_JUMPS@[i].0) as usize, (r + KNIGHT_JUMPS@[i].1) as usize);
        let k = choose|k: int| 0 <= k < knights.len() && knights[k] == t;
        assert((lines + knights)[lines.len() + k] == t);
    }
    if 0 <= i < 8 && on_board(f + RAY_DIRECTIONS@[i].0, r + RAY_DIRECTIONS@[i].1) && (b.at(
        f + RAY_DIRECTIONS@[i].0,
        r + RAY_DIRECTIONS@[i].1,
    ) matches Some(p) && p.color == c && (p.kind == PieceType::Queen || p.kind == PieceType::King)) {
        lemma_lines_attackers_adjacent(b, f, r, RAY_DIRECTIONS@, c, i);
        let t = ((f + RAY_DIRECTIONS@[i].0) as usize, (r + RAY_DIRECTIONS@[i].1) as usize);
        let k = choose|k: int| 0 <= k < lines.len() && lines[k] == t;
        assert((lines + knights)[k] == t);
    }
}


proof fn lemma_lines_attackers_pawn(b: Board, f: int, r: int, dirs: Seq<(i8, i8)>, c: Color, s: Square)
    requires
        forall|i: int|
            0 <= i < dirs.len() ==> -1 <= (#[trigger] dirs[i]).0 <= 1 && -1 <= dirs[i].1 <= 1 && (dirs[i].0 != 0
                || dirs[i].1 != 0),
    ensures
        lines_attackers(b, f, r, dirs, c).contains(s) && (b.at(s.0 as int, s.1 as int) matches Some(p) && p.kind
            == PieceType::Pawn) ==> {
            &&& s.0 as int == f - 1 || s.0 as int == f + 1
            &&& c == Color::White ==> s.1 as int == r - 1
            &&& c == Color::Black ==> s.1 as int == r + 1
        },
    decreases dirs.len(),
{
    if dirs.len() > 0 {
        let d = dirs.last();
        assert(dirs[dirs.len() - 1] == d);
        lemma_lines_attackers_pawn(b, f, r, dirs.drop_last(), c, s);
        lemma_first_piece_ahead(b, f, r, d.0 as int, d.1 as int, 0);
        let rest = lines_attackers(b, f, r, dirs.drop_last(), c);
        let last = line_attacker(b, f, r, d.0 as int, d.1 as int, c);
        if (rest + last).contains(s) && !rest.contains(s) {
            let k = choose|k: int| 0 <= k < (rest + last).len() && (rest + last)[k] == s;
            assert(last[k - rest.len()] == s);
        }
    }
}

/// How pawns attack: a pawn attacks the two squares diagonally in front of
/// it (the rank above for white, the rank below for black), so a pawn of the
/// attacking colour standing diagonally behind a square is always listed
/// among its attackers, and a pawn listed as an attacker always stands
/// diagonally behind the square.
pub proof fn lemma_pawn_attacks(b: Board, f: int, r: int, c: Color, s: Square, dx: int)
    ensures
        (dx == -1 || dx == 1) && on_board(f + dx, r - 1) && b.at(f + dx, r - 1) == Some(
            Piece { color: Color::White, kind: PieceType::Pawn },
        ) ==> attackers_of(b, f, r, Color::White).contains(((f + dx) as usize, (r - 1) as usize)),
        (dx == -1 || dx == 1) && on_board(f + dx, r + 1) && b.at(f + dx, r + 1) == Some(
            Piece { color: Color::Black, kind: PieceType::Pawn },
        ) ==> attackers_of(b, f, r, Color::Black).contains(((f + dx) as usize, (r + 1) as usize)),
        attackers_of(b, f, r, c).contains(s) && (b.at(s.0 as int, s.1 as int) matches Some(p) && p.kind
            == PieceType::Pawn) ==> {
            &&& s.0 as int == f - 1 || s.0 as int == f + 1
            &&& c == Color::White ==> s.1 as int == r - 1
            &&& c == Color::Black ==> s.1 as int == r + 1
        },
{
    let dirs = RAY_DIRECTIONS@;
    let lines = lines_attackers(b, f, r, dirs, c);
    let knights = knights_attackers(b, f, r, KNIGHT_JUMPS@, c);
    assert forall|k: int| 0 <= k < dirs.len() implies -1 <= (#[trigger] dirs[k]).0 <= 1 && -1 <= dirs[k].1 <= 1
        && (dirs[k].0 != 0 || dirs[k].1 != 0) by {}
    assert forall|k: int| 0 <= k < KNIGHT_JUMPS@.len() implies (#[trigger] KNIGHT_JUMPS@[k]).0 != 0
        || KNIGHT_JUMPS@[k].1 != 0 by {}
    lemma_lines_attackers_pawn(b, f, r, dirs, c, s);
    lemma_knights_attackers_own(b, f, r, KNIGHT_JUMPS@, c, s);
    if (lines + knights).contains(s) {
        let k = choose|k: int| 0 <= k < (lines + knights).len() && (lines + knights)[k] == s;
        if k < lines.len() {
            assert(lines[k] == s);
        } else {
            assert(knights[k - lines.len()] == s);
        }
    }
    let wp = Piece { color: Color::White, kind: PieceType::Pawn };
    let bp = Piece { color: Color::Black, kind: PieceType::Pawn };
    if (dx == -1 || dx == 1) && on_board(f + dx, r - 1) && b.at(f + dx, r - 1) == Some(wp) {
        let i: int = if dx == -1 { 5 } else { 7 };
        assert(dirs[i] == (dx as i8, -1i8));
        lemma_lines_attackers_adjacent(b, f, r, dirs, Color::White, i);
        let wl = lines_attackers(b, f, r, dirs, Color::White);
        let wk = knights_attackers(b, f, r, KNIGHT_JUMPS@, Color::White);
        let t = ((f + dx) as usize, (r - 1) as usize);
        let k = choose|k: int| 0 <= k < wl.len() && wl[k] == t;
        assert((wl + wk)[k] == t);
    }
    if (dx == -1 || dx == 1) && on_board(f + dx, r + 1) && b.at(f + dx, r + 1) == Some(bp) {
        let i: int = if dx == -1 { 6 } else { 2 };
        assert(dirs[i] == (dx as i8, 1i8));
        lemma_lines_attackers_adjacent(b, f, r, dirs, Color::Black, i);
        let bl = lines_attackers(b, f, r, dirs, Color::Black);
        let bk = knights_attackers(b, f, r, KNIGHT_JUMPS@, Color::Black);
        let t = ((f + dx) as usize, (r + 1) as usize);
        let k = choose|k: int| 0 <= k < bl.len() && bl[k] == t;
        assert((bl + bk)[k] == t);
    }
}

} // verus!
