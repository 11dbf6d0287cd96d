//! Piece values and the rules of movement: per-kind legality,
//! path obstruction, check and checkmate detection, and the pure
//! transition that yields the position after a move.

use vstd::prelude::*;

use crate::board::Square;

verus! {

/// The two sides of the game.
#[derive(Clone, Copy, PartialEq, Eq, Structural, Debug)]
pub enum PieceColor {
    White,
    Black,
}

impl PieceColor {
    /// The other side, as a mathematical value.
    pub open spec fn opposite(self) -> Self {
        match self {
            PieceColor::Black => PieceColor::White,
            PieceColor::White => PieceColor::Black,
        }
    }

    /// The other side.
    pub fn other(&self) -> (r: Self)
        ensures
            r == self.opposite(),
    {
        match self {
            PieceColor::Black => PieceColor::White,
            PieceColor::White => PieceColor::Black,
        }
    }
}

/// The six kinds of chess piece. A fixed, closed set.
#[derive(Clone, Copy, PartialEq, Eq, Structural, Debug)]
pub enum PieceType {
    King,
    Queen,
    Bishop,
    Knight,
    Rook,
    Pawn,
}

/// One piece on the board. `has_moved` is needed for castling and for
/// the pawn's double step, and is never reset.
#[derive(Clone, Copy, PartialEq, Eq, Structural, Debug)]
pub struct Piece {
    pub color: PieceColor,
    pub piece_type: PieceType,
    pub has_moved: bool,
    pub pos: Square,
}

/// The absolute value of a coordinate difference.
pub open spec fn magnitude(x: int) -> int {
    if x < 0 {
        -x
    } else {
        x
    }
}

/// The colour of the first piece in the list standing on `square`,
/// or `None` when no piece stands there.
pub open spec fn occupant_color(pieces: Seq<Piece>, square: Square) -> Option<PieceColor>
    decreases pieces.len(),
{
    if pieces.len() == 0 {
        None
    } else if pieces[0].pos == square {
        Some(pieces[0].color)
    } else {
        occupant_color(pieces.subrange(1, pieces.len() as int), square)
    }
}

/// Whether `mid` lies strictly inside the segment from `origin` to
/// `end`: collinear with the two (the cross product of the deltas
/// vanishes) and strictly between them in the file — in the rank,
/// when the files agree. The movement rules apply this only to
/// horizontal, vertical or exactly diagonal displacements, where it
/// picks out exactly the squares a sliding piece crosses.
pub open spec fn strictly_between(origin: Square, end: Square, mid: Square) -> bool {
    let df = end.file - origin.file;
    let dr = end.rank - origin.rank;
    let mf = mid.file - origin.file;
    let mr = mid.rank - origin.rank;
    if df == 0 && dr == 0 {
        false
    } else if df == 0 {
        mf == 0 && ((0 < mr < dr) || (dr < mr < 0))
    } else {
        mr * df == mf * dr && ((0 < mf < df) || (df < mf < 0))
    }
}

/// Whether no piece stands on a square strictly between `origin` and
/// `end`. Adjacent squares trivially have an empty path.
pub open spec fn path_empty(pieces: Seq<Piece>, origin: Square, end: Square) -> bool {
    forall|i: int|
        0 <= i < pieces.len() ==> !strictly_between(origin, end, (#[trigger] pieces[i]).pos)
}

/// The colour of the first piece found at `square`, if there is one.
///
/// Capture tests and the rejection of moves onto a friendly piece both
/// go through this lookup.
pub fn color_of_square(square: Square, pieces: &Vec<Piece>) -> (r: Option<PieceColor>)
    ensures
        r == occupant_color(pieces@, square),
{
    let n = pieces.len();
    for i in 0..n
        invariant
            n == pieces@.len(),
            forall|j: int| 0 <= j < i ==> (#[trigger] pieces@[j]).pos != square,
    {
        if pieces[i].pos == square {
            proof {
                lemma_occupant_color_first(pieces@, square, i as int);
            }
            return Some(pieces[i].color);
        }
    }
    proof {
        lemma_occupant_color_absent(pieces@, square);
    }
    None
}

/// When the piece at index `i` is the first one standing on `square`,
/// the occupant colour is that piece's colour.
proof fn lemma_occupant_color_first(pieces: Seq<Piece>, square: Square, i: int)
    requires
        0 <= i < pieces.len(),
        pieces[i].pos == square,
        forall|j: int| 0 <= j < i ==> (#[trigger] pieces[j]).pos != square,
    ensures
        occupant_color(pieces, square) == Some(pieces[i].color),
    decreases i,
{
    if i > 0 {
        let rest = pieces.subrange(1, pieces.len() as int);
        lemma_occupant_color_first(rest, square, i - 1);
    }
}

/// When no piece stands on `square`, the occupant colour is `None`.
proof fn lemma_occupant_color_absent(pieces: Seq<Piece>, square: Square)
    requires
        forall|j: int| 0 <= j < pieces.len() ==> (#[trigger] pieces[j]).pos != square,
    ensures
        occupant_color(pieces, square) is None,
    decreases pieces.len(),
{
    if pieces.len() > 0 {
        let rest = pieces.subrange(1, pieces.len() as int);
        lemma_occupant_color_absent(rest, square);
    }
}

/// On a position whose squares are distinct, any piece standing on
/// `square` determines the occupant colour.
pub proof fn lemma_occupant_color_unique(pieces: Seq<Piece>, square: Square, i: int)
    requires
        distinct_squares(pieces),
        0 <= i < pieces.len(),
        pieces[i].pos == square,
    ensures
        occupant_color(pieces, square) == Some(pieces[i].color),
{
    assert forall|j: int| 0 <= j < i implies (#[trigger] pieces[j]).pos != square by {
        assert(pieces[j].pos != pieces[i].pos);
    }
    lemma_occupant_color_first(pieces, square, i);
}

/// No two pieces of the position stand on the same square.
pub open spec fn distinct_squares(pieces: Seq<Piece>) -> bool {
    forall|i: int, j: int|
        0 <= i < j < pieces.len() ==> (#[trigger] pieces[i]).pos != (#[trigger] pieces[j]).pos
}

/// Whether `mid` blocks the straight or diagonal line from `origin`
/// to `end`.
fn square_blocks(origin: Square, end: Square, mid: Square) -> (r: bool)
    ensures
        r == strictly_between(origin, end, mid),
{
    let df: i16 = end.file as i16 - origin.file as i16;
    let dr: i16 = end.rank as i16 - origin.rank as i16;
    let mf: i16 = mid.file as i16 - origin.file as i16;
    let mr: i16 = mid.rank as i16 - origin.rank as i16;
    if df == 0 && dr == 0 {
        false
    } else if df == 0 {
        mf == 0 && ((0 < mr && mr < dr) || (dr < mr && mr < 0))
    } else {
        proof {
            assert(-65536 < mr * df < 65536 && -65536 < mf * dr < 65536) by (nonlinear_arith)
                requires
                    -256 < mr < 256,
                    -256 < df < 256,
                    -256 < mf < 256,
                    -256 < dr < 256,
            ;
        }
        mr as i32 * df as i32 == mf as i32 * dr as i32 && ((0 < mf && mf < df) || (df < mf && mf < 0))
    }
}

/// Whether every square strictly between `begin` and `end` along the
/// line through them is free of pieces.
pub fn is_path_empty(begin: Square, end: Square, pieces: &Vec<Piece>) -> (r: bool)
    ensures
        r == path_empty(pieces@, begin, end),
{
    let n = pieces.len();
    for i in 0..n
        invariant
            n == pieces@.len(),
            forall|j: int|
                0 <= j < i ==> !strictly_between(begin, end, (#[trigger] pieces@[j]).pos),
    {
        if square_blocks(begin, end, pieces[i].pos) {
            return false;
        }
    }
    true
}

/// The rank step a pawn of the given colour advances by.
pub open spec fn pawn_rank_step(color: PieceColor) -> int {
    match color {
        PieceColor::White => 1,
        PieceColor::Black => -1,
    }
}

/// Whether the piece at index `i` is a rook with which `king` may
/// castle when moving towards `target`: an unmoved rook of the king's
/// colour on the king's rank, on the side the king moves towards,
/// with every square strictly between king and rook empty.
pub open spec fn castle_rook_at(
    pieces: Seq<Piece>,
    king: Piece,
    target: Square,
    i: int,
) -> bool {
    &&& 0 <= i < pieces.len()
    &&& pieces[i].piece_type == PieceType::Rook
    &&& pieces[i].color == king.color
    &&& !pieces[i].has_moved
    &&& pieces[i].pos.rank == king.pos.rank
    &&& (if target.file > king.pos.file {
        pieces[i].pos.file > king.pos.file
    } else {
        pieces[i].pos.file < king.pos.file
    })
    &&& path_empty(pieces, king.pos, pieces[i].pos)
}

/// The movement rule of the piece's kind, ignoring the rejection of a
/// friendly occupant on the target, which `move_allowed` puts first.
/// For the castle, the king's whole path — the square it passes
/// through and the square it lands on — must be empty, beside the
/// squares strictly between king and rook that `castle_rook_at`
/// demands.
pub open spec fn kind_move_allowed(pieces: Seq<Piece>, piece: Piece, target: Square) -> bool {
    let df = target.file - piece.pos.file;
    let dr = target.rank - piece.pos.rank;
    match piece.piece_type {
        PieceType::King => {
            (magnitude(df) <= 1 && magnitude(dr) <= 1 && !(df == 0 && dr == 0)) || (!piece.has_moved
                && dr == 0 && magnitude(df) == 2 && occupant_color(pieces, target) is None
                && occupant_color(pieces, castle_transit_square(piece, target)) is None && exists|
                i: int,
            |
                #[trigger] castle_rook_at(pieces, piece, target, i))
        },
        PieceType::Queen => {
            (df == 0 || dr == 0 || magnitude(df) == magnitude(dr)) && path_empty(
                pieces,
                piece.pos,
                target,
            )
        },
        PieceType::Bishop => {
            magnitude(df) == magnitude(dr) && path_empty(pieces, piece.pos, target)
        },
        PieceType::Knight => {
            (magnitude(df) == 1 && magnitude(dr) == 2) || (magnitude(df) == 2 && magnitude(dr)
                == 1)
        },
        PieceType::Rook => { (df == 0 || dr == 0) && path_empty(pieces, piece.pos, target) },
        PieceType::Pawn => {
            let step = pawn_rank_step(piece.color);
            (df == 0 && dr == step && occupant_color(pieces, target) is None) || (df == 0 && dr == 2
                * step && !piece.has_moved && occupant_color(pieces, target) is None && path_empty(
                pieces,
                piece.pos,
                target,
            )) || (magnitude(df) == 1 && dr == step && occupant_color(pieces, target) == Some(
                piece.color.opposite(),
            ))
        },
    }
}

/// Whether moving `piece` from its current square to `target` is
/// legal in the position `pieces`, ignoring whether the mover's own
/// king would be left in check. A target occupied by a piece of the
/// mover's own colour is always rejected, before any geometry.
pub open spec fn move_allowed(pieces: Seq<Piece>, piece: Piece, target: Square) -> bool {
    occupant_color(pieces, target) != Some(piece.color) && kind_move_allowed(
        pieces,
        piece,
        target,
    )
}

impl Piece {
    /// Whether this piece may move to `target` in the position
    /// `pieces` (which must include the piece itself), ignoring the
    /// check status of the mover's own king.
    pub fn is_move_valid(&self, target: Square, pieces: &Vec<Piece>) -> (r: bool)
        ensures
            r == move_allowed(pieces@, *self, target),
    {
        let occupant = color_of_square(target, pieces);
        match occupant {
            Some(c) => if c == self.color {
                return false;
            },
            None => {},
        }
        let df: i16 = target.file as i16 - self.pos.file as i16;
        let dr: i16 = target.rank as i16 - self.pos.rank as i16;
        let adf: i16 = if df < 0 {
            -df
        } else {
            df
        };
        let adr: i16 = if dr < 0 {
            -dr
        } else {
            dr
        };
        match self.piece_type {
            PieceType::King => {
                if adf <= 1 && adr <= 1 && !(df == 0 && dr == 0) {
                    true
                } else if !self.has_moved && dr == 0 && adf == 2 {
                    let target_clear = match occupant {
                        Some(_) => false,
                        None => true,
                    };
                    let transit = Square {
                        file: if target.file > self.pos.file {
                            self.pos.file + 1
                        } else {
                            self.pos.file - 1
                        },
                        rank: self.pos.rank,
                    };
                    let transit_clear = match color_of_square(transit, pieces) {
                        Some(_) => false,
                        None => true,
                    };
                    target_clear && transit_clear && self.castle_rook_available(target, pieces)
                } else {
                    false
                }
            },
            PieceType::Queen => {
                (df == 0 || dr == 0 || adf == adr) && is_path_empty(self.pos, target, pieces)
            },
            PieceType::Bishop => { adf == adr && is_path_empty(self.pos, target, pieces) },
            PieceType::Knight => { (adf == 1 && adr == 2) || (adf == 2 && adr == 1) },
            PieceType::Rook => {
                (df == 0 || dr == 0) && is_path_empty(self.pos, target, pieces)
            },
            PieceType::Pawn => {
                let step: i16 = match self.color {
                    PieceColor::White => 1,
                    PieceColor::Black => -1,
                };
                let target_empty = match occupant {
                    Some(_) => false,
                    None => true,
                };
                let target_enemy = match occupant {
                    Some(c) => c == self.color.other(),
                    None => false,
                };
                (df == 0 && dr == step && target_empty) || (df == 0 && dr == 2 * step
                    && !self.has_moved && target_empty && is_path_empty(self.pos, target, pieces))
                    || (adf == 1 && dr == step && target_enemy)
            },
        }
    }

    /// Whether a rook stands ready for this king to castle with on
    /// the side of `target`.
    fn castle_rook_available(&self, target: Square, pieces: &Vec<Piece>) -> (r: bool)
        ensures
            r == exists|i: int| castle_rook_at(pieces@, *self, target, i),
    {
        let found = find_castle_rook(pieces, *self, target);
        match found {
            Some(ri) => {
                proof {
                    lemma_castle_rook_index_some(pieces@, *self, target, 0, ri as int);
                }
                true
            },
            None => {
                proof {
                    lemma_castle_rook_index_none(pieces@, *self, target, 0);
                }
                false
            },
        }
    }
}

/// The piece as it stands after moving to `target`: relocated and
/// marked as having moved.
pub open spec fn moved_to(piece: Piece, target: Square) -> Piece {
    Piece { has_moved: true, pos: target, ..piece }
}

/// The position after `piece` moves to `target`: any opposing piece
/// standing on `target` is captured (removed), the moving piece is
/// relocated to `target` and marked moved, and every other piece is
/// kept unchanged, in order.
pub open spec fn position_after_move(pieces: Seq<Piece>, piece: Piece, target: Square) -> Seq<
    Piece,
>
    decreases pieces.len(),
{
    if pieces.len() == 0 {
        Seq::empty()
    } else {
        let front = position_after_move(pieces.drop_last(), piece, target);
        let last = pieces.last();
        if last.pos == target && last.color != piece.color {
            front
        } else if last == piece {
            front.push(moved_to(piece, target))
        } else {
            front.push(last)
        }
    }
}

impl Piece {
    /// The position that results from moving this piece to `new_pos`:
    /// a new list; the input is left untouched. Serves both the
    /// hypothetical positions of the checkmate search and the
    /// committed move.
    pub fn get_pieces_after_move(&self, new_pos: Square, pieces: &Vec<Piece>) -> (r: Vec<Piece>)
        ensures
            r@ == position_after_move(pieces@, *self, new_pos),
    {
        let n = pieces.len();
        let mut result: Vec<Piece> = Vec::new();
        for i in 0..n
            invariant
                n == pieces@.len(),
                result@ == position_after_move(pieces@.subrange(0, i as int), *self, new_pos),
        {
            let p = pieces[i];
            proof {
                let sub = pieces@.subrange(0, i + 1);
                assert(sub.drop_last() =~= pieces@.subrange(0, i as int));
                assert(sub.last() == pieces@[i as int]);
            }
            if p.pos == new_pos && p.color != self.color {
                // captured
            } else if p == *self {
                result.push(
                    Piece { color: self.color, piece_type: self.piece_type, has_moved: true, pos: new_pos },
                );
            } else {
                result.push(p);
            }
        }
        proof {
            assert(pieces@.subrange(0, n as int) =~= pieces@);
        }
        result
    }
}

/// Whether `piece` is the king of the given colour.
pub open spec fn is_king_of(piece: Piece, color: PieceColor) -> bool {
    piece.piece_type == PieceType::King && piece.color == color
}

/// Whether the position holds a king of the given colour.
pub open spec fn has_king(pieces: Seq<Piece>, color: PieceColor) -> bool {
    exists|i: int| 0 <= i < pieces.len() && is_king_of(#[trigger] pieces[i], color)
}

/// The square of the first king of the given colour, if one stands in
/// the position.
pub open spec fn king_square(pieces: Seq<Piece>, color: PieceColor) -> Option<Square>
    decreases pieces.len(),
{
    if pieces.len() == 0 {
        None
    } else if is_king_of(pieces[0], color) {
        Some(pieces[0].pos)
    } else {
        king_square(pieces.subrange(1, pieces.len() as int), color)
    }
}

/// Whether the king of the given colour is attacked: some opposing
/// piece has a legal move onto the king's square in the current
/// position.
pub open spec fn in_check(pieces: Seq<Piece>, color: PieceColor) -> bool {
    match king_square(pieces, color) {
        Some(ksq) => exists|i: int|
            0 <= i < pieces.len() && (#[trigger] pieces[i]).color != color && move_allowed(
                pieces,
                pieces[i],
                ksq,
            ),
        None => false,
    }
}

/// Whether the given colour is checkmated: every legal move of every
/// piece of that colour still leaves its king attacked afterwards.
pub open spec fn checkmated(pieces: Seq<Piece>, color: PieceColor) -> bool {
    forall|i: int, t: Square|
        0 <= i < pieces.len() && pieces[i].color == color && t.on_board() && #[trigger]
        move_allowed(pieces, pieces[i], t) ==> in_check(
            position_after_move(pieces, pieces[i], t),
            color,
        )
}

/// When the piece at index `k` is the first king of its colour, the
/// king square is that piece's square.
proof fn lemma_king_square_first(pieces: Seq<Piece>, color: PieceColor, k: int)
    requires
        0 <= k < pieces.len(),
        is_king_of(pieces[k], color),
        forall|j: int| 0 <= j < k ==> !is_king_of(#[trigger] pieces[j], color),
    ensures
        king_square(pieces, color) == Some(pieces[k].pos),
    decreases k,
{
    if k > 0 {
        let rest = pieces.subrange(1, pieces.len() as int);
        lemma_king_square_first(rest, color, k - 1);
    }
}

/// A move by a piece of colour `color` never removes that colour's
/// king: captures remove opposing pieces only, and a moving king
/// keeps its kind and colour.
pub proof fn lemma_after_move_keeps_king(
    pieces: Seq<Piece>,
    piece: Piece,
    target: Square,
    color: PieceColor,
)
    requires
        has_king(pieces, color),
        piece.color == color,
    ensures
        has_king(position_after_move(pieces, piece, target), color),
    decreases pieces.len(),
{
    let after = position_after_move(pieces, piece, target);
    let k = choose|i: int| 0 <= i < pieces.len() && is_king_of(#[trigger] pieces[i], color);
    if k == pieces.len() - 1 {
        let last = pieces.last();
        if last.pos == target && last.color != piece.color {
            assert(false);
        } else if last == piece {
            assert(is_king_of(after[after.len() - 1], color));
        } else {
            assert(is_king_of(after[after.len() - 1], color));
        }
    } else {
        assert(has_king(pieces.drop_last(), color)) by {
            assert(is_king_of(pieces.drop_last()[k], color));
        }
        lemma_after_move_keeps_king(pieces.drop_last(), piece, target, color);
        let front = position_after_move(pieces.drop_last(), piece, target);
        let j = choose|i: int| 0 <= i < front.len() && is_king_of(#[trigger] front[i], color);
        assert(is_king_of(after[j], color));
    }
}

/// Locates the first king of the given colour.
fn find_king_index(pieces: &Vec<Piece>, color: PieceColor) -> (k: usize)
    requires
        has_king(pieces@, color),
    ensures
        k < pieces@.len(),
        is_king_of(pieces@[k as int], color),
        forall|j: int| 0 <= j < k ==> !is_king_of(#[trigger] pieces@[j], color),
{
    let n = pieces.len();
    let mut k: usize = 0;
    loop
        invariant
            n == pieces@.len(),
            has_king(pieces@, color),
            k <= n,
            forall|j: int| 0 <= j < k ==> !is_king_of(#[trigger] pieces@[j], color),
        ensures
            k < pieces@.len(),
            is_king_of(pieces@[k as int], color),
            forall|j: int| 0 <= j < k ==> !is_king_of(#[trigger] pieces@[j], color),
        decreases n - k,
    {
        proof {
            if k >= n {
                let w = choose|i: int|
                    0 <= i < pieces@.len() && is_king_of(#[trigger] pieces@[i], color);
                assert(false);
            }
        }
        let p = pieces[k];
        let is_king = match p.piece_type {
            PieceType::King => p.color == color,
            _ => false,
        };
        if is_king {
            break ;
        }
        k = k + 1;
    }
    k
}

/// Whether the king of `color` stands in check in `pieces`. The
/// position must hold a king of that colour.
pub fn is_check_on(pieces: &Vec<Piece>, color: PieceColor) -> (r: bool)
    requires
        has_king(pieces@, color),
    ensures
        r == in_check(pieces@, color),
{
    let k = find_king_index(pieces, color);
    let ksq = pieces[k].pos;
    proof {
        lemma_king_square_first(pieces@, color, k as int);
    }
    let n = pieces.len();
    for i in 0..n
        invariant
            n == pieces@.len(),
            king_square(pieces@, color) == Some(ksq),
            forall|j: int|
                0 <= j < i ==> !((#[trigger] pieces@[j]).color != color && move_allowed(
                    pieces@,
                    pieces@[j],
                    ksq,
                )),
    {
        let attacker = pieces[i];
        if !(attacker.color == color) && attacker.is_move_valid(ksq, pieces) {
            return true;
        }
    }
    false
}

/// Whether the given colour is checkmated in `pieces`: an exhaustive
/// search over every piece of that colour and all 64 target squares,
/// returning early as soon as one escaping move is found. The
/// position must hold a king of that colour.
pub fn is_check_mate_on(pieces: &Vec<Piece>, color: PieceColor) -> (r: bool)
    requires
        has_king(pieces@, color),
    ensures
        r == checkmated(pieces@, color),
{
    let n = pieces.len();
    for i in 0..n
        invariant
            n == pieces@.len(),
            has_king(pieces@, color),
            forall|i2: int, t: Square|
                0 <= i2 < i && pieces@[i2].color == color && t.on_board() && #[trigger]
                move_allowed(pieces@, pieces@[i2], t) ==> in_check(
                    position_after_move(pieces@, pieces@[i2], t),
                    color,
                ),
    {
        let piece = pieces[i];
        if piece.color == color {
            for tf in 0..8u8
                invariant
                    n == pieces@.len(),
                    has_king(pieces@, color),
                    i < n,
                    piece == pieces@[i as int],
                    piece.color == color,
                    forall|i2: int, t: Square|
                        0 <= i2 < i && pieces@[i2].color == color && t.on_board() && #[trigger]
                        move_allowed(pieces@, pieces@[i2], t) ==> in_check(
                            position_after_move(pieces@, pieces@[i2], t),
                            color,
                        ),
                    forall|t: Square|
                        t.file < tf && t.on_board() && #[trigger] move_allowed(pieces@, piece, t)
                            ==> in_check(position_after_move(pieces@, piece, t), color),
            {
                for tr in 0..8u8
                    invariant
                        n == pieces@.len(),
                        has_king(pieces@, color),
                        i < n,
                        tf < 8,
                        piece == pieces@[i as int],
                        piece.color == color,
                        forall|i2: int, t: Square|
                            0 <= i2 < i && pieces@[i2].color == color && t.on_board()
                                && #[trigger] move_allowed(pieces@, pieces@[i2], t) ==> in_check(
                                position_after_move(pieces@, pieces@[i2], t),
                                color,
                            ),
                        forall|t: Square|
                            t.file < tf && t.on_board() && #[trigger] move_allowed(
                                pieces@,
                                piece,
                                t,
                            ) ==> in_check(position_after_move(pieces@, piece, t), color),
                        forall|t: Square|
                            t.file == tf && t.rank < tr && #[trigger] move_allowed(
                                pieces@,
                                piece,
                                t,
                            ) ==> in_check(position_after_move(pieces@, piece, t), color),
                {
                    let target = Square { file: tf, rank: tr };
                    if piece.is_move_valid(target, pieces) {
                        let after = piece.get_pieces_after_move(target, pieces);
                        proof {
                            lemma_after_move_keeps_king(pieces@, piece, target, color);
                        }
                        if !is_check_on(&after, color) {
                            proof {
                                assert(move_allowed(pieces@, pieces@[i as int], target));
                                assert(!checkmated(pieces@, color));
                            }
                            return false;
                        }
                    }
                }
            }
        }
    }
    true
}

/// Whether a committed move is a castle: the mover is a king and its
/// file displacement is exactly two.
pub open spec fn is_castle_move(piece: Piece, target: Square) -> bool {
    piece.piece_type == PieceType::King && magnitude(target.file - piece.pos.file) == 2
}

/// The square the castling rook lands on: adjacent to the king's new
/// square, on the side of the king's origin — the square the king
/// passes through.
pub open spec fn castle_transit_square(king: Piece, target: Square) -> Square {
    if target.file > king.pos.file {
        Square { file: (king.pos.file + 1) as u8, rank: king.pos.rank }
    } else {
        Square { file: (king.pos.file - 1) as u8, rank: king.pos.rank }
    }
}

/// The castling rook after its relocation.
pub open spec fn castled_rook(rook: Piece, king: Piece, target: Square) -> Piece {
    Piece { has_moved: true, pos: castle_transit_square(king, target), ..rook }
}

/// The index of the first rook with which `king` may castle towards
/// `target`, scanning from index `from`.
pub open spec fn castle_rook_index(
    pieces: Seq<Piece>,
    king: Piece,
    target: Square,
    from: int,
) -> Option<int>
    decreases pieces.len() - from,
{
    if from < 0 || from >= pieces.len() {
        None
    } else if castle_rook_at(pieces, king, target, from) {
        Some(from)
    } else {
        castle_rook_index(pieces, king, target, from + 1)
    }
}

/// The position with every piece equal to `from` replaced by `to`.
pub open spec fn with_piece_replaced(pieces: Seq<Piece>, from: Piece, to: Piece) -> Seq<Piece> {
    pieces.map_values(
        |q: Piece|
            if q == from {
                to
            } else {
                q
            },
    )
}

/// The committed position after a whole turn: the move itself, and,
/// when the move is a castle, the relocation of the castling rook to
/// the king's transit square, marked moved.
pub open spec fn position_after_turn(pieces: Seq<Piece>, piece: Piece, target: Square) -> Seq<
    Piece,
> {
    let after = position_after_move(pieces, piece, target);
    if is_castle_move(piece, target) {
        match castle_rook_index(pieces, piece, target, 0) {
            Some(ri) => with_piece_replaced(
                after,
                pieces[ri],
                castled_rook(pieces[ri], piece, target),
            ),
            None => after,
        }
    } else {
        after
    }
}

/// Scanning from `from` yields the same rook as scanning from `i`
/// when no index in between fits.
proof fn lemma_castle_rook_index_skip(
    pieces: Seq<Piece>,
    king: Piece,
    target: Square,
    from: int,
    i: int,
)
    requires
        0 <= from <= i <= pieces.len(),
        forall|j: int| from <= j < i ==> !castle_rook_at(pieces, king, target, j),
    ensures
        castle_rook_index(pieces, king, target, from) == castle_rook_index(
            pieces,
            king,
            target,
            i,
        ),
    decreases i - from,
{
    if from < i {
        lemma_castle_rook_index_skip(pieces, king, target, from + 1, i);
    }
}

/// The index the scan yields fits the castle conditions.
pub(crate) proof fn lemma_castle_rook_index_some(
    pieces: Seq<Piece>,
    king: Piece,
    target: Square,
    from: int,
    i: int,
)
    requires
        castle_rook_index(pieces, king, target, from) == Some(i),
    ensures
        from <= i,
        castle_rook_at(pieces, king, target, i),
    decreases pieces.len() - from,
{
    if !(from < 0 || from >= pieces.len()) && !castle_rook_at(pieces, king, target, from) {
        lemma_castle_rook_index_some(pieces, king, target, from + 1, i);
    }
}

/// A failed scan means no index from `from` on fits the castle
/// conditions.
proof fn lemma_castle_rook_index_none(pieces: Seq<Piece>, king: Piece, target: Square, from: int)
    requires
        0 <= from,
        castle_rook_index(pieces, king, target, from) is None,
    ensures
        forall|j: int| from <= j < pieces.len() ==> !castle_rook_at(pieces, king, target, j),
    decreases pieces.len() - from,
{
    if from < pieces.len() {
        lemma_castle_rook_index_none(pieces, king, target, from + 1);
    }
}

/// Locates the first rook with which `king` may castle towards
/// `target`, if any.
pub(crate) fn find_castle_rook(pieces: &Vec<Piece>, king: Piece, target: Square) -> (r: Option<
    usize,
>)
    ensures
        match r {
            Some(ri) => ri < pieces@.len() && castle_rook_index(pieces@, king, target, 0)
                == Some(ri as int),
            None => castle_rook_index(pieces@, king, target, 0) is None,
        },
{
    let n = pieces.len();
    for i in 0..n
        invariant
            n == pieces@.len(),
            forall|j: int| 0 <= j < i ==> !castle_rook_at(pieces@, king, target, j),
    {
        let candidate = pieces[i];
        let kind_ok = match candidate.piece_type {
            PieceType::Rook => true,
            _ => false,
        };
        let side_ok = if target.file > king.pos.file {
            candidate.pos.file > king.pos.file
        } else {
            candidate.pos.file < king.pos.file
        };
        if kind_ok && candidate.color == king.color && !candidate.has_moved
            && candidate.pos.rank == king.pos.rank && side_ok && is_path_empty(
            king.pos,
            candidate.pos,
            pieces,
        ) {
            proof {
                assert(castle_rook_at(pieces@, king, target, i as int));
                lemma_castle_rook_index_skip(pieces@, king, target, 0, i as int);
            }
            return Some(i);
        }
    }
    proof {
        lemma_castle_rook_index_skip(pieces@, king, target, 0, pieces@.len() as int);
    }
    None
}

/// Every piece of the position stands on the board.
pub open spec fn all_on_board(pieces: Seq<Piece>) -> bool {
    forall|i: int| 0 <= i < pieces.len() ==> (#[trigger] pieces[i]).pos.on_board()
}

/// The shape of the position after a move: its squares are distinct,
/// each of its pieces is either the moved piece or a piece of the old
/// position that stood off the target, and it holds the moved piece
/// only if the mover stood in the old position.
pub open spec fn after_move_shaped(pieces: Seq<Piece>, piece: Piece, target: Square) -> bool {
    let after = position_after_move(pieces, piece, target);
    &&& distinct_squares(after)
    &&& (forall|k: int|
        0 <= k < after.len() ==> (#[trigger] after[k]) == moved_to(piece, target) || exists|i: int|
            0 <= i < pieces.len() && (#[trigger] pieces[i]) == after[k] && pieces[i].pos
                != target)
    &&& (after.contains(moved_to(piece, target)) ==> pieces.contains(piece))
}

/// Moving a piece keeps the squares of the position distinct, as long
/// as no piece of the mover's own colour stands on the target — which
/// `move_allowed` guarantees.
pub proof fn lemma_after_move_shape(pieces: Seq<Piece>, piece: Piece, target: Square)
    requires
        distinct_squares(pieces),
        forall|i: int|
            0 <= i < pieces.len() ==> !((#[trigger] pieces[i]).pos == target && pieces[i].color
                == piece.color),
    ensures
        after_move_shaped(pieces, piece, target),
    decreases pieces.len(),
{
    let after = position_after_move(pieces, piece, target);
    let moved = moved_to(piece, target);
    if pieces.len() == 0 {
    } else {
        let prefix = pieces.drop_last();
        let last = pieces.last();
        assert(forall|i: int| 0 <= i < prefix.len() ==> prefix[i] == pieces[i]);
        lemma_after_move_shape(prefix, piece, target);
        let front = position_after_move(prefix, piece, target);
        if last.pos == target && last.color != piece.color {
            // the capture: the result is the prefix's result
            assert forall|k: int| 0 <= k < after.len() implies (#[trigger] after[k]) == moved
                || exists|i: int|
                0 <= i < pieces.len() && (#[trigger] pieces[i]) == after[k] && pieces[i].pos
                    != target by {
                if after[k] != moved {
                    let i = choose|i: int|
                        0 <= i < prefix.len() && (#[trigger] prefix[i]) == front[k] && prefix[i].pos
                            != target;
                    assert(pieces[i] == after[k] && pieces[i].pos != target);
                }
            }
            if after.contains(moved) {
                let k = choose|k: int| 0 <= k < front.len() && front[k] == moved;
                assert(front.contains(moved));
                let i = choose|i: int| 0 <= i < prefix.len() && prefix[i] == piece;
                assert(pieces[i] == piece);
            }
        } else {
            let pushed: Piece = if last == piece {
                moved
            } else {
                last
            };
            assert(after == front.push(pushed));
            // no element of the front stands where the pushed piece stands
            assert forall|k: int| 0 <= k < front.len() implies front[k].pos != pushed.pos by {
                if front[k] == moved {
                    // a moved piece in the front means the mover stood in the prefix
                    assert(front.contains(moved));
                    let i = choose|i: int| 0 <= i < prefix.len() && prefix[i] == piece;
                    if last == piece {
                        // the mover would stand twice, on one square
                        assert(pieces[i].pos == last.pos);
                        assert(false);
                    } else {
                        // the kept last piece stands off the target
                        assert(last.pos != target);
                    }
                } else {
                    let i = choose|i: int|
                        0 <= i < prefix.len() && (#[trigger] prefix[i]) == front[k] && prefix[i].pos
                            != target;
                    if last == piece {
                    } else {
                        assert(pieces[i].pos != last.pos);
                    }
                }
            }
            assert(distinct_squares(after)) by {
                assert forall|a: int, b: int| 0 <= a < b < after.len() implies (
                #[trigger] after[a]).pos != (#[trigger] after[b]).pos by {
                    if b < after.len() - 1 {
                        assert(after[a] == front[a] && after[b] == front[b]);
                    } else {
                        assert(after[b] == pushed && after[a] == front[a]);
                    }
                }
            }
            assert forall|k: int| 0 <= k < after.len() implies (#[trigger] after[k]) == moved
                || exists|i: int|
                0 <= i < pieces.len() && (#[trigger] pieces[i]) == after[k] && pieces[i].pos
                    != target by {
                if k < after.len() - 1 {
                    if after[k] != moved {
                        let i = choose|i: int|
                            0 <= i < prefix.len() && (#[trigger] prefix[i]) == front[k]
                                && prefix[i].pos != target;
                        assert(pieces[i] == after[k] && pieces[i].pos != target);
                    }
                } else {
                    if pushed != moved {
                        assert(last.pos != target);
                        assert(pieces[pieces.len() - 1] == after[k] && pieces[pieces.len() - 1].pos
                            != target);
                    }
                }
            }
            if after.contains(moved) {
                let k = choose|k: int| 0 <= k < after.len() && after[k] == moved;
                if k < after.len() - 1 {
                    assert(front.contains(moved));
                    let i = choose|i: int| 0 <= i < prefix.len() && prefix[i] == piece;
                    assert(pieces[i] == piece);
                } else {
                    // the pushed piece is the moved one, so the last piece is the
                    // mover: a kept last piece stands off the target, the moved
                    // piece on it
                    assert(last == piece);
                    assert(pieces[pieces.len() - 1] == piece);
                }
            }
        }
    }
}

/// Moving a piece onto a board square keeps every piece on the board.
pub proof fn lemma_after_move_on_board(pieces: Seq<Piece>, piece: Piece, target: Square)
    requires
        all_on_board(pieces),
        target.on_board(),
    ensures
        all_on_board(position_after_move(pieces, piece, target)),
    decreases pieces.len(),
{
    if pieces.len() > 0 {
        let prefix = pieces.drop_last();
        assert(forall|i: int| 0 <= i < prefix.len() ==> prefix[i] == pieces[i]);
        lemma_after_move_on_board(prefix, piece, target);
        assert(pieces.last() == pieces[pieces.len() - 1]);
    }
}

/// A move never removes the opposing king, as long as it does not
/// land on the opposing king's square.
pub proof fn lemma_after_move_keeps_other_king(
    pieces: Seq<Piece>,
    piece: Piece,
    target: Square,
    color: PieceColor,
)
    requires
        has_king(pieces, color),
        color != piece.color,
        forall|i: int|
            0 <= i < pieces.len() && is_king_of(#[trigger] pieces[i], color) ==> pieces[i].pos
                != target,
    ensures
        has_king(position_after_move(pieces, piece, target), color),
    decreases pieces.len(),
{
    let after = position_after_move(pieces, piece, target);
    let k = choose|i: int| 0 <= i < pieces.len() && is_king_of(#[trigger] pieces[i], color);
    if k == pieces.len() - 1 {
        let last = pieces.last();
        assert(last == pieces[k]);
        assert(is_king_of(after[after.len() - 1], color));
    } else {
        let prefix = pieces.drop_last();
        assert(forall|i: int| 0 <= i < prefix.len() ==> prefix[i] == pieces[i]);
        assert(has_king(prefix, color)) by {
            assert(is_king_of(prefix[k], color));
        }
        lemma_after_move_keeps_other_king(prefix, piece, target, color);
        let front = position_after_move(prefix, piece, target);
        let j = choose|i: int| 0 <= i < front.len() && is_king_of(#[trigger] front[i], color);
        assert(is_king_of(after[j], color));
    }
}

/// An allowed move never targets a square held by a piece of the
/// mover's own colour.
pub proof fn lemma_move_allowed_no_ally_on_target(pieces: Seq<Piece>, piece: Piece, target: Square)
    requires
        distinct_squares(pieces),
        move_allowed(pieces, piece, target),
    ensures
        forall|i: int|
            0 <= i < pieces.len() ==> !((#[trigger] pieces[i]).pos == target && pieces[i].color
                == piece.color),
{
    assert forall|i: int|
        0 <= i < pieces.len() implies !((#[trigger] pieces[i]).pos == target && pieces[i].color
        == piece.color) by {
        if pieces[i].pos == target && pieces[i].color == piece.color {
            lemma_occupant_color_unique(pieces, target, i);
        }
    }
}

/// Relocating the castling rook onto the king's transit square keeps
/// the position well formed: the transit square is free after the
/// king's own move, lies on the board, and the rook keeps its kind
/// and colour.
pub proof fn lemma_castle_relocation(pieces: Seq<Piece>, piece: Piece, target: Square, ri: int)
    requires
        distinct_squares(pieces),
        all_on_board(pieces),
        pieces.contains(piece),
        move_allowed(pieces, piece, target),
        target.on_board(),
        is_castle_move(piece, target),
        castle_rook_at(pieces, piece, target, ri),
    ensures
        distinct_squares(
            with_piece_replaced(
                position_after_move(pieces, piece, target),
                pieces[ri],
                castled_rook(pieces[ri], piece, target),
            ),
        ),
        all_on_board(
            with_piece_replaced(
                position_after_move(pieces, piece, target),
                pieces[ri],
                castled_rook(pieces[ri], piece, target),
            ),
        ),
        forall|c: PieceColor|
            has_king(position_after_move(pieces, piece, target), c) ==> has_king(
                with_piece_replaced(
                    position_after_move(pieces, piece, target),
                    pieces[ri],
                    castled_rook(pieces[ri], piece, target),
                ),
                c,
            ),
{
    let after = position_after_move(pieces, piece, target);
    let rook = pieces[ri];
    let transit = castle_transit_square(piece, target);
    let rook2 = castled_rook(rook, piece, target);
    let committed = with_piece_replaced(after, rook, rook2);
    let moved = moved_to(piece, target);

    let mover_index = choose|i: int| 0 <= i < pieces.len() && pieces[i] == piece;
    assert(0 <= mover_index < pieces.len() && pieces[mover_index] == piece);
    assert(piece.pos.on_board());
    lemma_move_allowed_no_ally_on_target(pieces, piece, target);
    lemma_after_move_shape(pieces, piece, target);

    // the transit square lies on the board, beside the king's origin
    assert(transit.rank == piece.pos.rank);
    assert(transit.file == piece.pos.file + 1 || transit.file == piece.pos.file - 1);
    assert(transit.on_board());
    assert(transit != target);

    // no piece of the new position stands on the transit square: the
    // castle rule demands it empty, and the king lands elsewhere
    assert(occupant_color(pieces, transit) is None);
    assert forall|k: int| 0 <= k < after.len() implies (#[trigger] after[k]).pos != transit by {
        if after[k].pos == transit {
            if after[k] == moved {
                assert(moved.pos == target);
            } else {
                let i = choose|i: int|
                    0 <= i < pieces.len() && (#[trigger] pieces[i]) == after[k] && pieces[i].pos
                        != target;
                lemma_occupant_color_unique(pieces, transit, i);
            }
        }
    }

    assert(committed.len() == after.len());
    assert forall|a: int, b: int| 0 <= a < b < committed.len() implies (
    #[trigger] committed[a]).pos != (#[trigger] committed[b]).pos by {
        if after[a] == rook && after[b] == rook {
            assert(after[a].pos == after[b].pos);
        }
    }

    assert forall|k: int| 0 <= k < committed.len() implies (
    #[trigger] committed[k]).pos.on_board() by {
        lemma_after_move_on_board(pieces, piece, target);
        if after[k] != rook {
            assert(after[k].pos.on_board());
        }
    }

    assert forall|c: PieceColor| has_king(after, c) implies has_king(committed, c) by {
        let j = choose|i: int| 0 <= i < after.len() && is_king_of(#[trigger] after[i], c);
        assert(after[j] != rook);
        assert(is_king_of(committed[j], c));
    }
}

} // verus!
