//! Laws of the rules engine, proved once and for all positions: no
//! self-capture, path blocking for the sliding pieces, the knight's
//! indifference to blocking, and the mirror symmetry of the movement
//! rules under rank reflection and colour swap.

use vstd::prelude::*;

use crate::board::Square;
use crate::pieces::all_on_board;
use crate::pieces::castle_rook_at;
use crate::pieces::castle_transit_square;
use crate::pieces::magnitude;
use crate::pieces::move_allowed;
use crate::pieces::occupant_color;
use crate::pieces::path_empty;
use crate::pieces::strictly_between;
use crate::pieces::Piece;
use crate::pieces::PieceColor;
use crate::pieces::PieceType;

verus! {

/// No self-capture: whenever a piece of the mover's own colour holds
/// the target square, the move is rejected, whatever the geometry.
pub proof fn lemma_no_self_capture(pieces: Seq<Piece>, piece: Piece, target: Square)
    requires
        occupant_color(pieces, target) == Some(piece.color),
    ensures
        !move_allowed(pieces, piece, target),
{
}

/// Path blocking: a rook, bishop or queen move across a square held
/// by any piece — of either colour — is rejected; only a piece
/// standing exactly on the destination can be captured.
pub proof fn lemma_path_blocking(pieces: Seq<Piece>, piece: Piece, target: Square, j: int)
    requires
        piece.piece_type == PieceType::Rook || piece.piece_type == PieceType::Bishop
            || piece.piece_type == PieceType::Queen,
        0 <= j < pieces.len(),
        strictly_between(piece.pos, target, pieces[j].pos),
    ensures
        !move_allowed(pieces, piece, target),
{
    assert(!path_empty(pieces, piece.pos, target));
}

/// The knight ignores blocking: its legality towards a target depends
/// only on the occupant of the target, never on pieces standing on
/// any other square.
pub proof fn lemma_knight_ignores_blocking(
    first: Seq<Piece>,
    second: Seq<Piece>,
    piece: Piece,
    target: Square,
)
    requires
        piece.piece_type == PieceType::Knight,
        occupant_color(first, target) == occupant_color(second, target),
    ensures
        move_allowed(first, piece, target) == move_allowed(second, piece, target),
{
}

/// The square reflected across the board's horizontal midline: the
/// file is kept, the rank runs backwards.
pub open spec fn mirrored_square(sq: Square) -> Square {
    Square { file: sq.file, rank: (7 - sq.rank) as u8 }
}

/// The piece with its colour swapped and its square reflected.
pub open spec fn mirrored_piece(piece: Piece) -> Piece {
    Piece { color: piece.color.opposite(), pos: mirrored_square(piece.pos), ..piece }
}

/// The position with every piece mirrored.
pub open spec fn mirrored_position(pieces: Seq<Piece>) -> Seq<Piece> {
    pieces.map_values(|p: Piece| mirrored_piece(p))
}

/// Mirroring a board occupant: the mirrored square of a mirrored
/// position holds the swapped colour of the original occupant.
proof fn lemma_mirror_occupant(pieces: Seq<Piece>, target: Square)
    requires
        all_on_board(pieces),
        target.on_board(),
    ensures
        occupant_color(mirrored_position(pieces), mirrored_square(target)) == (
        match occupant_color(pieces, target) {
            None => None::<PieceColor>,
            Some(c) => Some(c.opposite()),
        }),
    decreases pieces.len(),
{
    let ms = mirrored_position(pieces);
    let mt = mirrored_square(target);
    if pieces.len() > 0 {
        assert(ms[0] == mirrored_piece(pieces[0]));
        assert(pieces[0].pos.on_board());
        assert((ms[0].pos == mt) == (pieces[0].pos == target));
        if pieces[0].pos != target {
            let rest = pieces.subrange(1, pieces.len() as int);
            assert(forall|i: int| 0 <= i < rest.len() ==> rest[i] == pieces[i + 1]);
            lemma_mirror_occupant(rest, target);
            assert(ms.subrange(1, ms.len() as int) =~= mirrored_position(rest));
        }
    }
}

/// Mirroring keeps the between-squares relation: reflecting the rank
/// negates the rank deltas and keeps the file deltas, which the
/// relation does not distinguish.
proof fn lemma_mirror_between(origin: Square, end: Square, mid: Square)
    requires
        origin.on_board(),
        end.on_board(),
        mid.on_board(),
    ensures
        strictly_between(mirrored_square(origin), mirrored_square(end), mirrored_square(mid))
            == strictly_between(origin, end, mid),
{
    let df = end.file - origin.file;
    let dr = end.rank - origin.rank;
    let mf = mid.file - origin.file;
    let mr = mid.rank - origin.rank;
    let rdr = mirrored_square(end).rank - mirrored_square(origin).rank;
    let rmr = mirrored_square(mid).rank - mirrored_square(origin).rank;
    assert(rdr == -dr && rmr == -mr);
    if !(df == 0 && dr == 0) && df != 0 {
        assert((rmr * df == mf * rdr) == (mr * df == mf * dr)) by (nonlinear_arith)
            requires
                rmr == -mr && rdr == -dr,
        ;
    }
}

/// Mirroring keeps path emptiness.
proof fn lemma_mirror_path(pieces: Seq<Piece>, origin: Square, end: Square)
    requires
        all_on_board(pieces),
        origin.on_board(),
        end.on_board(),
    ensures
        path_empty(mirrored_position(pieces), mirrored_square(origin), mirrored_square(end))
            == path_empty(pieces, origin, end),
{
    let ms = mirrored_position(pieces);
    let mo = mirrored_square(origin);
    let me = mirrored_square(end);
    assert forall|i: int| 0 <= i < pieces.len() implies strictly_between(
        mo,
        me,
        (#[trigger] ms[i]).pos,
    ) == strictly_between(origin, end, pieces[i].pos) by {
        assert(ms[i] == mirrored_piece(pieces[i]));
        assert(pieces[i].pos.on_board());
        lemma_mirror_between(origin, end, pieces[i].pos);
    }
    if path_empty(pieces, origin, end) {
        assert forall|i: int| 0 <= i < ms.len() implies !strictly_between(
            mo,
            me,
            (#[trigger] ms[i]).pos,
        ) by {
            assert(!strictly_between(origin, end, pieces[i].pos));
        }
    }
    if path_empty(ms, mo, me) {
        assert forall|i: int| 0 <= i < pieces.len() implies !strictly_between(
            origin,
            end,
            (#[trigger] pieces[i]).pos,
        ) by {
            assert(!strictly_between(mo, me, ms[i].pos));
        }
    }
}

/// Mirroring keeps the castling-rook conditions, index by index.
proof fn lemma_mirror_castle_rook(pieces: Seq<Piece>, king: Piece, target: Square, i: int)
    requires
        all_on_board(pieces),
        king.pos.on_board(),
        target.on_board(),
    ensures
        castle_rook_at(
            mirrored_position(pieces),
            mirrored_piece(king),
            mirrored_square(target),
            i,
        ) == castle_rook_at(pieces, king, target, i),
{
    let ms = mirrored_position(pieces);
    let mk = mirrored_piece(king);
    if 0 <= i < pieces.len() {
        assert(ms[i] == mirrored_piece(pieces[i]));
        assert(pieces[i].pos.on_board());
        assert((ms[i].color == mk.color) == (pieces[i].color == king.color));
        assert((ms[i].pos.rank == mk.pos.rank) == (pieces[i].pos.rank == king.pos.rank));
        lemma_mirror_path(pieces, king.pos, pieces[i].pos);
    }
}

/// Mirror symmetry of the movement rules: a move is legal exactly
/// when the move of the colour-swapped piece, between the
/// rank-reflected squares, is legal in the colour-swapped,
/// rank-reflected position. In particular White's and Black's rules
/// agree on every geometrically mirrored pair of moves.
pub proof fn lemma_mirror_symmetry(pieces: Seq<Piece>, piece: Piece, target: Square)
    requires
        all_on_board(pieces),
        piece.pos.on_board(),
        target.on_board(),
    ensures
        move_allowed(mirrored_position(pieces), mirrored_piece(piece), mirrored_square(target))
            == move_allowed(pieces, piece, target),
{
    let ms = mirrored_position(pieces);
    let mp = mirrored_piece(piece);
    let mt = mirrored_square(target);
    lemma_mirror_occupant(pieces, target);
    lemma_mirror_path(pieces, piece.pos, target);
    assert(mt.file - mp.pos.file == target.file - piece.pos.file);
    assert(mt.rank - mp.pos.rank == -(target.rank - piece.pos.rank));
    if piece.piece_type == PieceType::King {
        assert forall|i: int|
            castle_rook_at(ms, mp, mt, i) == castle_rook_at(pieces, piece, target, i) by {
            lemma_mirror_castle_rook(pieces, piece, target, i);
        }
        if magnitude(target.file - piece.pos.file) == 2 {
            // the king's transit square mirrors to the mirrored
            // king's transit square, and stays empty exactly when the
            // original is
            let transit = castle_transit_square(piece, target);
            assert(transit.on_board());
            lemma_mirror_occupant(pieces, transit);
            assert(castle_transit_square(mp, mt) == mirrored_square(transit));
        }
        if exists|i: int| #[trigger] castle_rook_at(pieces, piece, target, i) {
            let w = choose|i: int| #[trigger] castle_rook_at(pieces, piece, target, i);
            assert(castle_rook_at(ms, mp, mt, w));
        }
        if exists|i: int| #[trigger] castle_rook_at(ms, mp, mt, i) {
            let w = choose|i: int| #[trigger] castle_rook_at(ms, mp, mt, i);
            assert(castle_rook_at(pieces, piece, target, w));
        }
    }
}

} // verus!
