//! The board geometry, the starting layout, and the turn state
//! machine that accepts or rejects candidate moves and applies the
//! accepted ones.

use vstd::prelude::*;

use crate::pieces::all_on_board;
use crate::pieces::castle_transit_square;
use crate::pieces::checkmated;
use crate::pieces::distinct_squares;
use crate::pieces::find_castle_rook;
use crate::pieces::has_king;
use crate::pieces::in_check;
use crate::pieces::is_castle_move;
use crate::pieces::is_check_mate_on;
use crate::pieces::is_check_on;
use crate::pieces::is_king_of;
use crate::pieces::lemma_after_move_keeps_king;
use crate::pieces::lemma_after_move_keeps_other_king;
use crate::pieces::lemma_after_move_on_board;
use crate::pieces::lemma_after_move_shape;
use crate::pieces::lemma_castle_relocation;
use crate::pieces::lemma_castle_rook_index_some;
use crate::pieces::lemma_move_allowed_no_ally_on_target;
use crate::pieces::move_allowed;
use crate::pieces::position_after_move;
use crate::pieces::position_after_turn;
use crate::pieces::with_piece_replaced;
use crate::pieces::Piece;
use crate::pieces::PieceColor;
use crate::pieces::PieceType;

verus! {

/// A board coordinate: a file (column) and a rank (row), each in 0..8
/// for a square that lies on the board.
#[derive(Clone, Copy, PartialEq, Eq, Structural, Debug)]
pub struct Square {
    pub file: u8,
    pub rank: u8,
}

impl Square {
    /// Whether the coordinates lie on the 8 x 8 board.
    pub open spec fn on_board(self) -> bool {
        self.file < 8 && self.rank < 8
    }

    /// Whether this square is drawn in the light colour on the usual
    /// alternating pattern.
    pub fn is_white(&self) -> (light: bool)
        ensures
            light == ((self.file + self.rank + 1) % 2 == 0),
    {
        (self.file as u16 + self.rank as u16 + 1) % 2 == 0
    }
}

/// Whether the game is waiting for a move or has been won.
#[derive(Clone, Copy, PartialEq, Eq, Structural, Debug)]
pub enum StatusType {
    Move,
    Win,
}

/// The kind standing on the given file of each side's back rank in
/// the starting layout.
pub open spec fn back_rank_kind(file: int) -> PieceType {
    if file == 0 || file == 7 {
        PieceType::Rook
    } else if file == 1 || file == 6 {
        PieceType::Knight
    } else if file == 2 || file == 5 {
        PieceType::Bishop
    } else if file == 3 {
        PieceType::Queen
    } else {
        PieceType::King
    }
}

/// The piece at index `i` of the standard starting layout, which
/// lists, file by file, the White back-rank piece, a White pawn, the
/// Black back-rank piece and a Black pawn.
pub open spec fn starting_piece(i: int) -> Piece {
    let file = i / 4;
    let slot = i % 4;
    if slot == 0 {
        Piece {
            color: PieceColor::White,
            piece_type: back_rank_kind(file),
            has_moved: false,
            pos: Square { file: file as u8, rank: 0 },
        }
    } else if slot == 1 {
        Piece {
            color: PieceColor::White,
            piece_type: PieceType::Pawn,
            has_moved: false,
            pos: Square { file: file as u8, rank: 1 },
        }
    } else if slot == 2 {
        Piece {
            color: PieceColor::Black,
            piece_type: back_rank_kind(file),
            has_moved: false,
            pos: Square { file: file as u8, rank: 7 },
        }
    } else {
        Piece {
            color: PieceColor::Black,
            piece_type: PieceType::Pawn,
            has_moved: false,
            pos: Square { file: file as u8, rank: 6 },
        }
    }
}

/// The standard 32-piece starting layout.
pub open spec fn starting_position() -> Seq<Piece> {
    Seq::new(32, |i: int| starting_piece(i))
}

/// The back-rank kind for the given file, executable.
fn back_rank_piece_kind(file: u8) -> (k: PieceType)
    ensures
        k == back_rank_kind(file as int),
{
    if file == 0 || file == 7 {
        PieceType::Rook
    } else if file == 1 || file == 6 {
        PieceType::Knight
    } else if file == 2 || file == 5 {
        PieceType::Bishop
    } else if file == 3 {
        PieceType::Queen
    } else {
        PieceType::King
    }
}

/// Builds the standard starting layout.
pub fn starting_pieces() -> (r: Vec<Piece>)
    ensures
        r@ == starting_position(),
{
    let mut r: Vec<Piece> = Vec::new();
    for f in 0..8u8
        invariant
            r@.len() == 4 * f,
            forall|k: int| 0 <= k < 4 * f ==> r@[k] == starting_piece(k),
    {
        proof {
            assert((4 * f) / 4 == f && (4 * f) % 4 == 0 && (4 * f + 1) / 4 == f && (4 * f + 1) % 4
                == 1 && (4 * f + 2) / 4 == f && (4 * f + 2) % 4 == 2 && (4 * f + 3) / 4 == f && (4
                * f + 3) % 4 == 3) by (nonlinear_arith);
        }
        let kind = back_rank_piece_kind(f);
        r.push(
            Piece {
                color: PieceColor::White,
                piece_type: kind,
                has_moved: false,
                pos: Square { file: f, rank: 0 },
            },
        );
        r.push(
            Piece {
                color: PieceColor::White,
                piece_type: PieceType::Pawn,
                has_moved: false,
                pos: Square { file: f, rank: 1 },
            },
        );
        r.push(
            Piece {
                color: PieceColor::Black,
                piece_type: kind,
                has_moved: false,
                pos: Square { file: f, rank: 7 },
            },
        );
        r.push(
            Piece {
                color: PieceColor::Black,
                piece_type: PieceType::Pawn,
                has_moved: false,
                pos: Square { file: f, rank: 6 },
            },
        );
    }
    proof {
        assert(r@ =~= starting_position());
    }
    r
}

/// The whole state of a game: the position, the side to move, and
/// whether the game has been won. When `status_type` is `Win`,
/// `color` holds the winner.
#[derive(Debug)]
pub struct GameStatus {
    pub pieces: Vec<Piece>,
    pub color: PieceColor,
    pub status_type: StatusType,
}

impl GameStatus {
    /// The invariant of a game state: each side has a king, no two
    /// pieces share a square, and every piece stands on the board.
    pub open spec fn wf(self) -> bool {
        &&& has_king(self.pieces@, PieceColor::White)
        &&& has_king(self.pieces@, PieceColor::Black)
        &&& distinct_squares(self.pieces@)
        &&& all_on_board(self.pieces@)
    }

    /// Advances the status after a committed move by the side held in
    /// `self.color`: when that side has checkmated the other in the
    /// position `pieces`, the game is won and `color` keeps the
    /// winner; otherwise the other side is to move.
    pub fn update(&mut self, pieces: &Vec<Piece>)
        requires
            has_king(pieces@, old(self).color.opposite()),
        ensures
            final(self).pieces@ == old(self).pieces@,
            checkmated(pieces@, old(self).color.opposite()) ==> final(self).status_type
                == StatusType::Win && final(self).color == old(self).color,
            !checkmated(pieces@, old(self).color.opposite()) ==> final(self).color == old(
                self,
            ).color.opposite() && final(self).status_type == old(self).status_type,
    {
        let mate = is_check_mate_on(pieces, self.color.other());
        if mate {
            self.status_type = StatusType::Win;
        } else {
            self.color = self.color.other();
        }
    }

    /// Attempts one whole turn with the given piece and target
    /// square: the move is rejected — leaving the state unchanged —
    /// when the game is already won, the piece does not belong to the
    /// side to move, the move breaks the movement rules, it would
    /// leave the mover's own king in check, or it is a castle whose
    /// king passes through an attacked square. An accepted move is
    /// committed (capture and castling rook relocation included), and
    /// the status advances: a checkmate of the opponent wins the game
    /// for the mover, otherwise the opponent is to move.
    ///
    /// A candidate of the side to move must stand in the position,
    /// with a target on the board; and no move that would otherwise
    /// be accepted may land on the opposing king: a position in which
    /// the king could be captured is already past the end of a game.
    pub fn attempt_move(&mut self, piece: Piece, target: Square) -> (accepted: bool)
        requires
            old(self).status_type == StatusType::Move && piece.color == old(self).color ==> old(
                self,
            ).wf() && old(self).pieces@.contains(piece) && target.on_board(),
            move_allowed(old(self).pieces@, piece, target) && !in_check(
                position_after_move(old(self).pieces@, piece, target),
                piece.color,
            ) ==> (forall|i: int|
                0 <= i < old(self).pieces@.len() && is_king_of(
                    #[trigger] old(self).pieces@[i],
                    piece.color.opposite(),
                ) ==> old(self).pieces@[i].pos != target),
        ensures
            accepted == (old(self).status_type != StatusType::Win && piece.color == old(self).color
                && move_allowed(old(self).pieces@, piece, target) && !in_check(
                position_after_move(old(self).pieces@, piece, target),
                piece.color,
            ) && (is_castle_move(piece, target) ==> !in_check(
                position_after_move(
                    old(self).pieces@,
                    piece,
                    castle_transit_square(piece, target),
                ),
                piece.color,
            ))),
            accepted ==> final(self).wf(),
            !accepted ==> final(self).pieces@ == old(self).pieces@ && final(self).color == old(
                self,
            ).color && final(self).status_type == old(self).status_type,
            accepted ==> final(self).pieces@ == position_after_turn(
                old(self).pieces@,
                piece,
                target,
            ),
            accepted ==> (if checkmated(
                position_after_turn(old(self).pieces@, piece, target),
                old(self).color.opposite(),
            ) {
                final(self).status_type == StatusType::Win && final(self).color == old(self).color
            } else {
                final(self).status_type == old(self).status_type && final(self).color == old(
                    self,
                ).color.opposite()
            }),
    {
        let game_over = match self.status_type {
            StatusType::Win => true,
            StatusType::Move => false,
        };
        if game_over || !(piece.color == self.color) {
            return false;
        }
        if !piece.is_move_valid(target, &self.pieces) {
            return false;
        }
        let after = piece.get_pieces_after_move(target, &self.pieces);
        proof {
            lemma_after_move_keeps_king(self.pieces@, piece, target, piece.color);
        }
        if is_check_on(&after, piece.color) {
            return false;
        }
        let df: i16 = target.file as i16 - piece.pos.file as i16;
        let adf: i16 = if df < 0 {
            -df
        } else {
            df
        };
        let is_king = match piece.piece_type {
            PieceType::King => true,
            _ => false,
        };
        if is_king && adf == 2 {
            // a castling king may not pass through an attacked square:
            // place it on the transit square alone and test for check
            let transit = Square {
                file: if target.file > piece.pos.file {
                    piece.pos.file + 1
                } else {
                    piece.pos.file - 1
                },
                rank: piece.pos.rank,
            };
            let on_transit = piece.get_pieces_after_move(transit, &self.pieces);
            proof {
                assert(transit == castle_transit_square(piece, target));
                lemma_after_move_keeps_king(self.pieces@, piece, transit, piece.color);
            }
            if is_check_on(&on_transit, piece.color) {
                return false;
            }
        }
        proof {
            lemma_move_allowed_no_ally_on_target(self.pieces@, piece, target);
            lemma_after_move_shape(self.pieces@, piece, target);
            lemma_after_move_on_board(self.pieces@, piece, target);
            lemma_after_move_keeps_other_king(
                self.pieces@,
                piece,
                target,
                piece.color.opposite(),
            );
        }
        let committed: Vec<Piece>;
        if is_king && adf == 2 {
            let rook_found = find_castle_rook(&self.pieces, piece, target);
            match rook_found {
                Some(ri) => {
                    let rook = self.pieces[ri];
                    proof {
                        lemma_castle_rook_index_some(self.pieces@, piece, target, 0, ri as int);
                        lemma_castle_relocation(self.pieces@, piece, target, ri as int);
                    }
                    let transit_file = if target.file > piece.pos.file {
                        piece.pos.file + 1
                    } else {
                        piece.pos.file - 1
                    };
                    let new_rook = Piece {
                        color: rook.color,
                        piece_type: rook.piece_type,
                        has_moved: true,
                        pos: Square { file: transit_file, rank: piece.pos.rank },
                    };
                    let n = after.len();
                    let mut rebuilt: Vec<Piece> = Vec::new();
                    for k in 0..n
                        invariant
                            n == after@.len(),
                            rebuilt@.len() == k,
                            forall|j: int|
                                0 <= j < k ==> rebuilt@[j] == (if after@[j] == rook {
                                    new_rook
                                } else {
                                    after@[j]
                                }),
                    {
                        let q = after[k];
                        if q == rook {
                            rebuilt.push(new_rook);
                        } else {
                            rebuilt.push(q);
                        }
                    }
                    proof {
                        assert(rebuilt@ =~= with_piece_replaced(after@, rook, new_rook));
                    }
                    committed = rebuilt;
                },
                None => {
                    committed = after;
                },
            }
        } else {
            committed = after;
        }
        let opp = piece.color.other();
        proof {
            assert(committed@ == position_after_turn(self.pieces@, piece, target));
            assert(has_king(committed@, piece.color));
            assert(has_king(committed@, opp));
        }
        let mate = is_check_mate_on(&committed, opp);
        self.pieces = committed;
        if mate {
            self.status_type = StatusType::Win;
        } else {
            self.color = opp;
        }
        true
    }
}

impl Default for GameStatus {
    /// A fresh game: the standard layout, White to move.
    fn default() -> (r: Self)
        ensures
            r.pieces@ == starting_position(),
            r.color == PieceColor::White,
            r.status_type == StatusType::Move,
            r.wf(),
    {
        let pieces = starting_pieces();
        proof {
            lemma_starting_position_wf();
        }
        GameStatus { pieces, color: PieceColor::White, status_type: StatusType::Move }
    }
}

/// The standard starting layout satisfies the game state invariant:
/// both kings stand in it, its squares are distinct, and every piece
/// is on the board.
pub proof fn lemma_starting_position_wf()
    ensures
        has_king(starting_position(), PieceColor::White),
        has_king(starting_position(), PieceColor::Black),
        distinct_squares(starting_position()),
        all_on_board(starting_position()),
{
    let s = starting_position();
    assert(is_king_of(s[16], PieceColor::White)) by {
        assert(16int / 4 == 4 && 16int % 4 == 0);
    }
    assert(is_king_of(s[18], PieceColor::Black)) by {
        assert(18int / 4 == 4 && 18int % 4 == 2);
    }
    assert forall|i: int, j: int| 0 <= i < j < s.len() implies (#[trigger] s[i]).pos != (
    #[trigger] s[j]).pos by {
        if i / 4 == j / 4 {
            assert(i % 4 != j % 4) by (nonlinear_arith)
                requires
                    i / 4 == j / 4,
                    i < j,
            ;
        }
    }
    assert forall|i: int| 0 <= i < s.len() implies (#[trigger] s[i]).pos.on_board() by {
        assert(0 <= i / 4 < 8);
    }
}

} // verus!
