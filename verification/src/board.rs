//! The board representation: twelve bitboards, one per piece variant, plus
//! the scalar game-state fields, with piece lookup by square and the standard
//! starting position.

use vstd::prelude::*;

use crate::bits::{file_mask, has_bit, lemma_mask_bit, rank_mask};
use crate::piece::{piece_from_index, piece_index, Color, Piece};

verus! {

/// A 64-bit occupancy mask, one bit per square.
pub type Bitboard = u64;

/// The mathematical view of a `GameState`: the same fields with the arrays
/// abstracted to sequences.
#[verifier::ext_equal]
pub struct BoardModel {
    pub boards: Seq<u64>,
    pub active: Color,
    pub castling: Seq<bool>,
    pub ep: Option<u8>,
    pub half: u8,
    pub full: u8,
}

/// A chess position snapshot: occupancy of each of the twelve piece variants
/// as a bitboard, whose move it is, the four castling flags in the order
/// [White king-side, White queen-side, Black king-side, Black queen-side],
/// the optional en-passant target square, and the two move counters.
#[derive(Debug, PartialEq)]
pub struct GameState {
    pub bitboards: [Bitboard; 12],
    pub active_color: Color,
    pub castling_rights: [bool; 4],
    pub en_passant_target: Option<u8>,
    pub half_move_clock: u8,
    pub full_move_number: u8,
}

impl View for GameState {
    type V = BoardModel;

    open spec fn view(&self) -> BoardModel {
        BoardModel {
            boards: self.bitboards@,
            active: self.active_color,
            castling: self.castling_rights@,
            ep: self.en_passant_target,
            half: self.half_move_clock,
            full: self.full_move_number,
        }
    }
}

/// A well-formed model: twelve boards, four castling flags, and an
/// en-passant target (when present) on the board, that is below 64.
pub open spec fn wf(m: BoardModel) -> bool {
    &&& m.boards.len() == 12
    &&& m.castling.len() == 4
    &&& (m.ep matches Some(s) ==> s < 64)
}

/// The bit index of the square at `rank` and grid column `col`: squares are
/// numbered `rank * 8 + file` where the stored file is mirrored, file 0 being
/// the "h" side, so column 0 (the "a" side) is file 7.
pub open spec fn square_index(rank: int, col: int) -> int {
    8 * rank + 7 - col
}

/// No two of the twelve bitboards claim the same square. This invariant is
/// assumed, not enforced: every position built by this library satisfies it,
/// and lookup scans are deterministic regardless.
pub open spec fn consistent(m: BoardModel) -> bool {
    forall|i: int, j: int, s: int|
        0 <= i < j < 12 && 0 <= s < 64 ==> !(#[trigger] has_bit(m.boards[i], s)
            && #[trigger] has_bit(m.boards[j], s))
}

/// The occupant of the square at `rank` and column `col`, scanning the
/// bitboards upward from index `i`: the first board whose mask holds the
/// square decides.
pub open spec fn occupant_from(m: BoardModel, rank: int, col: int, i: int) -> Option<Piece>
    decreases 12 - i,
{
    if i < 0 || i >= 12 {
        None
    } else if has_bit(m.boards[i], square_index(rank, col)) {
        piece_from_index(i)
    } else {
        occupant_from(m, rank, col, i + 1)
    }
}

/// The occupant of the square at `rank` and column `col`: the first of the
/// twelve bitboards, in index order, whose mask holds the square.
pub open spec fn occupant(m: BoardModel, rank: int, col: int) -> Option<Piece> {
    occupant_from(m, rank, col, 0)
}

/// The model of the standard starting position: white pawns on rank 1, black
/// pawns on rank 6, the standard back ranks, White to move, full castling
/// rights, no en-passant target, clocks 0 and 1.
pub open spec fn start_model() -> BoardModel {
    BoardModel {
        boards: seq![
            0x000000000000FF00u64,
            0x00FF000000000000u64,
            0x0000000000000042u64,
            0x4200000000000000u64,
            0x0000000000000024u64,
            0x2400000000000000u64,
            0x0000000000000081u64,
            0x8100000000000000u64,
            0x0000000000000010u64,
            0x1000000000000000u64,
            0x0000000000000008u64,
            0x0800000000000000u64,
        ],
        active: Color::White,
        castling: seq![true, true, true, true],
        ep: None,
        half: 0,
        full: 1,
    }
}

impl Default for GameState {
    /// The standard chess starting position.
    fn default() -> (r: Self)
        ensures
            r@ == start_model(),
    {
        let r = GameState {
            bitboards: [
                0x000000000000FF00u64,
                0x00FF000000000000u64,
                0x0000000000000042u64,
                0x4200000000000000u64,
                0x0000000000000024u64,
                0x2400000000000000u64,
                0x0000000000000081u64,
                0x8100000000000000u64,
                0x0000000000000010u64,
                0x1000000000000000u64,
                0x0000000000000008u64,
                0x0800000000000000u64,
            ],
            active_color: Color::White,
            castling_rights: [true, true, true, true],
            en_passant_target: None,
            half_move_clock: 0,
            full_move_number: 1,
        };
        proof {
            assert(r@.boards =~= start_model().boards);
            assert(r@.castling =~= start_model().castling);
            assert(r@ =~= start_model());
        }
        r
    }
}

impl GameState {
    /// The occupancy mask of one piece variant.
    pub fn get_bitboard(&self, piece: Piece) -> (r: &Bitboard)
        ensures
            *r == self@.boards[piece_index(piece)],
    {
        &self.bitboards[piece.index()]
    }

    /// The piece occupying the square at `rank` and grid column `col`, or
    /// `None` when the square is empty. Both coordinates must be below 8;
    /// the bitboards are scanned in index order and the first match decides.
    pub fn get_piece_at(&self, rank: usize, file: usize) -> (r: Option<Piece>)
        requires
            rank < 8,
            file < 8,
        ensures
            r == occupant(self@, rank as int, file as int),
    {
        let mask: u64 = (0xFFu64 << ((8 * rank) as u64)) & (0x8080808080808080u64 >> (file as u64));
        let mut i: usize = 0;
        while i < 12
            invariant
                rank < 8,
                file < 8,
                i <= 12,
                mask == rank_mask(rank as int) & file_mask(file as int),
                occupant(self@, rank as int, file as int) == occupant_from(
                    self@,
                    rank as int,
                    file as int,
                    i as int,
                ),
            decreases 12 - i,
        {
            let b: u64 = self.bitboards[i];
            proof {
                lemma_mask_bit(
                    b,
                    rank as u64,
                    file as u64,
                    (8 * rank) as u64,
                    (8 * rank + 7 - file) as u64,
                );
            }
            if mask & b != 0 {
                return Piece::from_index(i);
            }
            i = i + 1;
        }
        None
    }

    /// The full 8x8 grid of optional piece variants, indexed `[rank][col]`,
    /// equivalent to calling `get_piece_at` for every cell.
    pub fn get_board_state(&self) -> (r: [[Option<Piece>; 8]; 8])
        ensures
            forall|rank: int, col: int|
                0 <= rank < 8 && 0 <= col < 8 ==> r[rank][col] == occupant(self@, rank, col),
    {
        let mut board: [[Option<Piece>; 8]; 8] = [[None; 8]; 8];
        let mut rank: usize = 0;
        while rank < 8
            invariant
                rank <= 8,
                forall|r0: int, c0: int|
                    0 <= r0 < rank && 0 <= c0 < 8 ==> board[r0][c0] == occupant(self@, r0, c0),
            decreases 8 - rank,
        {
            let mut row: [Option<Piece>; 8] = [None; 8];
            let mut col: usize = 0;
            while col < 8
                invariant
                    rank < 8,
                    col <= 8,
                    forall|c0: int| 0 <= c0 < col ==> row[c0] == occupant(self@, rank as int, c0),
                decreases 8 - col,
            {
                row[col] = self.get_piece_at(rank, col);
                col = col + 1;
            }
            board[rank] = row;
            rank = rank + 1;
        }
        board
    }
}

/// Grid and bitboards are consistent: under the occupancy invariant, lookup
/// at a square returns a piece exactly when one of the twelve bitboards
/// holds that square's bit, and then the piece of that board's index.
pub proof fn lemma_grid_bitboard_consistent(m: BoardModel, rank: int, col: int)
    requires
        wf(m),
        consistent(m),
        0 <= rank < 8,
        0 <= col < 8,
    ensures
        (occupant(m, rank, col) is Some) <==> (exists|i: int|
            0 <= i < 12 && #[trigger] has_bit(m.boards[i], square_index(rank, col))),
        occupant(m, rank, col) matches Some(p) ==> (exists|i: int|
            0 <= i < 12 && #[trigger] has_bit(m.boards[i], square_index(rank, col))
                && piece_from_index(i) == Some(p) && (forall|j: int|
                0 <= j < 12 && j != i ==> !has_bit(m.boards[j], square_index(rank, col)))),
{
    lemma_occupant_scan(m, rank, col, 0);
    let s = square_index(rank, col);
    if occupant(m, rank, col) is Some {
        let p = occupant(m, rank, col)->Some_0;
        let i = choose|i: int|
            0 <= i < 12 && #[trigger] has_bit(m.boards[i], s) && piece_from_index(i) == Some(p);
        assert forall|j: int| 0 <= j < 12 && j != i implies !has_bit(m.boards[j], s) by {
            if j < i {
                assert(!(has_bit(m.boards[j], s) && has_bit(m.boards[i], s)));
            } else {
                assert(!(has_bit(m.boards[i], s) && has_bit(m.boards[j], s)));
            }
        }
    }
}

/// What the bitboard scan returns, from index `i` up: `None` exactly when no
/// board from `i` up holds the square, and otherwise the piece of some board
/// that does.
proof fn lemma_occupant_scan(m: BoardModel, rank: int, col: int, i: int)
    requires
        m.boards.len() == 12,
        0 <= rank < 8,
        0 <= col < 8,
        0 <= i <= 12,
    ensures
        (occupant_from(m, rank, col, i) is None) <==> (forall|k: int|
            i <= k < 12 ==> !(#[trigger] has_bit(m.boards[k], square_index(rank, col)))),
        occupant_from(m, rank, col, i) matches Some(p) ==> (exists|k: int|
            i <= k < 12 && #[trigger] has_bit(m.boards[k], square_index(rank, col))
                && piece_from_index(k) == Some(p)),
    decreases 12 - i,
{
    if i < 12 {
        lemma_occupant_scan(m, rank, col, i + 1);
        crate::piece::lemma_piece_index_bijection();
    }
}

} // verus!
