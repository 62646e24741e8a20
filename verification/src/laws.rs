//! The laws the codec obeys, stated over the spec-level grammar and proved
//! once and for all: each field of a serialized position parses back to the
//! value it came from, and a well-formed consistent position survives the
//! full round trip.

use vstd::prelude::*;

use crate::bits::{has_bit, lemma_or_bit};
use crate::board::{
    consistent, lemma_grid_bitboard_consistent, occupant, square_index, start_model, wf,
    BoardModel,
};
use crate::codec::{
    all_digits, blank_chars, castling_chars, color_chars, dec_chars, dec_digit, dec_val,
    digit_val, ep_chars, fen_chars, is_digit, parse_castling, parse_color, parse_groups, parse_placement,
    parse_rank_chars, parse_u8, placement_chars, placement_from, rank_chars, rank_letter,
    spec_parse, split_on, square_chars, square_from_chars, zero_boards, FenError,
};
use crate::piece::{piece_char, piece_from_char, piece_from_index, piece_index, Color};

verus! {

/// A character that may stand inside a rank group: a piece letter or a
/// digit.
pub open spec fn is_placement_char(c: char) -> bool {
    piece_from_char(c) is Some || is_digit(c)
}

/// A string without the separator splits to itself alone.
proof fn lemma_split_no_sep(a: Seq<char>, sep: char)
    requires
        forall|i: int| 0 <= i < a.len() ==> a[i] != sep,
    ensures
        split_on(a, sep) == seq![a],
    decreases a.len(),
{
    if a.len() == 0 {
        assert(a =~= Seq::<char>::empty());
        assert(split_on(a, sep) =~= seq![a]);
    } else {
        let t = a.drop_first();
        assert(a[0] != sep);
        assert(forall|i: int| 0 <= i < t.len() ==> t[i] == a[i + 1]);
        lemma_split_no_sep(t, sep);
        let rest = split_on(t, sep);
        assert(rest == seq![t]);
        assert(rest[0] == t);
        assert(rest.drop_first() =~= Seq::<Seq<char>>::empty());
        assert(split_on(a, sep) == seq![seq![a[0]] + rest[0]] + rest.drop_first());
        assert(seq![a[0]] + rest[0] =~= a);
        assert(split_on(a, sep) =~= seq![a]);
    }
}

/// Splitting at the first separator: a separator-free prefix becomes the
/// first piece, and the remainder splits on its own.
proof fn lemma_split_concat(a: Seq<char>, b: Seq<char>, sep: char)
    requires
        forall|i: int| 0 <= i < a.len() ==> a[i] != sep,
    ensures
        split_on(a + seq![sep] + b, sep) == seq![a] + split_on(b, sep),
    decreases a.len(),
{
    if a.len() == 0 {
        let s = a + seq![sep] + b;
        assert(s =~= seq![sep] + b);
        assert(s[0] == sep);
        assert(s.drop_first() =~= b);
        assert(a =~= Seq::<char>::empty());
        assert(split_on(s, sep) =~= seq![a] + split_on(b, sep));
    } else {
        let t = a.drop_first();
        assert(forall|i: int| 0 <= i < t.len() ==> t[i] == a[i + 1]);
        lemma_split_concat(t, b, sep);
        let s = a + seq![sep] + b;
        assert(s.len() > 0 && s[0] == a[0] && a[0] != sep);
        assert(s.drop_first() =~= t + seq![sep] + b);
        let rest = split_on(s.drop_first(), sep);
        assert(rest == seq![t] + split_on(b, sep));
        assert(rest[0] == t);
        assert(rest.drop_first() =~= split_on(b, sep));
        assert(seq![s[0]] + rest[0] =~= a);
        assert(split_on(s, sep) =~= seq![a] + split_on(b, sep));
    }
}

/// Every character a rank group emits is a piece letter or a digit; in
/// particular none is a space or a slash.
proof fn lemma_rank_chars_class(m: BoardModel, rank: int, col: int, blanks: int)
    requires
        0 <= blanks,
        blanks + 8 - col <= 8,
        col <= 8,
    ensures
        forall|i: int|
            0 <= i < rank_chars(m, rank, col, blanks).len() ==> is_placement_char(
                #[trigger] rank_chars(m, rank, col, blanks)[i],
            ),
    decreases 8 - col,
{
    let s = rank_chars(m, rank, col, blanks);
    if col < 0 || col >= 8 {
        if blanks > 0 {
            assert(is_digit(dec_digit(blanks)));
            assert forall|i: int| 0 <= i < s.len() implies is_placement_char(s[i]) by {
                assert(s[i] == dec_digit(blanks));
            }
        }
    } else {
        match occupant(m, rank, col) {
            Some(p) => {
                lemma_rank_chars_class(m, rank, col + 1, 0);
                crate::piece::lemma_piece_char_bijection();
                let bc = blank_chars(blanks);
                let tail = rank_chars(m, rank, col + 1, 0);
                assert(s == bc + seq![piece_char(p)] + tail);
                assert forall|i: int| 0 <= i < s.len() implies is_placement_char(s[i]) by {
                    if i < bc.len() {
                        assert(s[i] == dec_digit(blanks));
                        assert(is_digit(dec_digit(blanks)));
                    } else if i == bc.len() {
                        assert(s[i] == piece_char(p));
                        assert(piece_from_char(piece_char(p)) is Some);
                    } else {
                        assert(s[i] == tail[i - bc.len() - 1]);
                        assert(is_placement_char(tail[i - bc.len() - 1]));
                    }
                }
            },
            None => {
                lemma_rank_chars_class(m, rank, col + 1, blanks + 1);
                let t2 = rank_chars(m, rank, col + 1, blanks + 1);
                assert(s == t2);
                assert forall|i: int| 0 <= i < s.len() implies is_placement_char(s[i]) by {
                    assert(is_placement_char(t2[i]));
                }
            },
        }
    }
}

/// The boards after recording the occupants of `rank` from column `col` on,
/// each at its square's bit in its piece's board.
pub open spec fn fill_from(m: BoardModel, rank: int, col: int, boards: Seq<u64>) -> Seq<u64>
    decreases 8 - col,
{
    if col < 0 || col >= 8 {
        boards
    } else {
        match occupant(m, rank, col) {
            Some(p) => fill_from(
                m,
                rank,
                col + 1,
                boards.update(
                    piece_index(p),
                    boards[piece_index(p)] | (1u64 << (square_index(rank, col) as u64)),
                ),
            ),
            None => fill_from(m, rank, col + 1, boards),
        }
    }
}

/// The boards after recording ranks `rank` down to rank 0.
pub open spec fn fill_ranks(m: BoardModel, rank: int, boards: Seq<u64>) -> Seq<u64>
    decreases rank + 1,
{
    if rank < 0 {
        boards
    } else {
        fill_ranks(m, rank - 1, fill_from(m, rank, 0, boards))
    }
}

/// Recording a rank's occupants does not change the number of boards.
proof fn lemma_fill_from_len(m: BoardModel, rank: int, col: int, boards: Seq<u64>)
    requires
        boards.len() == 12,
    ensures
        fill_from(m, rank, col, boards).len() == boards.len(),
    decreases 8 - col,
{
    if 0 <= col < 8 {
        match occupant(m, rank, col) {
            Some(p) => {
                let b2 = boards.update(
                    piece_index(p),
                    boards[piece_index(p)] | (1u64 << (square_index(rank, col) as u64)),
                );
                assert(0 <= piece_index(p) < 12);
                assert(b2.len() == boards.len());
                lemma_fill_from_len(m, rank, col + 1, b2);
                assert(fill_from(m, rank, col, boards) == fill_from(m, rank, col + 1, b2));
            },
            None => {
                lemma_fill_from_len(m, rank, col + 1, boards);
                assert(fill_from(m, rank, col, boards) == fill_from(m, rank, col + 1, boards));
            },
        }
    }
}

/// Recording several ranks does not change the number of boards.
proof fn lemma_fill_ranks_len(m: BoardModel, rank: int, boards: Seq<u64>)
    requires
        boards.len() == 12,
    ensures
        fill_ranks(m, rank, boards).len() == boards.len(),
    decreases rank + 1,
{
    if rank >= 0 {
        lemma_fill_from_len(m, rank, 0, boards);
        lemma_fill_ranks_len(m, rank - 1, fill_from(m, rank, 0, boards));
    }
}

/// Parsing what a rank emits records exactly that rank's occupants: the
/// serialized group, read with the file counter where the pending blank run
/// began, fills the boards as `fill_from` does.
proof fn lemma_rank_parse(m: BoardModel, rank: int, col: int, blanks: int, boards: Seq<u64>)
    requires
        boards.len() == 12,
        0 <= rank < 8,
        0 <= blanks <= col <= 8,
        forall|c: int| col - blanks <= c < col ==> occupant(m, rank, c) is None,
    ensures
        parse_rank_chars(rank_chars(m, rank, col, blanks), rank, col - blanks, boards) == Some(
            fill_from(m, rank, col, boards),
        ),
    decreases 8 - col,
{
    let s = rank_chars(m, rank, col, blanks);
    if col >= 8 {
        assert(fill_from(m, rank, col, boards) == boards);
        if blanks > 0 {
            assert(s == seq![dec_digit(blanks)]);
            assert(s[0] == dec_digit(blanks));
            assert(piece_from_char(dec_digit(blanks)) is None);
            assert(is_digit(dec_digit(blanks)) && digit_val(dec_digit(blanks)) == blanks);
            assert(s.drop_first() =~= Seq::<char>::empty());
            assert(col == 8);
            assert(parse_rank_chars(s, rank, col - blanks, boards) == parse_rank_chars(
                s.drop_first(),
                rank,
                col,
                boards,
            ));
            assert(parse_rank_chars(s.drop_first(), rank, col, boards) == Some(boards));
        } else {
            assert(s =~= Seq::<char>::empty());
            assert(parse_rank_chars(s, rank, col - blanks, boards) == Some(boards));
        }
    } else {
        match occupant(m, rank, col) {
            Some(p) => {
                crate::piece::lemma_piece_char_bijection();
                let letter = piece_char(p);
                let tail = rank_chars(m, rank, col + 1, 0);
                let bc = blank_chars(blanks);
                assert(s == bc + seq![letter] + tail);
                let idx = piece_index(p);
                assert(0 <= idx < 12);
                let b2 = boards.update(
                    idx,
                    boards[idx] | (1u64 << (square_index(rank, col) as u64)),
                );
                assert(b2.len() == 12);
                lemma_rank_parse(m, rank, col + 1, 0, b2);
                assert(parse_rank_chars(tail, rank, col + 1, b2) == Some(
                    fill_from(m, rank, col + 1, b2),
                ));
                assert(piece_from_char(letter) == Some(p));
                if blanks > 0 {
                    assert(s[0] == dec_digit(blanks));
                    assert(piece_from_char(s[0]) is None);
                    assert(is_digit(s[0]) && digit_val(s[0]) == blanks);
                    let s1 = seq![letter] + tail;
                    assert(s.drop_first() =~= s1);
                    assert(parse_rank_chars(s, rank, col - blanks, boards) == parse_rank_chars(
                        s1,
                        rank,
                        col,
                        boards,
                    ));
                    assert(s1[0] == letter);
                    assert(s1.drop_first() =~= tail);
                    assert(parse_rank_chars(s1, rank, col, boards) == parse_rank_chars(
                        tail,
                        rank,
                        col + 1,
                        b2,
                    ));
                } else {
                    assert(bc =~= Seq::<char>::empty());
                    assert(s =~= seq![letter] + tail);
                    assert(s[0] == letter);
                    assert(s.drop_first() =~= tail);
                    assert(parse_rank_chars(s, rank, col - blanks, boards) == parse_rank_chars(
                        tail,
                        rank,
                        col + 1,
                        b2,
                    ));
                }
                assert(fill_from(m, rank, col, boards) == fill_from(m, rank, col + 1, b2));
            },
            None => {
                lemma_rank_parse(m, rank, col + 1, blanks + 1, boards);
                assert(s == rank_chars(m, rank, col + 1, blanks + 1));
                assert(parse_rank_chars(s, rank, col - blanks, boards) == Some(
                    fill_from(m, rank, col + 1, boards),
                ));
                assert(fill_from(m, rank, col, boards) == fill_from(m, rank, col + 1, boards));
            },
        }
    }
}

/// Parsing the groups a position emits, from group `k` on, records ranks
/// `7 - k` down to 0.
proof fn lemma_groups_parse(m: BoardModel, groups: Seq<Seq<char>>, k: int, boards: Seq<u64>)
    requires
        boards.len() == 12,
        groups.len() == 8,
        0 <= k <= 8,
        forall|j: int| k <= j < 8 ==> groups[j] == rank_chars(m, 7 - j, 0, 0),
    ensures
        parse_groups(groups, k, boards) == Some(fill_ranks(m, 7 - k, boards)),
    decreases 8 - k,
{
    if k < 8 {
        lemma_rank_parse(m, 7 - k, 0, 0, boards);
        let b2 = fill_from(m, 7 - k, 0, boards);
        lemma_fill_from_len(m, 7 - k, 0, boards);
        lemma_groups_parse(m, groups, k + 1, b2);
        assert(groups[k] == rank_chars(m, 7 - k, 0, 0));
        assert(parse_rank_chars(groups[k], 7 - k, 0, boards) == Some(b2));
    }
}

/// The placement field splits at `/` into the rank groups it was joined
/// from, topmost first.
proof fn lemma_placement_split(m: BoardModel, rank: int)
    requires
        0 <= rank <= 7,
    ensures
        split_on(placement_from(m, rank), '/') == Seq::new(
            (rank + 1) as nat,
            |k: int| rank_chars(m, rank - k, 0, 0),
        ),
    decreases rank,
{
    let g = rank_chars(m, rank, 0, 0);
    lemma_rank_chars_class(m, rank, 0, 0);
    assert forall|i: int| 0 <= i < g.len() implies g[i] != '/' by {
        assert(is_placement_char(g[i]));
        assert(piece_from_char('/') is None && !is_digit('/'));
    }
    if rank == 0 {
        lemma_split_no_sep(g, '/');
        assert(seq![g] =~= Seq::new(1nat, |k: int| rank_chars(m, 0 - k, 0, 0)));
    } else {
        lemma_placement_split(m, rank - 1);
        lemma_split_concat(g, placement_from(m, rank - 1), '/');
        assert(placement_from(m, rank) == g + seq!['/'] + placement_from(m, rank - 1));
        assert(seq![g] + Seq::new(rank as nat, |k: int| rank_chars(m, rank - 1 - k, 0, 0))
            =~= Seq::new((rank + 1) as nat, |k: int| rank_chars(m, rank - k, 0, 0)));
    }
}

/// Parsing the placement field a position emits records every rank onto
/// empty boards.
proof fn lemma_placement_parse(m: BoardModel)
    ensures
        parse_placement(placement_chars(m)) == Some(fill_ranks(m, 7, zero_boards())),
{
    lemma_placement_split(m, 7);
    let groups = split_on(placement_chars(m), '/');
    assert(groups.len() == 8);
    assert(zero_boards().len() == 12);
    lemma_groups_parse(m, groups, 0, zero_boards());
}

/// En-passant round trip: the two-character token of any square 0..64
/// decodes back to that square.
pub proof fn lemma_square_token_round_trip(s: u8)
    requires
        s < 64,
    ensures
        square_from_chars(square_chars(s as int)) == Some(s),
{
    let t = square_chars(s as int);
    assert(t[0] == rank_letter(s as int / 8));
    assert(t[1] == dec_digit(s as int % 8 + 1));
    assert(rank_letter(s as int / 8) as u32 == 97 + s as int / 8);
    assert(dec_digit(s as int % 8 + 1) as u32 == 49 + s as int % 8);
}

/// The en-passant field round trip: a target square's token is never `-`
/// and decodes back to the square; an absent target is encoded as `-`.
pub proof fn lemma_ep_field_round_trip(ep: Option<u8>)
    requires
        ep matches Some(s) ==> s < 64,
    ensures
        ep matches Some(s) ==> ep_chars(ep) != seq!['-'] && square_from_chars(ep_chars(ep))
            == Some(s),
        ep is None ==> ep_chars(ep) == seq!['-'],
{
    if ep is Some {
        lemma_square_token_round_trip(ep->Some_0);
        assert(ep_chars(ep).len() == 2 && seq!['-'].len() == 1);
    }
}

/// Castling field round trip: for every combination of the four flags,
/// serializing then parsing reproduces the same flag vector; in particular
/// the all-false case serializes to `-` and parses back to all-false.
pub proof fn lemma_castling_round_trip(c: Seq<bool>)
    requires
        c.len() == 4,
    ensures
        parse_castling(castling_chars(c)) == c,
        !c[0] && !c[1] && !c[2] && !c[3] ==> castling_chars(c) == seq!['-'],
{
    let t = castling_chars(c);
    if c[0] {
        assert(t[0] == 'K');
        assert(t.contains('K'));
    } else {
        assert(forall|i: int| 0 <= i < t.len() ==> t[i] != 'K');
    }
    if c[1] {
        let j = if c[0] {
            1int
        } else {
            0int
        };
        assert(t[j] == 'Q');
        assert(t.contains('Q'));
    } else {
        assert(forall|i: int| 0 <= i < t.len() ==> t[i] != 'Q');
    }
    if c[2] {
        let j = (if c[0] {
            1int
        } else {
            0int
        }) + (if c[1] {
            1int
        } else {
            0int
        });
        assert(t[j] == 'k');
        assert(t.contains('k'));
    } else {
        assert(forall|i: int| 0 <= i < t.len() ==> t[i] != 'k');
    }
    if c[3] {
        let j = (if c[0] {
            1int
        } else {
            0int
        }) + (if c[1] {
            1int
        } else {
            0int
        }) + (if c[2] {
            1int
        } else {
            0int
        });
        assert(t[j] == 'q');
        assert(t.contains('q'));
    } else {
        assert(forall|i: int| 0 <= i < t.len() ==> t[i] != 'q');
    }
    assert(parse_castling(t) =~= c);
}

/// The active-color field round trip: `w` parses back to White and `b` to
/// Black.
pub proof fn lemma_color_round_trip(c: Color)
    ensures
        parse_color(color_chars(c)) == c,
{
    if c is Black {
        assert(color_chars(c)[0] == 'b');
    }
}

/// The decimal rendering of a number below 256 is a non-empty digit string
/// with that value, so it parses back to the same number.
pub proof fn lemma_dec_round_trip(n: u8)
    ensures
        parse_u8(dec_chars(n as int)) == Some(n),
{
    lemma_dec_chars_val(n as int);
}

/// The decimal rendering of any non-negative number is all digits and reads
/// back to the same value.
proof fn lemma_dec_chars_val(n: int)
    requires
        0 <= n,
    ensures
        dec_chars(n).len() > 0,
        all_digits(dec_chars(n)),
        dec_val(dec_chars(n)) == n,
    decreases n,
{
    if n < 10 {
        let s = dec_chars(n);
        assert(s == seq![dec_digit(n)]);
        assert(s.drop_last() =~= Seq::<char>::empty());
        assert(s.last() == dec_digit(n));
        assert(digit_val(dec_digit(n)) == n);
        assert(dec_val(s) == dec_val(s.drop_last()) * 10 + digit_val(s.last()));
        assert(dec_val(Seq::<char>::empty()) == 0);
    } else {
        lemma_dec_chars_val(n / 10);
        let s = dec_chars(n);
        let t = dec_chars(n / 10);
        assert(s == t.push(dec_digit(n % 10)));
        assert(s.drop_last() =~= t);
        assert(s.last() == dec_digit(n % 10));
        assert(digit_val(dec_digit(n % 10)) == n % 10);
        assert(dec_val(s) == dec_val(t) * 10 + n % 10);
        assert(forall|i: int| 0 <= i < t.len() ==> s[i] == t[i]);
    }
}

/// Which bits recording a rank sets: a bit of the result is a bit already
/// present, or the bit of a square of this rank at column `col` or beyond
/// that the position's own board for that piece holds.
proof fn lemma_fill_from_bits(m: BoardModel, rank: int, col: int, boards: Seq<u64>, i: int, s: int)
    requires
        wf(m),
        consistent(m),
        boards.len() == 12,
        0 <= rank < 8,
        0 <= col <= 8,
        0 <= i < 12,
        0 <= s < 64,
    ensures
        has_bit(fill_from(m, rank, col, boards)[i], s) <==> (has_bit(boards[i], s) || (s / 8
            == rank && col <= 7 - (s % 8) && has_bit(m.boards[i], s))),
    decreases 8 - col,
{
    if col < 8 {
        let sq = square_index(rank, col);
        assert(0 <= sq < 64);
        assert(s == sq <==> (s / 8 == rank && 7 - (s % 8) == col));
        lemma_grid_bitboard_consistent(m, rank, col);
        match occupant(m, rank, col) {
            Some(p) => {
                crate::piece::lemma_piece_index_bijection();
                let idx = piece_index(p);
                assert(0 <= idx < 12);
                let b2 = boards.update(idx, boards[idx] | (1u64 << (sq as u64)));
                lemma_fill_from_bits(m, rank, col + 1, b2, i, s);
                let w = choose|w: int|
                    0 <= w < 12 && #[trigger] has_bit(m.boards[w], sq) && piece_from_index(w)
                        == Some(p) && (forall|j: int|
                        0 <= j < 12 && j != w ==> !has_bit(m.boards[j], sq));
                assert(piece_from_index(w) == Some(p));
                assert(idx == w);
                lemma_or_bit(boards[idx], sq as u64, s as u64);
                assert(has_bit(b2[idx], s) <==> (s == sq || has_bit(boards[idx], s)));
                if i != idx {
                    assert(b2[i] == boards[i]);
                    assert(!has_bit(m.boards[i], sq));
                } else {
                    assert(has_bit(m.boards[i], sq));
                }
                assert(fill_from(m, rank, col, boards) == fill_from(m, rank, col + 1, b2));
            },
            None => {
                lemma_fill_from_bits(m, rank, col + 1, boards, i, s);
                assert forall|j: int| 0 <= j < 12 implies !has_bit(m.boards[j], sq) by {
                    if has_bit(m.boards[j], sq) {
                        assert(occupant(m, rank, col) is Some);
                    }
                }
                assert(fill_from(m, rank, col, boards) == fill_from(m, rank, col + 1, boards));
            },
        }
    }
}

/// Which bits recording the ranks down from `rank` sets: a bit already
/// present, or any bit of the position's own board on one of those ranks.
proof fn lemma_fill_ranks_bits(m: BoardModel, rank: int, boards: Seq<u64>, i: int, s: int)
    requires
        wf(m),
        consistent(m),
        boards.len() == 12,
        -1 <= rank <= 7,
        0 <= i < 12,
        0 <= s < 64,
    ensures
        has_bit(fill_ranks(m, rank, boards)[i], s) <==> (has_bit(boards[i], s) || (s / 8 <= rank
            && has_bit(m.boards[i], s))),
    decreases rank + 1,
{
    if rank >= 0 {
        let b2 = fill_from(m, rank, 0, boards);
        lemma_fill_from_len(m, rank, 0, boards);
        lemma_fill_from_bits(m, rank, 0, boards, i, s);
        lemma_fill_ranks_bits(m, rank - 1, b2, i, s);
        assert(0 <= 7 - (s % 8) < 8);
    }
}

/// Recording every rank of a consistent position onto empty boards yields
/// exactly the position's own boards.
proof fn lemma_fill_is_boards(m: BoardModel)
    requires
        wf(m),
        consistent(m),
    ensures
        fill_ranks(m, 7, zero_boards()) == m.boards,
{
    let fr = fill_ranks(m, 7, zero_boards());
    assert(zero_boards().len() == 12);
    lemma_fill_ranks_len(m, 7, zero_boards());
    assert forall|i: int| 0 <= i < 12 implies fr[i] == m.boards[i] by {
        assert forall|s2: int| 0 <= s2 < 64 implies (has_bit(fr[i], s2) <==> has_bit(
            m.boards[i],
            s2,
        )) by {
            lemma_fill_ranks_bits(m, 7, zero_boards(), i, s2);
            assert(zero_boards()[i] == 0u64);
            crate::bits::lemma_zero_bit(s2 as u64);
            assert(!has_bit(0u64, s2));
            assert(0 <= s2 / 8 <= 7);
        }
        crate::bits::lemma_bit_ext(fr[i], m.boards[i]);
    }
    assert(fr =~= m.boards);
}

/// Six space-free strings joined by single spaces split back into exactly
/// those six strings.
proof fn lemma_split_six(
    a: Seq<char>,
    b: Seq<char>,
    c: Seq<char>,
    d: Seq<char>,
    e: Seq<char>,
    f: Seq<char>,
)
    requires
        forall|i: int| 0 <= i < a.len() ==> a[i] != ' ',
        forall|i: int| 0 <= i < b.len() ==> b[i] != ' ',
        forall|i: int| 0 <= i < c.len() ==> c[i] != ' ',
        forall|i: int| 0 <= i < d.len() ==> d[i] != ' ',
        forall|i: int| 0 <= i < e.len() ==> e[i] != ' ',
        forall|i: int| 0 <= i < f.len() ==> f[i] != ' ',
    ensures
        split_on(
            a + seq![' '] + b + seq![' '] + c + seq![' '] + d + seq![' '] + e + seq![' '] + f,
            ' ',
        ) == seq![a, b, c, d, e, f],
{
    let t4 = e + seq![' '] + f;
    let t3 = d + seq![' '] + t4;
    let t2 = c + seq![' '] + t3;
    let t1 = b + seq![' '] + t2;
    let whole = a + seq![' '] + b + seq![' '] + c + seq![' '] + d + seq![' '] + e + seq![' '] + f;
    assert(whole =~= a + seq![' '] + t1);
    lemma_split_concat(a, t1, ' ');
    lemma_split_concat(b, t2, ' ');
    lemma_split_concat(c, t3, ' ');
    lemma_split_concat(d, t4, ' ');
    lemma_split_concat(e, f, ' ');
    lemma_split_no_sep(f, ' ');
    assert(split_on(whole, ' ') =~= seq![a, b, c, d, e, f]);
}

/// The FEN text of a position splits at spaces into exactly its six fields.
proof fn lemma_fen_fields(m: BoardModel)
    requires
        wf(m),
    ensures
        split_on(fen_chars(m), ' ') == seq![
            placement_chars(m),
            color_chars(m.active),
            castling_chars(m.castling),
            ep_chars(m.ep),
            dec_chars(m.half as int),
            dec_chars(m.full as int),
        ],
{
    let p_f = placement_chars(m);
    let c_f = color_chars(m.active);
    let k_f = castling_chars(m.castling);
    let e_f = ep_chars(m.ep);
    let h_f = dec_chars(m.half as int);
    let f_f = dec_chars(m.full as int);
    // None of the six fields contains a space.
    lemma_placement_no_space(m, 7);
    assert(forall|i: int| 0 <= i < c_f.len() ==> c_f[i] != ' ');
    lemma_castling_no_space(m.castling);
    lemma_ep_no_space(m.ep);
    lemma_dec_chars_val(m.half as int);
    lemma_dec_chars_val(m.full as int);
    assert forall|i: int| 0 <= i < h_f.len() implies h_f[i] != ' ' by {
        assert(is_digit(h_f[i]));
    }
    assert forall|i: int| 0 <= i < f_f.len() implies f_f[i] != ' ' by {
        assert(is_digit(f_f[i]));
    }
    lemma_split_six(p_f, c_f, k_f, e_f, h_f, f_f);
    assert(fen_chars(m) == p_f + seq![' '] + c_f + seq![' '] + k_f + seq![' '] + e_f + seq![' ']
        + h_f + seq![' '] + f_f);
}

/// Round-trip law: the FEN text of any well-formed position whose boards
/// claim each square at most once parses back to exactly that position.
pub proof fn lemma_fen_round_trip(m: BoardModel)
    requires
        wf(m),
        consistent(m),
    ensures
        spec_parse(fen_chars(m)) == Ok::<BoardModel, FenError>(m),
{
    let p_f = placement_chars(m);
    let c_f = color_chars(m.active);
    let e_f = ep_chars(m.ep);
    lemma_fen_fields(m);
    let fields = split_on(fen_chars(m), ' ');
    assert(fields.len() == 6);
    assert(fields[0] == p_f);
    // Each field parses back to the value it came from.
    lemma_placement_parse(m);
    lemma_fill_is_boards(m);
    assert(parse_placement(p_f) == Some(m.boards));
    lemma_color_round_trip(m.active);
    lemma_castling_round_trip(m.castling);
    lemma_ep_field_round_trip(m.ep);
    lemma_dec_round_trip(m.half);
    lemma_dec_round_trip(m.full);
    if m.active is Black {
        assert(c_f[0] == 'b');
        assert(c_f != seq!['w']);
    }
    let parsed = spec_parse(fen_chars(m));
    assert(parsed is Ok);
    assert(parsed->Ok_0 =~= m);
}

/// Every character of the placement field is a piece letter, a digit, or a
/// slash; none is a space.
proof fn lemma_placement_no_space(m: BoardModel, rank: int)
    requires
        0 <= rank <= 7,
    ensures
        forall|i: int|
            0 <= i < placement_from(m, rank).len() ==> #[trigger] placement_from(m, rank)[i]
                != ' ',
    decreases rank,
{
    let g = rank_chars(m, rank, 0, 0);
    lemma_rank_chars_class(m, rank, 0, 0);
    let s = placement_from(m, rank);
    if rank == 0 {
        assert forall|i: int| 0 <= i < s.len() implies s[i] != ' ' by {
            assert(is_placement_char(g[i]));
        }
    } else {
        lemma_placement_no_space(m, rank - 1);
        let tail = placement_from(m, rank - 1);
        assert(s == g + seq!['/'] + tail);
        assert forall|i: int| 0 <= i < s.len() implies s[i] != ' ' by {
            if i < g.len() {
                assert(s[i] == g[i]);
                assert(is_placement_char(g[i]));
            } else if i == g.len() {
                assert(s[i] == '/');
            } else {
                assert(s[i] == tail[i - g.len() - 1]);
            }
        }
    }
}

/// The castling field holds only the four castling letters or a dash.
proof fn lemma_castling_no_space(c: Seq<bool>)
    requires
        c.len() == 4,
    ensures
        forall|i: int|
            0 <= i < castling_chars(c).len() ==> #[trigger] castling_chars(c)[i] != ' ',
{
    let t = castling_chars(c);
    assert forall|i: int| 0 <= i < t.len() implies t[i] != ' ' by {
        assert(t[i] == 'K' || t[i] == 'Q' || t[i] == 'k' || t[i] == 'q' || t[i] == '-');
    }
}

/// The en-passant field is a dash or a rank letter and a file digit.
proof fn lemma_ep_no_space(ep: Option<u8>)
    ensures
        forall|i: int| 0 <= i < ep_chars(ep).len() ==> #[trigger] ep_chars(ep)[i] != ' ',
{
    let t = ep_chars(ep);
    match ep {
        Some(sq) => {
            assert(t[0] == rank_letter(sq as int / 8));
            assert(t[1] == dec_digit(sq as int % 8 + 1));
            assert(rank_letter(sq as int / 8) != ' ');
            assert(dec_digit(sq as int % 8 + 1) != ' ');
        },
        None => {
            assert(t[0] == '-');
        },
    }
}

/// The standard starting position is well-formed and claims each square at
/// most once, so the round-trip law applies to it: its FEN text parses back
/// to the starting position itself.
pub proof fn lemma_start_round_trip()
    ensures
        spec_parse(fen_chars(start_model())) == Ok::<BoardModel, FenError>(start_model()),
{
    lemma_start_consistent();
    lemma_fen_round_trip(start_model());
}

/// The twelve starting bitboards are pairwise disjoint.
proof fn lemma_start_consistent()
    ensures
        wf(start_model()),
        consistent(start_model()),
{
    let m = start_model();
    assert(m.boards.len() == 12);
    assert(0x000000000000FF00u64 & 0x00FF000000000000u64 == 0
        && 0x000000000000FF00u64 & 0x0000000000000042u64 == 0
        && 0x000000000000FF00u64 & 0x4200000000000000u64 == 0
        && 0x000000000000FF00u64 & 0x0000000000000024u64 == 0
        && 0x000000000000FF00u64 & 0x2400000000000000u64 == 0
        && 0x000000000000FF00u64 & 0x0000000000000081u64 == 0
        && 0x000000000000FF00u64 & 0x8100000000000000u64 == 0
        && 0x000000000000FF00u64 & 0x0000000000000010u64 == 0
        && 0x000000000000FF00u64 & 0x1000000000000000u64 == 0
        && 0x000000000000FF00u64 & 0x0000000000000008u64 == 0
        && 0x000000000000FF00u64 & 0x0800000000000000u64 == 0
        && 0x00FF000000000000u64 & 0x0000000000000042u64 == 0
        && 0x00FF000000000000u64 & 0x4200000000000000u64 == 0
        && 0x00FF000000000000u64 & 0x0000000000000024u64 == 0
        && 0x00FF000000000000u64 & 0x2400000000000000u64 == 0
        && 0x00FF000000000000u64 & 0x0000000000000081u64 == 0
        && 0x00FF000000000000u64 & 0x8100000000000000u64 == 0
        && 0x00FF000000000000u64 & 0x0000000000000010u64 == 0
        && 0x00FF000000000000u64 & 0x1000000000000000u64 == 0
        && 0x00FF000000000000u64 & 0x0000000000000008u64 == 0
        && 0x00FF000000000000u64 & 0x0800000000000000u64 == 0
        && 0x0000000000000042u64 & 0x4200000000000000u64 == 0
        && 0x0000000000000042u64 & 0x0000000000000024u64 == 0
        && 0x0000000000000042u64 & 0x2400000000000000u64 == 0
        && 0x0000000000000042u64 & 0x0000000000000081u64 == 0
        && 0x0000000000000042u64 & 0x8100000000000000u64 == 0
        && 0x0000000000000042u64 & 0x0000000000000010u64 == 0
        && 0x0000000000000042u64 & 0x1000000000000000u64 == 0
        && 0x0000000000000042u64 & 0x0000000000000008u64 == 0
        && 0x0000000000000042u64 & 0x0800000000000000u64 == 0
        && 0x4200000000000000u64 & 0x0000000000000024u64 == 0
        && 0x4200000000000000u64 & 0x2400000000000000u64 == 0
        && 0x4200000000000000u64 & 0x0000000000000081u64 == 0
        && 0x4200000000000000u64 & 0x8100000000000000u64 == 0
        && 0x4200000000000000u64 & 0x0000000000000010u64 == 0
        && 0x4200000000000000u64 & 0x1000000000000000u64 == 0
        && 0x4200000000000000u64 & 0x0000000000000008u64 == 0
        && 0x4200000000000000u64 & 0x0800000000000000u64 == 0
        && 0x0000000000000024u64 & 0x2400000000000000u64 == 0
        && 0x0000000000000024u64 & 0x0000000000000081u64 == 0
        && 0x0000000000000024u64 & 0x8100000000000000u64 == 0
        && 0x0000000000000024u64 & 0x0000000000000010u64 == 0
        && 0x0000000000000024u64 & 0x1000000000000000u64 == 0
        && 0x0000000000000024u64 & 0x0000000000000008u64 == 0
        && 0x0000000000000024u64 & 0x0800000000000000u64 == 0
        && 0x2400000000000000u64 & 0x0000000000000081u64 == 0
        && 0x2400000000000000u64 & 0x8100000000000000u64 == 0
        && 0x2400000000000000u64 & 0x0000000000000010u64 == 0
        && 0x2400000000000000u64 & 0x1000000000000000u64 == 0
        && 0x2400000000000000u64 & 0x0000000000000008u64 == 0
        && 0x2400000000000000u64 & 0x0800000000000000u64 == 0
        && 0x0000000000000081u64 & 0x8100000000000000u64 == 0
        && 0x0000000000000081u64 & 0x0000000000000010u64 == 0
        && 0x0000000000000081u64 & 0x1000000000000000u64 == 0
        && 0x0000000000000081u64 & 0x0000000000000008u64 == 0
        && 0x0000000000000081u64 & 0x0800000000000000u64 == 0
        && 0x8100000000000000u64 & 0x0000000000000010u64 == 0
        && 0x8100000000000000u64 & 0x1000000000000000u64 == 0
        && 0x8100000000000000u64 & 0x0000000000000008u64 == 0
        && 0x8100000000000000u64 & 0x0800000000000000u64 == 0
        && 0x0000000000000010u64 & 0x1000000000000000u64 == 0
        && 0x0000000000000010u64 & 0x0000000000000008u64 == 0
        && 0x0000000000000010u64 & 0x0800000000000000u64 == 0
        && 0x1000000000000000u64 & 0x0000000000000008u64 == 0
        && 0x1000000000000000u64 & 0x0800000000000000u64 == 0
        && 0x0000000000000008u64 & 0x0800000000000000u64 == 0) by (bit_vector);
    assert forall|i: int, j: int, s2: int|
        0 <= i < j < 12 && 0 <= s2 < 64 implies !(#[trigger] has_bit(m.boards[i], s2)
        && #[trigger] has_bit(m.boards[j], s2)) by {
        if has_bit(m.boards[i], s2) && has_bit(m.boards[j], s2) {
            crate::bits::lemma_common_bit(m.boards[i], m.boards[j], s2 as u64);
            assert(m.boards[i] & m.boards[j] == 0);
        }
    }
}

/// The twelve starting bitboards, bit by bit: pawns fill ranks 1 and 6, the
/// back-rank pieces stand on their classic squares.
proof fn lemma_start_board_bits()
    by (bit_vector)
    ensures
        forall|t: u64| t < 64 ==> (((0x000000000000FF00u64 >> t) & 1u64 == 1u64) <==> (8 <= t && t < 16)),
        forall|t: u64| t < 64 ==> (((0x00FF000000000000u64 >> t) & 1u64 == 1u64) <==> (48 <= t && t < 56)),
        forall|t: u64| t < 64 ==> (((0x0000000000000042u64 >> t) & 1u64 == 1u64) <==> (t == 1 || t == 6)),
        forall|t: u64| t < 64 ==> (((0x4200000000000000u64 >> t) & 1u64 == 1u64) <==> (t == 57 || t == 62)),
        forall|t: u64| t < 64 ==> (((0x0000000000000024u64 >> t) & 1u64 == 1u64) <==> (t == 2 || t == 5)),
        forall|t: u64| t < 64 ==> (((0x2400000000000000u64 >> t) & 1u64 == 1u64) <==> (t == 58 || t == 61)),
        forall|t: u64| t < 64 ==> (((0x0000000000000081u64 >> t) & 1u64 == 1u64) <==> (t == 0 || t == 7)),
        forall|t: u64| t < 64 ==> (((0x8100000000000000u64 >> t) & 1u64 == 1u64) <==> (t == 56 || t == 63)),
        forall|t: u64| t < 64 ==> (((0x0000000000000010u64 >> t) & 1u64 == 1u64) <==> (t == 4)),
        forall|t: u64| t < 64 ==> (((0x1000000000000000u64 >> t) & 1u64 == 1u64) <==> (t == 60)),
        forall|t: u64| t < 64 ==> (((0x0000000000000008u64 >> t) & 1u64 == 1u64) <==> (t == 3)),
        forall|t: u64| t < 64 ==> (((0x0800000000000000u64 >> t) & 1u64 == 1u64) <==> (t == 59)),
{
}

/// The bottom rank of the starting position reads `RNBQKBNR`.
proof fn lemma_start_rank0()
    ensures
        rank_chars(start_model(), 0, 0, 0) == seq!['R', 'N', 'B', 'Q', 'K', 'B', 'N', 'R'],
{
    let m = start_model();
    lemma_start_board_bits();
    reveal_with_fuel(crate::board::occupant_from, 13);
    assert(occupant(m, 0, 0) == Some(crate::piece::Piece::Rook(Color::White)));
    assert(occupant(m, 0, 1) == Some(crate::piece::Piece::Knight(Color::White)));
    assert(occupant(m, 0, 2) == Some(crate::piece::Piece::Bishop(Color::White)));
    assert(occupant(m, 0, 3) == Some(crate::piece::Piece::Queen(Color::White)));
    assert(occupant(m, 0, 4) == Some(crate::piece::Piece::King(Color::White)));
    assert(occupant(m, 0, 5) == Some(crate::piece::Piece::Bishop(Color::White)));
    assert(occupant(m, 0, 6) == Some(crate::piece::Piece::Knight(Color::White)));
    assert(occupant(m, 0, 7) == Some(crate::piece::Piece::Rook(Color::White)));
    reveal_with_fuel(rank_chars, 10);
    assert(rank_chars(m, 0, 0, 0) =~= seq!['R', 'N', 'B', 'Q', 'K', 'B', 'N', 'R']);
}

/// The top rank of the starting position reads `rnbqkbnr`.
proof fn lemma_start_rank7()
    ensures
        rank_chars(start_model(), 7, 0, 0) == seq!['r', 'n', 'b', 'q', 'k', 'b', 'n', 'r'],
{
    let m = start_model();
    lemma_start_board_bits();
    reveal_with_fuel(crate::board::occupant_from, 13);
    assert(occupant(m, 7, 0) == Some(crate::piece::Piece::Rook(Color::Black)));
    assert(occupant(m, 7, 1) == Some(crate::piece::Piece::Knight(Color::Black)));
    assert(occupant(m, 7, 2) == Some(crate::piece::Piece::Bishop(Color::Black)));
    assert(occupant(m, 7, 3) == Some(crate::piece::Piece::Queen(Color::Black)));
    assert(occupant(m, 7, 4) == Some(crate::piece::Piece::King(Color::Black)));
    assert(occupant(m, 7, 5) == Some(crate::piece::Piece::Bishop(Color::Black)));
    assert(occupant(m, 7, 6) == Some(crate::piece::Piece::Knight(Color::Black)));
    assert(occupant(m, 7, 7) == Some(crate::piece::Piece::Rook(Color::Black)));
    reveal_with_fuel(rank_chars, 10);
    assert(rank_chars(m, 7, 0, 0) =~= seq!['r', 'n', 'b', 'q', 'k', 'b', 'n', 'r']);
}

/// The pawn ranks of the starting position read `PPPPPPPP` and `pppppppp`.
proof fn lemma_start_pawn_ranks()
    ensures
        rank_chars(start_model(), 1, 0, 0) == seq!['P', 'P', 'P', 'P', 'P', 'P', 'P', 'P'],
        rank_chars(start_model(), 6, 0, 0) == seq!['p', 'p', 'p', 'p', 'p', 'p', 'p', 'p'],
{
    let m = start_model();
    lemma_start_board_bits();
    reveal_with_fuel(crate::board::occupant_from, 13);
    assert(forall|c: int| 0 <= c < 8 ==> #[trigger] occupant(m, 1, c) == Some(
        crate::piece::Piece::Pawn(Color::White),
    ));
    assert(forall|c: int| 0 <= c < 8 ==> #[trigger] occupant(m, 6, c) == Some(
        crate::piece::Piece::Pawn(Color::Black),
    ));
    reveal_with_fuel(rank_chars, 10);
    assert(rank_chars(m, 1, 0, 0) =~= seq!['P', 'P', 'P', 'P', 'P', 'P', 'P', 'P']);
    assert(rank_chars(m, 6, 0, 0) =~= seq!['p', 'p', 'p', 'p', 'p', 'p', 'p', 'p']);
}

/// The middle ranks of the starting position are empty and read `8`.
proof fn lemma_start_empty_ranks()
    ensures
        forall|r: int| 2 <= r <= 5 ==> #[trigger] rank_chars(start_model(), r, 0, 0) == seq!['8'],
{
    let m = start_model();
    lemma_start_board_bits();
    reveal_with_fuel(crate::board::occupant_from, 13);
    assert forall|r: int| 2 <= r <= 5 implies #[trigger] rank_chars(m, r, 0, 0) == seq!['8'] by {
        assert(forall|c: int| 0 <= c < 8 ==> #[trigger] occupant(m, r, c) is None);
        reveal_with_fuel(rank_chars, 10);
        assert(rank_chars(m, r, 0, 0) =~= seq!['8']);
    }
}

/// The placement field of the standard starting position, byte for byte.
#[verifier::rlimit(60)]
proof fn lemma_start_placement_text()
    ensures
        placement_chars(start_model()) == "rnbqkbnr/pppppppp/8/8/8/8/PPPPPPPP/RNBQKBNR"@,
{
    let m = start_model();
    lemma_start_rank0();
    lemma_start_rank7();
    lemma_start_pawn_ranks();
    lemma_start_empty_ranks();
    reveal_with_fuel(placement_from, 9);
    reveal_strlit("rnbqkbnr/pppppppp/8/8/8/8/PPPPPPPP/RNBQKBNR");
    assert(placement_chars(m) =~= "rnbqkbnr/pppppppp/8/8/8/8/PPPPPPPP/RNBQKBNR"@);
}

/// The FEN text of the standard starting position, byte for byte.
#[verifier::rlimit(60)]
pub proof fn lemma_start_fen_text()
    ensures
        fen_chars(start_model()) == "rnbqkbnr/pppppppp/8/8/8/8/PPPPPPPP/RNBQKBNR w KQkq - 0 1"@,
{
    let m = start_model();
    lemma_start_placement_text();
    reveal_strlit("rnbqkbnr/pppppppp/8/8/8/8/PPPPPPPP/RNBQKBNR");
    reveal_strlit("rnbqkbnr/pppppppp/8/8/8/8/PPPPPPPP/RNBQKBNR w KQkq - 0 1");
    assert(castling_chars(m.castling) =~= seq!['K', 'Q', 'k', 'q']);
    assert(ep_chars(m.ep) =~= seq!['-']);
    assert(dec_chars(0) =~= seq!['0']);
    assert(dec_chars(1) =~= seq!['1']);
    assert(fen_chars(m) =~= "rnbqkbnr/pppppppp/8/8/8/8/PPPPPPPP/RNBQKBNR w KQkq - 0 1"@);
}

} // verus!
