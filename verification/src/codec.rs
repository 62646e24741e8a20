//! The FEN codec: stateless conversions between a `GameState` and the
//! six-field FEN text form, specified by spec-level grammar functions and
//! implemented by verified executable code.

use vstd::prelude::*;

use crate::board::{occupant, square_index, wf, BoardModel, GameState};
use crate::piece::{piece_char, piece_from_char, piece_index, Color, Piece};

verus! {

/// Why a FEN string was rejected. Parsing reports the first offending field;
/// no partial position is ever returned.
#[derive(Clone, Copy, Debug, PartialEq, Eq, Structural)]
pub enum FenError {
    /// Fewer than six space-separated fields were present.
    MissingField,
    /// A placement character is neither a piece letter nor a digit, a rank
    /// group overruns its eight squares, or there are more than eight groups.
    MalformedPlacement,
    /// The en-passant field is present, not `-`, and fails the square grammar.
    MalformedEnPassant,
    /// A move counter is not a decimal number between 0 and 255.
    MalformedNumber,
}

/// The human-readable description of each parse error.
pub open spec fn error_message(e: FenError) -> Seq<char> {
    match e {
        FenError::MissingField => "not enough fields"@,
        FenError::MalformedPlacement => "malformed piece placement"@,
        FenError::MalformedEnPassant => "malformed en-passant target"@,
        FenError::MalformedNumber => "malformed move counter"@,
    }
}

impl FenError {
    /// A human-readable message identifying which field was rejected and why.
    pub fn message(&self) -> (r: String)
        ensures
            r@ == error_message(*self),
    {
        String::from_str(
            match self {
                FenError::MissingField => "not enough fields",
                FenError::MalformedPlacement => "malformed piece placement",
                FenError::MalformedEnPassant => "malformed en-passant target",
                FenError::MalformedNumber => "malformed move counter",
            },
        )
    }
}

/// Whether `c` is a decimal digit.
pub open spec fn is_digit(c: char) -> bool {
    '0' as u32 <= c as u32 <= '9' as u32
}

/// The numeric value of a decimal digit character.
pub open spec fn digit_val(c: char) -> int {
    c as u32 - '0' as u32
}

/// The digit character of a value 0..10.
pub open spec fn dec_digit(n: int) -> char {
    if n == 0 {
        '0'
    } else if n == 1 {
        '1'
    } else if n == 2 {
        '2'
    } else if n == 3 {
        '3'
    } else if n == 4 {
        '4'
    } else if n == 5 {
        '5'
    } else if n == 6 {
        '6'
    } else if n == 7 {
        '7'
    } else if n == 8 {
        '8'
    } else {
        '9'
    }
}

/// The decimal rendering of a non-negative number, most significant digit
/// first, with no leading zeros.
pub open spec fn dec_chars(n: int) -> Seq<char>
    decreases n,
{
    if n < 10 {
        seq![dec_digit(n)]
    } else {
        dec_chars(n / 10).push(dec_digit(n % 10))
    }
}

/// The numeric value of a digit string, read most significant digit first.
pub open spec fn dec_val(s: Seq<char>) -> int
    decreases s.len(),
{
    if s.len() == 0 {
        0
    } else {
        dec_val(s.drop_last()) * 10 + digit_val(s.last())
    }
}

/// Whether every character of `s` is a decimal digit.
pub open spec fn all_digits(s: Seq<char>) -> bool {
    forall|i: int| 0 <= i < s.len() ==> is_digit(#[trigger] s[i])
}

/// The unsigned 8-bit number a field denotes: a non-empty string of decimal
/// digits whose value is at most 255, and nothing else.
pub open spec fn parse_u8(s: Seq<char>) -> Option<u8> {
    if s.len() > 0 && all_digits(s) && dec_val(s) <= 255 {
        Some(dec_val(s) as u8)
    } else {
        None
    }
}

/// The letter of a square's rank in an en-passant token, indexed by
/// `square / 8`.
pub open spec fn rank_letter(r: int) -> char {
    if r == 0 {
        'a'
    } else if r == 1 {
        'b'
    } else if r == 2 {
        'c'
    } else if r == 3 {
        'd'
    } else if r == 4 {
        'e'
    } else if r == 5 {
        'f'
    } else if r == 6 {
        'g'
    } else {
        'h'
    }
}

/// The two-character token of a square 0..64: the rank letter `a`..`h` for
/// `square / 8`, then the 1-based digit for `square % 8`.
pub open spec fn square_chars(s: int) -> Seq<char> {
    seq![rank_letter(s / 8), dec_digit(s % 8 + 1)]
}

/// The square a token denotes: the first character must be a letter `a`..`h`
/// (the rank), the second a digit `1`..`8` (the 1-based file); characters
/// beyond the second are ignored. Any other shape denotes no square.
pub open spec fn square_from_chars(s: Seq<char>) -> Option<u8> {
    if s.len() >= 2 && 'a' as u32 <= s[0] as u32 <= 'h' as u32 && '1' as u32 <= s[1] as u32 <= '8'
        as u32 {
        Some(((s[0] as u32 - 'a' as u32) * 8 + (s[1] as u32 - '1' as u32)) as u8)
    } else {
        None
    }
}

/// Splitting a string at every occurrence of `sep`: always at least one
/// piece, with empty pieces kept, as the parser's field splitting does.
pub open spec fn split_on(s: Seq<char>, sep: char) -> Seq<Seq<char>>
    decreases s.len(),
{
    if s.len() == 0 {
        seq![Seq::<char>::empty()]
    } else if s[0] == sep {
        seq![Seq::<char>::empty()] + split_on(s.drop_first(), sep)
    } else {
        let rest = split_on(s.drop_first(), sep);
        seq![seq![s[0]] + rest[0]] + rest.drop_first()
    }
}

/// The views of a sequence of character vectors.
pub open spec fn views_of(s: Seq<Vec<char>>) -> Seq<Seq<char>> {
    s.map_values(|v: Vec<char>| v@)
}

/// The square number an en-passant token denotes, or `None` when the token
/// fails the square grammar. The first character is a rank letter `a`..`h`,
/// the second a 1-based file digit `1`..`8`; the result is
/// `(letter - 'a') * 8 + (digit - 1)`, always below 64.
pub fn square_number_from_str(str: &str) -> (r: Option<u8>)
    ensures
        r == square_from_chars(str@),
        r matches Some(s) ==> s < 64,
{
    if str.unicode_len() < 2 {
        return None;
    }
    let c0 = str.get_char(0);
    let c1 = str.get_char(1);
    square_number_from_chars(c0, c1, Ghost(str@))
}

/// The square number denoted by the first two characters of a token.
fn square_number_from_chars(c0: char, c1: char, token: Ghost<Seq<char>>) -> (r: Option<u8>)
    requires
        token@.len() >= 2,
        token@[0] == c0,
        token@[1] == c1,
    ensures
        r == square_from_chars(token@),
        r matches Some(s) ==> s < 64,
{
    let v0 = c0 as u32;
    let v1 = c1 as u32;
    if 97 <= v0 && v0 <= 104 && 49 <= v1 && v1 <= 56 {
        Some((((v0 - 97) * 8 + (v1 - 49)) as u8))
    } else {
        None
    }
}

/// The digit emitted for a run of consecutive empty squares: nothing for an
/// empty run.
pub open spec fn blank_chars(blanks: int) -> Seq<char> {
    if blanks > 0 {
        seq![dec_digit(blanks)]
    } else {
        Seq::<char>::empty()
    }
}

/// The remainder of a rank group from column `col` on, with `blanks` empty
/// squares pending: pieces are their FEN letters, runs of empty squares
/// collapse into one digit, a trailing run included.
pub open spec fn rank_chars(m: BoardModel, rank: int, col: int, blanks: int) -> Seq<char>
    decreases 8 - col,
{
    if col < 0 || col >= 8 {
        blank_chars(blanks)
    } else {
        match occupant(m, rank, col) {
            Some(p) => blank_chars(blanks) + seq![piece_char(p)] + rank_chars(m, rank, col + 1, 0),
            None => rank_chars(m, rank, col + 1, blanks + 1),
        }
    }
}

/// The rank groups from `rank` down to rank 0, separated by `/`.
pub open spec fn placement_from(m: BoardModel, rank: int) -> Seq<char>
    decreases rank,
{
    if rank <= 0 {
        rank_chars(m, 0, 0, 0)
    } else {
        rank_chars(m, rank, 0, 0) + seq!['/'] + placement_from(m, rank - 1)
    }
}

/// The placement field: eight rank groups, rank 7 first.
pub open spec fn placement_chars(m: BoardModel) -> Seq<char> {
    placement_from(m, 7)
}

/// The active-color field.
pub open spec fn color_chars(c: Color) -> Seq<char> {
    match c {
        Color::White => seq!['w'],
        Color::Black => seq!['b'],
    }
}

/// The castling field: the characters `K`, `Q`, `k`, `q` of the flags that
/// are set, in stored order, or `-` when none is.
pub open spec fn castling_chars(c: Seq<bool>) -> Seq<char> {
    let t = (if c[0] {
        seq!['K']
    } else {
        Seq::<char>::empty()
    }) + (if c[1] {
        seq!['Q']
    } else {
        Seq::<char>::empty()
    }) + (if c[2] {
        seq!['k']
    } else {
        Seq::<char>::empty()
    }) + (if c[3] {
        seq!['q']
    } else {
        Seq::<char>::empty()
    });
    if t.len() == 0 {
        seq!['-']
    } else {
        t
    }
}

/// The en-passant field: the target's two-character token, or `-` when there
/// is none.
pub open spec fn ep_chars(ep: Option<u8>) -> Seq<char> {
    match ep {
        Some(s) => square_chars(s as int),
        None => seq!['-'],
    }
}

/// The full FEN text of a position: the six fields joined by single spaces.
pub open spec fn fen_chars(m: BoardModel) -> Seq<char> {
    placement_chars(m) + seq![' '] + color_chars(m.active) + seq![' '] + castling_chars(m.castling)
        + seq![' '] + ep_chars(m.ep) + seq![' '] + dec_chars(m.half as int) + seq![' '] + dec_chars(
        m.full as int,
    )
}

/// The one-character string of a digit value 0..10.
fn digit_str(n: usize) -> (r: &'static str)
    requires
        n < 10,
    ensures
        r@ == seq![dec_digit(n as int)],
{
    proof {
        reveal_strlit("0");
        reveal_strlit("1");
        reveal_strlit("2");
        reveal_strlit("3");
        reveal_strlit("4");
        reveal_strlit("5");
        reveal_strlit("6");
        reveal_strlit("7");
        reveal_strlit("8");
        reveal_strlit("9");
    }
    let r: &'static str = match n {
        0 => "0",
        1 => "1",
        2 => "2",
        3 => "3",
        4 => "4",
        5 => "5",
        6 => "6",
        7 => "7",
        8 => "8",
        _ => "9",
    };
    proof {
        assert(r@ =~= seq![dec_digit(n as int)]);
    }
    r
}

/// The one-character string of the rank letter for a value 0..8.
fn rank_letter_str(n: usize) -> (r: &'static str)
    requires
        n < 8,
    ensures
        r@ == seq![rank_letter(n as int)],
{
    proof {
        reveal_strlit("a");
        reveal_strlit("b");
        reveal_strlit("c");
        reveal_strlit("d");
        reveal_strlit("e");
        reveal_strlit("f");
        reveal_strlit("g");
        reveal_strlit("h");
    }
    let r: &'static str = match n {
        0 => "a",
        1 => "b",
        2 => "c",
        3 => "d",
        4 => "e",
        5 => "f",
        6 => "g",
        _ => "h",
    };
    proof {
        assert(r@ =~= seq![rank_letter(n as int)]);
    }
    r
}

/// Appends the decimal rendering of an 8-bit counter.
fn push_dec_u8(out: &mut String, n: u8)
    ensures
        final (out)@ == old(out)@ + dec_chars(n as int),
{
    if n >= 100 {
        out.append(digit_str((n / 100) as usize));
    }
    if n >= 10 {
        out.append(digit_str(((n / 10) % 10) as usize));
    }
    out.append(digit_str((n % 10) as usize));
    proof {
        let v = n as int;
        assert(v / 10 / 10 == v / 100) by (nonlinear_arith);
        if n >= 10 {
            assert(dec_chars(v) == dec_chars(v / 10).push(dec_digit(v % 10)));
            if n >= 100 {
                assert(dec_chars(v / 10) == dec_chars(v / 100).push(dec_digit(v / 10 % 10)));
                assert(v / 100 < 10);
            }
        }
        assert(final (out)@ =~= old(out)@ + dec_chars(n as int));
    }
}

impl GameState {
    /// The FEN text of this position: six space-separated fields, as
    /// `fen_chars` lays them out.
    #[verifier::rlimit(60)]
    pub fn to_fen(&self) -> (r: String)
        requires
            wf(self@),
        ensures
            r@ == fen_chars(self@),
    {
        let ghost m = self@;
        let mut out = String::new();
        // Field 1: piece placement, rank 7 down to rank 0.
        let mut k: usize = 0;
        while k < 8
            invariant
                wf(m),
                m == self@,
                k <= 8,
                out@ + (if k < 8 {
                    placement_from(m, 7 - k)
                } else {
                    Seq::<char>::empty()
                }) == placement_chars(m),
            decreases 8 - k,
        {
            let rank: usize = 7 - k;
            let ghost base = out@;
            let mut col: usize = 0;
            let mut blanks: usize = 0;
            while col < 8
                invariant
                    wf(m),
                    m == self@,
                    rank < 8,
                    col <= 8,
                    blanks <= col,
                    out@ + rank_chars(m, rank as int, col as int, blanks as int) == base
                        + rank_chars(m, rank as int, 0, 0),
                decreases 8 - col,
            {
                match self.get_piece_at(rank, col) {
                    Some(p) => {
                        if blanks > 0 {
                            out.append(digit_str(blanks));
                        }
                        let letter = p.fen();
                        out.append(letter.as_str());
                        blanks = 0;
                        proof {
                            assert(out@ + rank_chars(m, rank as int, col + 1, 0) =~= base
                                + rank_chars(m, rank as int, 0, 0));
                        }
                    },
                    None => {
                        blanks = blanks + 1;
                    },
                }
                col = col + 1;
            }
            if blanks > 0 {
                out.append(digit_str(blanks));
            }
            proof {
                assert(rank_chars(m, rank as int, 8, blanks as int) == blank_chars(blanks as int));
                assert(out@ =~= base + rank_chars(m, rank as int, 0, 0));
            }
            if rank > 0 {
                proof {
                    reveal_strlit("/");
                }
                out.append("/");
                proof {
                    assert(placement_from(m, rank as int) == rank_chars(m, rank as int, 0, 0)
                        + seq!['/'] + placement_from(m, rank as int - 1));
                    assert(out@ + placement_from(m, rank as int - 1) =~= placement_chars(m));
                }
            } else {
                proof {
                    assert(out@ =~= placement_chars(m));
                }
            }
            k = k + 1;
        }
        proof {
            reveal_strlit(" ");
            reveal_strlit("w");
            reveal_strlit("b");
            reveal_strlit("-");
            reveal_strlit("K");
            reveal_strlit("Q");
            reveal_strlit("k");
            reveal_strlit("q");
        }
        // Field 2: active color.
        out.append(" ");
        match self.active_color {
            Color::White => out.append("w"),
            Color::Black => out.append("b"),
        }
        proof {
            assert(out@ =~= placement_chars(m) + seq![' '] + color_chars(m.active));
        }
        // Field 3: castling availability, `-` when no flag is set.
        out.append(" ");
        let ghost mid = out@;
        if self.castling_rights[0] {
            out.append("K");
        }
        if self.castling_rights[1] {
            out.append("Q");
        }
        if self.castling_rights[2] {
            out.append("k");
        }
        if self.castling_rights[3] {
            out.append("q");
        }
        if !(self.castling_rights[0] || self.castling_rights[1] || self.castling_rights[2]
            || self.castling_rights[3]) {
            out.append("-");
        }
        proof {
            assert(out@ =~= mid + castling_chars(m.castling));
        }
        // Field 4: en-passant target.
        out.append(" ");
        match self.en_passant_target {
            Some(sq) => {
                out.append(rank_letter_str((sq / 8) as usize));
                out.append(digit_str((sq % 8 + 1) as usize));
                proof {
                    assert(seq![rank_letter(sq as int / 8)] + seq![dec_digit(sq as int % 8 + 1)]
                        =~= square_chars(sq as int));
                }
            },
            None => out.append("-"),
        }
        // Fields 5 and 6: the move counters.
        out.append(" ");
        push_dec_u8(&mut out, self.half_move_clock);
        out.append(" ");
        push_dec_u8(&mut out, self.full_move_number);
        proof {
            assert(out@ =~= fen_chars(m));
        }
        out
    }
}

/// Twelve empty bitboards.
pub open spec fn zero_boards() -> Seq<u64> {
    Seq::new(12, |i: int| 0u64)
}

/// Parsing the remainder of one rank group, scanning left to right with the
/// grid column counter `file`: a piece letter sets the square's bit in that
/// piece's board and advances one column; a digit advances by its value; any
/// other character, a piece beyond the eighth column, or a digit advancing
/// past it, rejects the group.
pub open spec fn parse_rank_chars(
    s: Seq<char>,
    rank: int,
    file: int,
    boards: Seq<u64>,
) -> Option<Seq<u64>>
    decreases s.len(),
{
    if s.len() == 0 {
        Some(boards)
    } else {
        let c = s[0];
        match piece_from_char(c) {
            Some(p) => if file < 8 {
                let idx = piece_index(p);
                let sq = square_index(rank, file);
                parse_rank_chars(
                    s.drop_first(),
                    rank,
                    file + 1,
                    boards.update(idx, boards[idx] | (1u64 << (sq as u64))),
                )
            } else {
                None
            },
            None => if is_digit(c) {
                if file + digit_val(c) <= 8 {
                    parse_rank_chars(s.drop_first(), rank, file + digit_val(c), boards)
                } else {
                    None
                }
            } else {
                None
            },
        }
    }
}

/// Parsing the rank groups from index `k` on: group `k` describes board rank
/// `7 - k`.
pub open spec fn parse_groups(groups: Seq<Seq<char>>, k: int, boards: Seq<u64>) -> Option<Seq<u64>>
    decreases groups.len() - k,
{
    if k < 0 || k >= groups.len() {
        Some(boards)
    } else {
        match parse_rank_chars(groups[k], 7 - k, 0, boards) {
            Some(b2) => parse_groups(groups, k + 1, b2),
            None => None,
        }
    }
}

/// The bitboards the placement field denotes: its `/`-separated groups fill
/// ranks 7 down, onto empty boards; more than eight groups reject the field.
pub open spec fn parse_placement(s: Seq<char>) -> Option<Seq<u64>> {
    let groups = split_on(s, '/');
    if groups.len() > 8 {
        None
    } else {
        parse_groups(groups, 0, zero_boards())
    }
}

/// The active color a field denotes: `w` is White, anything else Black.
pub open spec fn parse_color(s: Seq<char>) -> Color {
    if s == seq!['w'] {
        Color::White
    } else {
        Color::Black
    }
}

/// The castling flags a field denotes: each flag is set exactly when its
/// character occurs anywhere in the field; a field with none is all-false,
/// not an error.
pub open spec fn parse_castling(s: Seq<char>) -> Seq<bool> {
    seq![s.contains('K'), s.contains('Q'), s.contains('k'), s.contains('q')]
}

/// What parsing a FEN string yields: a model built from the first six
/// space-separated fields, or the first error in field order. Fields beyond
/// the sixth are ignored.
pub open spec fn spec_parse(s: Seq<char>) -> Result<BoardModel, FenError> {
    let fields = split_on(s, ' ');
    if fields.len() < 6 {
        Err(FenError::MissingField)
    } else if parse_placement(fields[0]) is None {
        Err(FenError::MalformedPlacement)
    } else if fields[3] != seq!['-'] && square_from_chars(fields[3]) is None {
        Err(FenError::MalformedEnPassant)
    } else if parse_u8(fields[4]) is None {
        Err(FenError::MalformedNumber)
    } else if parse_u8(fields[5]) is None {
        Err(FenError::MalformedNumber)
    } else {
        Ok(
            BoardModel {
                boards: parse_placement(fields[0])->Some_0,
                active: parse_color(fields[1]),
                castling: parse_castling(fields[2]),
                ep: if fields[3] == seq!['-'] {
                    None
                } else {
                    Some(square_from_chars(fields[3])->Some_0)
                },
                half: parse_u8(fields[4])->Some_0,
                full: parse_u8(fields[5])->Some_0,
            },
        )
    }
}

/// The model a parse result denotes, for stating what `from_fen` returns.
pub open spec fn result_model(r: Result<GameState, FenError>) -> Result<BoardModel, FenError> {
    match r {
        Ok(g) => Ok(g@),
        Err(e) => Err(e),
    }
}

/// The characters of a string, one by one.
fn str_to_chars(s: &str) -> (r: Vec<char>)
    ensures
        r@ == s@,
{
    let len = s.unicode_len();
    let mut v: Vec<char> = Vec::new();
    let mut i: usize = 0;
    while i < len
        invariant
            i <= len,
            len == s@.len(),
            v@ == s@.subrange(0, i as int),
        decreases len - i,
    {
        v.push(s.get_char(i));
        proof {
            assert(v@ =~= s@.subrange(0, i as int + 1));
        }
        i = i + 1;
    }
    proof {
        assert(v@ =~= s@);
    }
    v
}

/// Splits a character vector at every occurrence of `sep`, empty pieces
/// kept.
fn split_char(v: &Vec<char>, sep: char) -> (r: Vec<Vec<char>>)
    ensures
        views_of(r@) == split_on(v@, sep),
{
    let mut done: Vec<Vec<char>> = Vec::new();
    let mut cur: Vec<char> = Vec::new();
    let mut i: usize = 0;
    proof {
        assert(v@.skip(0) =~= v@);
        let r0 = split_on(v@, sep);
        assert(r0.len() >= 1);
        assert(r0 =~= seq![r0[0]] + r0.drop_first());
        assert(views_of(done@) + seq![cur@ + r0[0]] + r0.drop_first() =~= r0);
    }
    while i < v.len()
        invariant
            i <= v@.len(),
            split_on(v@, sep) == views_of(done@) + seq![cur@ + split_on(v@.skip(i as int), sep)[0]]
                + split_on(v@.skip(i as int), sep).drop_first(),
        decreases v@.len() - i,
    {
        let ghost rest = v@.skip(i as int);
        let ghost rest1 = v@.skip(i as int + 1);
        proof {
            assert(rest.len() > 0);
            assert(rest[0] == v@[i as int]);
            assert(rest.drop_first() =~= rest1);
            assert(split_on(rest1, sep).len() >= 1);
        }
        let c = v[i];
        if c == sep {
            let ghost d0 = done@;
            done.push(cur);
            cur = Vec::new();
            proof {
                let r1 = split_on(rest1, sep);
                assert(split_on(rest, sep) == seq![Seq::<char>::empty()] + r1);
                assert((seq![Seq::<char>::empty()] + r1)[0] =~= Seq::<char>::empty());
                assert((seq![Seq::<char>::empty()] + r1).drop_first() =~= r1);
                assert(r1 =~= seq![r1[0]] + r1.drop_first());
                assert(views_of(done@) =~= views_of(d0).push(v@.subrange(0, 0)).update(
                    d0.len() as int,
                    views_of(done@)[d0.len() as int],
                ));
                assert(split_on(v@, sep) =~= views_of(done@) + seq![cur@ + r1[0]]
                    + r1.drop_first());
            }
        } else {
            proof {
                let r1 = split_on(rest1, sep);
                assert(split_on(rest, sep) == seq![seq![rest[0]] + r1[0]] + r1.drop_first());
                assert((seq![seq![rest[0]] + r1[0]] + r1.drop_first())[0] =~= seq![rest[0]]
                    + r1[0]);
                assert((seq![seq![rest[0]] + r1[0]] + r1.drop_first()).drop_first() =~= r1
                    .drop_first());
                assert(cur@.push(rest[0]) + r1[0] =~= cur@ + (seq![rest[0]] + r1[0]));
            }
            cur.push(c);
            proof {
                assert(split_on(v@, sep) =~= views_of(done@) + seq![cur@ + split_on(rest1, sep)[0]]
                    + split_on(rest1, sep).drop_first());
            }
        }
        i = i + 1;
    }
    proof {
        assert(v@.skip(i as int) =~= Seq::<char>::empty());
        assert(split_on(v@.skip(i as int), sep) == seq![Seq::<char>::empty()]);
    }
    let ghost d0 = done@;
    done.push(cur);
    proof {
        assert(views_of(done@) =~= views_of(d0).push(done@[d0.len() as int]@));
        assert(views_of(done@) =~= split_on(v@, sep));
    }
    done
}

/// Whether a character occurs anywhere in the vector.
fn contains_char(v: &Vec<char>, c: char) -> (r: bool)
    ensures
        r == v@.contains(c),
{
    let mut i: usize = 0;
    while i < v.len()
        invariant
            i <= v@.len(),
            forall|j: int| 0 <= j < i ==> v@[j] != c,
        decreases v@.len() - i,
    {
        if v[i] == c {
            proof {
                assert(v@[i as int] == c);
            }
            return true;
        }
        i = i + 1;
    }
    false
}

/// A digit string's value never shrinks as the string extends to the right.
proof fn lemma_dec_val_bounds(s: Seq<char>, i: int)
    requires
        0 <= i <= s.len(),
        all_digits(s),
    ensures
        dec_val(s) >= dec_val(s.subrange(0, i)) >= 0,
    decreases s.len(),
{
    if s.len() == 0 {
        assert(s.subrange(0, i) =~= s);
    } else {
        let t = s.drop_last();
        assert(forall|j: int| 0 <= j < t.len() ==> t[j] == s[j]);
        lemma_dec_val_bounds(t, if i <= t.len() {
            i
        } else {
            t.len() as int
        });
        assert(is_digit(s.last()));
        if i == s.len() {
            assert(s.subrange(0, i) =~= s);
        } else {
            assert(s.subrange(0, i) =~= t.subrange(0, i));
        }
    }
}

/// The unsigned 8-bit number a field denotes, or `None` when it is not a
/// plain decimal between 0 and 255.
fn parse_u8_chars(v: &Vec<char>) -> (r: Option<u8>)
    ensures
        r == parse_u8(v@),
{
    if v.len() == 0 {
        return None;
    }
    let mut val: u32 = 0;
    let mut i: usize = 0;
    while i < v.len()
        invariant
            i <= v@.len(),
            all_digits(v@.subrange(0, i as int)),
            val == dec_val(v@.subrange(0, i as int)),
            val <= 255,
        decreases v@.len() - i,
    {
        let c = v[i];
        let cv = c as u32;
        if cv < 48 || cv > 57 {
            proof {
                assert(!is_digit(v@[i as int]));
            }
            return None;
        }
        let d = cv - 48;
        proof {
            assert(v@.subrange(0, i as int + 1).drop_last() =~= v@.subrange(0, i as int));
            assert(v@.subrange(0, i as int + 1).last() == v@[i as int]);
            assert(forall|j: int|
                0 <= j < i as int + 1 ==> is_digit(#[trigger] v@.subrange(0, i as int + 1)[j]));
        }
        if val * 10 + d > 255 {
            proof {
                if all_digits(v@) {
                    lemma_dec_val_bounds(v@, i as int + 1);
                    assert(v@.subrange(0, i as int + 1).drop_last() =~= v@.subrange(0, i as int));
                    assert(dec_val(v@) > 255);
                }
            }
            return None;
        }
        val = val * 10 + d;
        i = i + 1;
    }
    proof {
        assert(v@.subrange(0, v@.len() as int) =~= v@);
    }
    Some(val as u8)
}

/// The square number an en-passant field denotes, or `None` when it fails
/// the square grammar.
fn square_from_chars_exec(v: &Vec<char>) -> (r: Option<u8>)
    ensures
        r == square_from_chars(v@),
        r matches Some(s) ==> s < 64,
{
    if v.len() < 2 {
        return None;
    }
    let c0 = v[0];
    let c1 = v[1];
    square_number_from_chars(c0, c1, Ghost(v@))
}

/// Fills the twelve bitboards from one rank group, or rejects it.
fn parse_rank_exec(g: &Vec<char>, rank: usize, boards0: [u64; 12]) -> (r: Option<[u64; 12]>)
    requires
        rank < 8,
    ensures
        match r {
            Some(a) => parse_rank_chars(g@, rank as int, 0, boards0@) == Some(a@),
            None => parse_rank_chars(g@, rank as int, 0, boards0@) is None,
        },
{
    let mut boards = boards0;
    let mut file: usize = 0;
    let mut pos: usize = 0;
    proof {
        assert(g@.skip(0) =~= g@);
    }
    while pos < g.len()
        invariant
            rank < 8,
            file <= 8,
            pos <= g@.len(),
            parse_rank_chars(g@, rank as int, 0, boards0@) == parse_rank_chars(
                g@.skip(pos as int),
                rank as int,
                file as int,
                boards@,
            ),
        decreases g@.len() - pos,
    {
        let ghost rest = g@.skip(pos as int);
        proof {
            assert(rest.len() > 0);
            assert(rest[0] == g@[pos as int]);
            assert(rest.drop_first() =~= g@.skip(pos as int + 1));
        }
        let c = g[pos];
        match Piece::from_char(c) {
            Some(p) => {
                if file >= 8 {
                    return None;
                }
                let idx = p.index();
                let sq: u64 = (8 * rank + 7 - file) as u64;
                let ghost b0 = boards@;
                boards[idx] = boards[idx] | (1u64 << sq);
                proof {
                    assert(sq == square_index(rank as int, file as int) as u64);
                    assert(boards@ =~= b0.update(
                        piece_index(p),
                        b0[piece_index(p)] | (1u64 << (square_index(rank as int, file as int)
                            as u64)),
                    ));
                    assert(parse_rank_chars(rest, rank as int, file as int, b0)
                        == parse_rank_chars(
                        rest.drop_first(),
                        rank as int,
                        file as int + 1,
                        boards@,
                    ));
                }
                file = file + 1;
            },
            None => {
                let cv = c as u32;
                if cv < 48 || cv > 57 {
                    proof {
                        assert(!is_digit(c));
                    }
                    return None;
                }
                let d = (cv - 48) as usize;
                proof {
                    assert(is_digit(c) && digit_val(c) == d as int);
                }
                if file + d > 8 {
                    return None;
                }
                file = file + d;
            },
        }
        pos = pos + 1;
    }
    proof {
        assert(g@.skip(pos as int) =~= Seq::<char>::empty());
    }
    Some(boards)
}

/// Fills the twelve bitboards from the placement field, or rejects it.
fn parse_placement_exec(f: &Vec<char>) -> (r: Option<[u64; 12]>)
    ensures
        match r {
            Some(a) => parse_placement(f@) == Some(a@),
            None => parse_placement(f@) is None,
        },
{
    let groups = split_char(f, '/');
    let ghost gv = views_of(groups@);
    if groups.len() > 8 {
        return None;
    }
    let mut boards: [u64; 12] = [0u64; 12];
    proof {
        assert(boards@ =~= zero_boards());
    }
    let mut k: usize = 0;
    while k < groups.len()
        invariant
            gv == views_of(groups@),
            gv == split_on(f@, '/'),
            gv.len() == groups@.len() <= 8,
            k <= groups@.len(),
            parse_groups(gv, 0, zero_boards()) == parse_groups(gv, k as int, boards@),
        decreases groups@.len() - k,
    {
        let rank: usize = 7 - k;
        proof {
            assert(gv[k as int] == groups@[k as int]@);
        }
        let ghost b0 = boards@;
        match parse_rank_exec(&groups[k], rank, boards) {
            Some(b2) => {
                boards = b2;
                proof {
                    assert(parse_rank_chars(gv[k as int], 7 - k as int, 0, b0) == Some(boards@));
                    assert(parse_groups(gv, k as int, b0) == parse_groups(
                        gv,
                        k as int + 1,
                        boards@,
                    ));
                }
            },
            None => {
                proof {
                    assert(parse_rank_chars(gv[k as int], 7 - k as int, 0, b0) is None);
                    assert(parse_groups(gv, k as int, b0) is None);
                }
                return None;
            },
        }
        k = k + 1;
    }
    Some(boards)
}

impl GameState {
    /// The position a FEN string denotes, or the first error in field order:
    /// `MissingField` with fewer than six space-separated fields,
    /// `MalformedPlacement`, `MalformedEnPassant` and `MalformedNumber` as
    /// each field is read. No partial position is returned on failure.
    pub fn from_fen(s: &str) -> (r: Result<GameState, FenError>)
        ensures
            result_model(r) == spec_parse(s@),
            r matches Ok(g) ==> wf(g@),
    {
        let chars = str_to_chars(s);
        let fields = split_char(&chars, ' ');
        let ghost fv = views_of(fields@);
        proof {
            assert(fv == split_on(s@, ' '));
        }
        if fields.len() < 6 {
            return Err(FenError::MissingField);
        }
        proof {
            assert(fv[0] == fields@[0]@);
            assert(fv[1] == fields@[1]@);
            assert(fv[2] == fields@[2]@);
            assert(fv[3] == fields@[3]@);
            assert(fv[4] == fields@[4]@);
            assert(fv[5] == fields@[5]@);
        }
        let boards = match parse_placement_exec(&fields[0]) {
            Some(b) => b,
            None => {
                return Err(FenError::MalformedPlacement);
            },
        };
        let f1 = &fields[1];
        let active = if f1.len() == 1 && f1[0] == 'w' {
            proof {
                assert(f1@ =~= seq!['w']);
            }
            Color::White
        } else {
            proof {
                if f1@ == seq!['w'] {
                    assert(f1@.len() == 1 && f1@[0] == 'w');
                }
            }
            Color::Black
        };
        let f2 = &fields[2];
        let castling: [bool; 4] = [
            contains_char(f2, 'K'),
            contains_char(f2, 'Q'),
            contains_char(f2, 'k'),
            contains_char(f2, 'q'),
        ];
        proof {
            assert(castling@ =~= parse_castling(f2@));
        }
        let f3 = &fields[3];
        let ep: Option<u8> = if f3.len() == 1 && f3[0] == '-' {
            proof {
                assert(f3@ =~= seq!['-']);
            }
            None
        } else {
            proof {
                if f3@ == seq!['-'] {
                    assert(f3@.len() == 1 && f3@[0] == '-');
                }
            }
            match square_from_chars_exec(f3) {
                Some(sq) => Some(sq),
                None => {
                    return Err(FenError::MalformedEnPassant);
                },
            }
        };
        let half = match parse_u8_chars(&fields[4]) {
            Some(h) => h,
            None => {
                return Err(FenError::MalformedNumber);
            },
        };
        let full = match parse_u8_chars(&fields[5]) {
            Some(f) => f,
            None => {
                return Err(FenError::MalformedNumber);
            },
        };
        let g = GameState {
            bitboards: boards,
            active_color: active,
            castling_rights: castling,
            en_passant_target: ep,
            half_move_clock: half,
            full_move_number: full,
        };
        proof {
            assert(g@ =~= spec_parse(s@)->Ok_0);
        }
        Ok(g)
    }
}

} // verus!
