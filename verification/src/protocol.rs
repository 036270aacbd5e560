//! The text protocol of the decision server.
//!
//! A request is text in lines. The first 20 lines give the rows of the
//! board from the top, each exactly 10 characters, `.` for a free cell and
//! `x` for a taken one. The next line lists the current and the next piece
//! as upper case letters separated by spaces. The last line holds three
//! numbers separated by single spaces: the level, the score and the number
//! of lines cleared.
//!
//! A response is a list of (x, y, r) triples, each a column, a row and a
//! number of clockwise turns (negative for counter-clockwise) that the
//! player is to navigate to. Its first line holds the number of triples,
//! each further line one triple, its numbers separated by single spaces.

use crate::piece::MinoShape;
use crate::state::State;
use vstd::prelude::*;
use vstd::string::StringExecFns;

verus! {

/// The byte that ends a line.
pub const NEWLINE: u8 = 10;

/// The byte that may stand before the end of a line and is not part of it.
pub const CARRIAGE_RETURN: u8 = 13;

/// The byte that separates the numbers of a line.
pub const SPACE: u8 = 32;

/// The byte of a free cell, `.`.
pub const FREE_CELL: u8 = 46;

/// The byte of a taken cell, `x`.
pub const TAKEN_CELL: u8 = 120;

/// Why a request was turned down.
#[derive(Clone, Copy, Debug, PartialEq, Eq, Structural)]
pub enum ProtocolError {
    /// The request has fewer than 22 lines.
    MissingLines,
    /// One of the first 20 lines is not made of exactly 10 cells.
    BadRow,
    /// The line of pieces does not begin with the letter of a shape.
    UnknownPiece,
    /// The last line does not hold a level, a score and a number of lines
    /// that can be those of a game.
    BadCounters,
}

/// The pieces into which the separator cuts the text: what stands before
/// its first occurrence, between each two, and behind the last.
pub open spec fn split(text: Seq<u8>, sep: u8) -> Seq<Seq<u8>>
    decreases text.len(),
{
    if text.len() == 0 {
        seq![Seq::<u8>::empty()]
    } else {
        let before = split(text.drop_last(), sep);
        if text.last() == sep {
            before.push(Seq::<u8>::empty())
        } else {
            before.drop_last().push(before.last().push(text.last()))
        }
    }
}

/// The line without the carriage return at its end, if it has one.
pub open spec fn without_return(line: Seq<u8>) -> Seq<u8> {
    if line.len() > 0 && line.last() == CARRIAGE_RETURN {
        line.drop_last()
    } else {
        line
    }
}

/// The lines of a text: what the line feeds cut it into, without a carriage
/// return before a line feed, and without what follows the last line feed
/// where nothing does.
pub open spec fn lines_of(text: Seq<u8>) -> Seq<Seq<u8>> {
    let pieces = split(text, NEWLINE);
    let ended = pieces.len() - 1;
    Seq::new(
        if pieces.last().len() == 0 {
            ended as nat
        } else {
            pieces.len()
        },
        |i: int|
            if i < ended {
                without_return(pieces[i])
            } else {
                pieces[i]
            },
    )
}

/// Whether the line is a row of the board: exactly 10 cells, each free or
/// taken.
pub open spec fn is_row(line: Seq<u8>) -> bool {
    &&& line.len() == 10
    &&& forall|x: int| 0 <= x < 10 ==> line[x] == FREE_CELL || line[x] == TAKEN_CELL
}

/// The shape that a letter stands for.
pub open spec fn shape_of_letter(letter: u8) -> Option<MinoShape> {
    if letter == 73 {
        Some(MinoShape::I)
    } else if letter == 74 {
        Some(MinoShape::J)
    } else if letter == 76 {
        Some(MinoShape::L)
    } else if letter == 79 {
        Some(MinoShape::O)
    } else if letter == 83 {
        Some(MinoShape::S)
    } else if letter == 84 {
        Some(MinoShape::T)
    } else if letter == 90 {
        Some(MinoShape::Z)
    } else {
        None
    }
}

/// The shape that a line of pieces begins with.
pub open spec fn first_piece(line: Seq<u8>) -> Option<MinoShape> {
    if line.len() == 0 {
        None
    } else {
        shape_of_letter(line[0])
    }
}

/// Whether the text is a number: decimal digits, at least one.
pub open spec fn is_digits(text: Seq<u8>) -> bool {
    &&& text.len() > 0
    &&& forall|i: int| 0 <= i < text.len() ==> 48 <= #[trigger] text[i] && text[i] <= 57
}

/// The number that decimal digits stand for.
pub open spec fn value(digits: Seq<u8>) -> int
    decreases digits.len(),
{
    if digits.len() == 0 {
        0
    } else {
        value(digits.drop_last()) * 10 + (digits.last() - 48)
    }
}

/// Whether the text is a number that a counter can hold.
pub open spec fn is_counter(text: Seq<u8>) -> bool {
    is_digits(text) && value(text) <= i32::MAX
}

/// Whether the line holds the counters of a game: a level, a score and a
/// number of lines, with the level at least a tenth of the lines.
pub open spec fn is_counters(line: Seq<u8>) -> bool {
    let fields = split(line, SPACE);
    &&& fields.len() == 3
    &&& is_counter(fields[0])
    &&& is_counter(fields[1])
    &&& is_counter(fields[2])
    &&& value(fields[2]) / 10 <= value(fields[0])
}

/// What is wrong with a request, if anything: the first fault from the top.
pub open spec fn request_error(text: Seq<u8>) -> Option<ProtocolError> {
    let lines = lines_of(text);
    if lines.len() < 22 {
        Some(ProtocolError::MissingLines)
    } else if exists|y: int| 0 <= y < 20 && !is_row(#[trigger] lines[y]) {
        Some(ProtocolError::BadRow)
    } else if first_piece(lines[20]) is None {
        Some(ProtocolError::UnknownPiece)
    } else if !is_counters(lines[21]) {
        Some(ProtocolError::BadCounters)
    } else {
        None
    }
}

/// Whether the state and the shape are what a request without fault says.
pub open spec fn request_says(text: Seq<u8>, state: State, shape: MinoShape) -> bool {
    let lines = lines_of(text);
    let counters = split(lines[21], SPACE);
    &&& forall|x: int, y: int|
        0 <= x < 10 && 0 <= y < 20 ==> #[trigger] state.board.occupied(x, y) == (lines[y][x]
            == TAKEN_CELL)
    &&& first_piece(lines[20]) == Some(shape)
    &&& state.level == value(counters[0])
    &&& state.score == value(counters[1])
    &&& state.lines == value(counters[2])
}

/// The digit for a number below ten.
pub open spec fn digit(d: int) -> char {
    if d == 0 {
        '0'
    } else if d == 1 {
        '1'
    } else if d == 2 {
        '2'
    } else if d == 3 {
        '3'
    } else if d == 4 {
        '4'
    } else if d == 5 {
        '5'
    } else if d == 6 {
        '6'
    } else if d == 7 {
        '7'
    } else if d == 8 {
        '8'
    } else {
        '9'
    }
}

/// A natural number in decimal digits, without leading zeros.
pub open spec fn digits(n: nat) -> Seq<char>
    decreases n,
{
    if n < 10 {
        seq![digit(n as int)]
    } else {
        digits(n / 10).push(digit((n % 10) as int))
    }
}

/// A whole number in decimal digits, with a minus sign if it is negative.
pub open spec fn decimal(v: int) -> Seq<char> {
    if v < 0 {
        seq!['-'] + digits((-v) as nat)
    } else {
        digits(v as nat)
    }
}

/// The line of a response for one triple.
pub open spec fn waypoint_line(w: (i32, i32, i32)) -> Seq<char> {
    decimal(w.0 as int) + seq![' '] + decimal(w.1 as int) + seq![' '] + decimal(w.2 as int)
        + seq!['\n']
}

/// The lines of a response for the triples of a path.
pub open spec fn waypoint_lines(path: Seq<(i32, i32, i32)>) -> Seq<char>
    decreases path.len(),
{
    if path.len() == 0 {
        Seq::empty()
    } else {
        waypoint_lines(path.drop_last()) + waypoint_line(path.last())
    }
}

/// The text of the response for a path.
pub open spec fn response_text(path: Seq<(i32, i32, i32)>) -> Seq<char> {
    decimal(path.len() as int) + seq!['\n'] + waypoint_lines(path)
}

/// The pieces that are finished, with the one in the making behind them.
spec fn pieces_with(done: Seq<Vec<u8>>, cur: Seq<u8>) -> Seq<Seq<u8>> {
    Seq::new(done.len() + 1, |i: int| if i < done.len() { done[i]@ } else { cur })
}

/// The views of the pieces.
pub open spec fn views(pieces: Seq<Vec<u8>>) -> Seq<Seq<u8>> {
    Seq::new(pieces.len(), |i: int| pieces[i]@)
}

/// Cut the text at each occurrence of the separator.
pub fn split_bytes(text: &[u8], sep: u8) -> (pieces: Vec<Vec<u8>>)
    ensures
        views(pieces@) == split(text@, sep),
        pieces.len() >= 1,
{
    let mut done: Vec<Vec<u8>> = Vec::new();
    let mut cur: Vec<u8> = Vec::new();
    let mut i: usize = 0;
    assert(text@.subrange(0, 0) =~= Seq::<u8>::empty());
    assert(pieces_with(done@, cur@) =~= seq![Seq::<u8>::empty()]);
    while i < text.len()
        invariant
            i <= text.len(),
            pieces_with(done@, cur@) == split(text@.subrange(0, i as int), sep),
        decreases text.len() - i,
    {
        let ghost before = pieces_with(done@, cur@);
        let ghost prefix = text@.subrange(0, i + 1);
        assert(prefix.drop_last() =~= text@.subrange(0, i as int));
        assert(prefix.last() == text@[i as int]);
        let b = text[i];
        if b == sep {
            done.push(cur);
            cur = Vec::new();
            assert(pieces_with(done@, cur@) =~= before.push(Seq::<u8>::empty()));
        } else {
            cur.push(b);
            assert(pieces_with(done@, cur@) =~= before.drop_last().push(before.last().push(b)));
        }
        i += 1;
    }
    assert(text@.subrange(0, i as int) =~= text@);
    let ghost before = pieces_with(done@, cur@);
    done.push(cur);
    assert(views(done@) =~= before);
    done
}

/// Later digits only make a number larger.
proof fn lemma_value_grows(digits: Seq<u8>, i: int)
    requires
        0 <= i <= digits.len(),
        forall|k: int| 0 <= k < digits.len() ==> 48 <= #[trigger] digits[k] && digits[k] <= 57,
    ensures
        0 <= value(digits.subrange(0, i)) <= value(digits),
    decreases digits.len() - i,
{
    if i == digits.len() {
        assert(digits.subrange(0, i) =~= digits);
        lemma_value_nonnegative(digits);
    } else {
        lemma_value_grows(digits, i + 1);
        let longer = digits.subrange(0, i + 1);
        assert(longer.drop_last() =~= digits.subrange(0, i));
        lemma_value_nonnegative(digits.subrange(0, i));
    }
}

/// Digits stand for a number that is not negative.
proof fn lemma_value_nonnegative(digits: Seq<u8>)
    requires
        forall|k: int| 0 <= k < digits.len() ==> 48 <= #[trigger] digits[k] && digits[k] <= 57,
    ensures
        0 <= value(digits),
    decreases digits.len(),
{
    if digits.len() > 0 {
        lemma_value_nonnegative(digits.drop_last());
    }
}

/// Read a counter: a number in decimal digits that fits.
pub fn parse_counter(text: &Vec<u8>) -> (r: Option<i32>)
    ensures
        r is Some <==> is_counter(text@),
        r matches Some(v) ==> v == value(text@) && 0 <= v,
{
    if text.len() == 0 {
        return None;
    }
    let mut total: i64 = 0;
    let mut i: usize = 0;
    assert(text@.subrange(0, 0) =~= Seq::<u8>::empty());
    while i < text.len()
        invariant
            i <= text.len(),
            forall|k: int| 0 <= k < i ==> 48 <= #[trigger] text[k] && text[k] <= 57,
            total == value(text@.subrange(0, i as int)),
            0 <= total <= i32::MAX,
        decreases text.len() - i,
    {
        let b = text[i];
        if b < 48 || b > 57 {
            return None;
        }
        let ghost prefix = text@.subrange(0, i + 1);
        assert(prefix.drop_last() =~= text@.subrange(0, i as int));
        assert(prefix.last() == b);
        total = total * 10 + (b - 48) as i64;
        i += 1;
        if total > 0x7fff_ffff {
            proof {
                if is_digits(text@) {
                    lemma_value_grows(text@, i as int);
                }
            }
            return None;
        }
    }
    assert(text@.subrange(0, i as int) =~= text@);
    Some(total as i32)
}

/// The shape that a letter stands for.
pub fn shape_from_letter(letter: u8) -> (shape: Option<MinoShape>)
    ensures
        shape == shape_of_letter(letter),
{
    if letter == 73 {
        Some(MinoShape::I)
    } else if letter == 74 {
        Some(MinoShape::J)
    } else if letter == 76 {
        Some(MinoShape::L)
    } else if letter == 79 {
        Some(MinoShape::O)
    } else if letter == 83 {
        Some(MinoShape::S)
    } else if letter == 84 {
        Some(MinoShape::T)
    } else if letter == 90 {
        Some(MinoShape::Z)
    } else {
        None
    }
}

/// Cut a text into its lines.
pub fn split_lines(text: &[u8]) -> (lines: Vec<Vec<u8>>)
    ensures
        views(lines@) == lines_of(text@),
{
    let mut pieces = split_bytes(text, NEWLINE);
    let ghost cut = split(text@, NEWLINE);
    let ended = pieces.len() - 1;
    let mut i: usize = 0;
    while i < ended
        invariant
            i <= ended,
            ended == cut.len() - 1,
            pieces.len() == cut.len(),
            forall|k: int| 0 <= k < i ==> (#[trigger] pieces[k])@ == without_return(cut[k]),
            forall|k: int| i <= k < pieces.len() ==> (#[trigger] pieces[k])@ == cut[k],
        decreases ended - i,
    {
        let n = pieces[i].len();
        if n > 0 && pieces[i][n - 1] == CARRIAGE_RETURN {
            let ghost before = pieces@;
            let mut line: Vec<u8> = Vec::new();
            let mut k: usize = 0;
            while k < n - 1
                invariant
                    k <= n - 1,
                    i < pieces.len(),
                    n == pieces[i as int].len(),
                    line@ == pieces[i as int]@.subrange(0, k as int),
                decreases n - 1 - k,
            {
                line.push(pieces[i][k]);
                assert(line@ =~= pieces[i as int]@.subrange(0, k + 1));
                k += 1;
            }
            assert(line@ =~= without_return(cut[i as int]));
            pieces[i] = line;
            assert forall|k: int| i < k < pieces.len() implies (#[trigger] pieces[k])@
                == cut[k] by {
                assert(pieces[k] == before[k]);
            }
            assert forall|k: int| 0 <= k < i implies (#[trigger] pieces[k])@ == without_return(
                cut[k],
            ) by {
                assert(pieces[k] == before[k]);
            }
        }
        i += 1;
    }
    if pieces[ended].len() == 0 {
        let ghost before = pieces@;
        pieces.pop();
        assert(views(pieces@) =~= lines_of(text@)) by {
            assert forall|k: int| 0 <= k < pieces.len() implies pieces[k] == before[k] by {}
        }
    } else {
        assert(views(pieces@) =~= lines_of(text@));
    }
    pieces
}

/// Turn a request string into accompanying state and next piece.
pub fn parse_request(request: &String) -> (r: Result<(State, MinoShape), ProtocolError>)
    ensures
        match r {
            Ok((state, shape)) => request_error(vstd::utf8::encode_utf8(request@)) is None
                && request_says(vstd::utf8::encode_utf8(request@), state, shape) && state.valid(),
            Err(e) => request_error(vstd::utf8::encode_utf8(request@)) == Some(e),
        },
{
    let text = request.as_str().as_bytes();
    let ghost bytes = vstd::utf8::encode_utf8(request@);
    assert(text@ == bytes);
    let lines = split_lines(text);
    let ghost rows = lines_of(bytes);
    assert(views(lines@) == rows);
    assert(lines.len() == rows.len());
    if lines.len() < 22 {
        return Err(ProtocolError::MissingLines);
    }
    let mut state = State::new();
    let mut y: usize = 0;
    while y < 20
        invariant
            y <= 20,
            lines.len() >= 22,
            rows.len() == lines.len(),
            rows == lines_of(vstd::utf8::encode_utf8(request@)),
            views(lines@) == rows,
            forall|r: int| 0 <= r < y ==> is_row(#[trigger] rows[r]),
            forall|x: int, r: int|
                0 <= x < 10 && 0 <= r < y ==> #[trigger] state.board.occupied(x, r) == (rows[r][x]
                    == TAKEN_CELL),
            state.score == 0,
            state.level == 0,
            state.lines == 0,
        decreases 20 - y,
    {
        assert(lines[y as int]@ == rows[y as int]);
        if lines[y].len() != 10 {
            assert(!is_row(rows[y as int]));
            return Err(ProtocolError::BadRow);
        }
        let mut x: usize = 0;
        while x < 10
            invariant
                x <= 10,
                y < 20,
                lines.len() >= 22,
                rows.len() == lines.len(),
                rows == lines_of(vstd::utf8::encode_utf8(request@)),
                lines[y as int]@ == rows[y as int],
                rows[y as int].len() == 10,
                forall|r: int| 0 <= r < y ==> is_row(#[trigger] rows[r]),
                forall|c: int|
                    0 <= c < x ==> rows[y as int][c] == FREE_CELL || rows[y as int][c]
                        == TAKEN_CELL,
                forall|c: int, r: int|
                    0 <= c < 10 && 0 <= r < y ==> #[trigger] state.board.occupied(c, r) == (
                    rows[r][c] == TAKEN_CELL),
                forall|c: int|
                    0 <= c < x ==> #[trigger] state.board.occupied(c, y as int) == (rows[y as int][c]
                        == TAKEN_CELL),
                state.score == 0,
                state.level == 0,
                state.lines == 0,
            decreases 10 - x,
        {
            let cell = lines[y][x];
            let ghost before = state.board;
            if cell == TAKEN_CELL {
                state.board.grid[y][x] = true;
            } else if cell == FREE_CELL {
                state.board.grid[y][x] = false;
            } else {
                assert(!is_row(rows[y as int]));
                return Err(ProtocolError::BadRow);
            }
            assert forall|c: int, r: int|
                0 <= c < 10 && 0 <= r < 20 && !(c == x && r == y) implies #[trigger] state.board.occupied(
                c,
                r,
            ) == before.occupied(c, r) by {
                if r != y {
                    assert(state.board.grid[r] == before.grid[r]);
                }
            }
            assert(state.board.occupied(x as int, y as int) == (cell == TAKEN_CELL));
            x += 1;
        }
        assert(is_row(rows[y as int]));
        y += 1;
    }
    assert(lines[20]@ == rows[20]);
    assert(lines[21]@ == rows[21]);
    if lines[20].len() == 0 {
        return Err(ProtocolError::UnknownPiece);
    }
    let shape = match shape_from_letter(lines[20][0]) {
        Some(shape) => shape,
        None => {
            return Err(ProtocolError::UnknownPiece);
        },
    };
    let fields = split_bytes(lines[21].as_slice(), SPACE);
    assert(views(fields@) == split(rows[21], SPACE));
    if fields.len() != 3 {
        return Err(ProtocolError::BadCounters);
    }
    assert(fields[0]@ == split(rows[21], SPACE)[0]);
    assert(fields[1]@ == split(rows[21], SPACE)[1]);
    assert(fields[2]@ == split(rows[21], SPACE)[2]);
    let level = parse_counter(&fields[0]);
    let score = parse_counter(&fields[1]);
    let cleared = parse_counter(&fields[2]);
    match (level, score, cleared) {
        (Some(level), Some(score), Some(cleared)) => {
            if cleared / 10 > level {
                return Err(ProtocolError::BadCounters);
            }
            state.level = level;
            state.score = score;
            state.lines = cleared;
            proof {
                lemma_value_nonnegative(fields[1]@);
                lemma_value_nonnegative(fields[2]@);
            }
            Ok((state, shape))
        },
        _ => Err(ProtocolError::BadCounters),
    }
}

/// The text of one digit.
fn digit_text(d: u64) -> (text: &'static str)
    requires
        d < 10,
    ensures
        text@ == seq![digit(d as int)],
{
    proof {
        reveal_strlit("0");
        reveal_strlit("1");
        reveal_strlit("2");
        reveal_strlit("3");
        reveal_strlit("4");
        reveal_strlit("5");
        reveal_strlit("6");
        reveal_strlit("7");
        reveal_strlit("8");
        reveal_strlit("9");
    }
    let text = if d == 0 {
        "0"
    } else if d == 1 {
        "1"
    } else if d == 2 {
        "2"
    } else if d == 3 {
        "3"
    } else if d == 4 {
        "4"
    } else if d == 5 {
        "5"
    } else if d == 6 {
        "6"
    } else if d == 7 {
        "7"
    } else if d == 8 {
        "8"
    } else {
        "9"
    };
    assert(text@ =~= seq![digit(d as int)]);
    text
}

/// Write a natural number in decimal digits at the end of the text.
fn push_digits(out: &mut String, n: u64)
    ensures
        final(out)@ == old(out)@ + digits(n as nat),
    decreases n,
{
    if n >= 10 {
        push_digits(out, n / 10);
    }
    let ghost before = out@;
    out.append(digit_text(n % 10));
    assert(out@ =~= old(out)@ + digits(n as nat)) by {
        if n >= 10 {
            assert(before == old(out)@ + digits((n / 10) as nat));
        }
    }
}

/// Write a whole number in decimal digits at the end of the text.
fn push_decimal(out: &mut String, v: i64)
    ensures
        final(out)@ == old(out)@ + decimal(v as int),
{
    if v < 0 {
        proof {
            reveal_strlit("-");
        }
        out.append("-");
        assert(out@ =~= old(out)@ + seq!['-']);
        let n: u64 = if v == i64::MIN {
            0x8000_0000_0000_0000
        } else {
            (-v) as u64
        };
        push_digits(out, n);
        assert(out@ =~= old(out)@ + decimal(v as int));
    } else {
        push_digits(out, v as u64);
    }
}

/// Turn a path into a response string.
pub fn make_response(path: Vec<(i32, i32, i32)>) -> (response: String)
    ensures
        response@ == response_text(path@),
{
    proof {
        reveal_strlit("\n");
        reveal_strlit(" ");
    }
    let mut out = String::new();
    push_digits(&mut out, path.len() as u64);
    assert(out@ =~= decimal(path.len() as int));
    out.append("\n");
    let ghost head = out@;
    assert(head =~= decimal(path.len() as int) + seq!['\n']);
    let mut i: usize = 0;
    assert(path@.subrange(0, 0) =~= Seq::<(i32, i32, i32)>::empty());
    while i < path.len()
        invariant
            i <= path.len(),
            out@ == head + waypoint_lines(path@.subrange(0, i as int)),
        decreases path.len() - i,
    {
        let ghost before = out@;
        let (x, y, r) = path[i];
        push_decimal(&mut out, x as i64);
        let ghost s1 = out@;
        out.append(" ");
        let ghost s2 = out@;
        push_decimal(&mut out, y as i64);
        let ghost s3 = out@;
        out.append(" ");
        let ghost s4 = out@;
        push_decimal(&mut out, r as i64);
        let ghost s5 = out@;
        out.append("\n");
        proof {
            reveal_strlit("\n");
            reveal_strlit(" ");
            let prefix = path@.subrange(0, i + 1);
            assert(prefix.drop_last() =~= path@.subrange(0, i as int));
            assert(prefix.last() == path@[i as int]);
            assert(s1 == before + decimal(x as int));
            assert(s2 == s1 + seq![' ']);
            assert(s3 == s2 + decimal(y as int));
            assert(s4 == s3 + seq![' ']);
            assert(s5 == s4 + decimal(r as int));
            assert(out@ == s5 + seq!['\n']);
            assert(out@ =~= before + waypoint_line(path@[i as int]));
            assert(out@ =~= head + waypoint_lines(prefix));
        }
        i += 1;
    }
    assert(path@.subrange(0, i as int) =~= path@);
    out
}

} // verus!
