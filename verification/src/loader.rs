use vstd::prelude::*;
use vstd::string::StrSliceExecFns;
use vstd::view::View as ModelView;
use crate::board::Board;
use crate::board::rule_text;
use crate::level::{
    extract_file_string, file_text, lines_view, tokenize_spec, tokens_view, try_tokenize, Token,
    TokenModel,
};
use crate::text::chars_of;
use crate::view::{is_view_code, view_of_code, view_text, View};

verus! {

/// Why a level could not be read.
#[derive(PartialEq, Eq, Clone, Debug)]
pub enum LevelError {
    /// A board line (the text after its `>`) is not one quoted name.
    BoardLine(String),
}

/// The name a board line gives: its tokens are one quoted string.
pub open spec fn board_name_spec(ts: Seq<TokenModel>) -> Option<Seq<char>> {
    if ts.len() == 1 {
        match ts[0] {
            TokenModel::String(s) => Some(s),
            _ => None,
        }
    } else {
        None
    }
}

/// What reading one board line comes to.
pub enum BoardReading {
    /// A board on this view.
    Board(View),
    /// The line is not one quoted name.
    Unreadable,
    /// The tokenizer panics on the line, or its name is no view's code.
    Panics,
}

/// What reading a board line comes to.
pub open spec fn read_board_spec(line: Seq<char>) -> BoardReading {
    match tokenize_spec(line) {
        None => BoardReading::Panics,
        Some(ts) => match board_name_spec(ts) {
            Some(name) => match view_of_code(name) {
                Some(v) => BoardReading::Board(v),
                None => BoardReading::Panics,
            },
            None => BoardReading::Unreadable,
        },
    }
}

/// A board from a line that holds its view's code in quotes.
pub fn read_board<Z>(line: &str) -> (r: Result<Board<Z>, LevelError>)
    requires
        !(read_board_spec(line@) is Panics),
    ensures
        match read_board_spec(line@) {
            BoardReading::Board(v) => match r {
                Ok(b) => b.wf() && b.current() == v && b.zones() == Map::<View, Z>::empty(),
                Err(_) => false,
            },
            _ => match r {
                Ok(_) => false,
                Err(LevelError::BoardLine(s)) => s@ == line@,
            },
        },
{
    let tokens = match try_tokenize(line) {
        Some(t) => t,
        None => {
            return Err(LevelError::BoardLine(line.to_owned()));
        },
    };
    assert(tokenize_spec(line@) == Some(tokens_view(tokens@)));
    if tokens.len() == 1 {
        assert(tokens_view(tokens@)[0] == tokens@[0]@);
        match &tokens[0] {
            Token::String(name) => {
                let view = View::from(name);
                return Ok(Board::new(view));
            },
            _ => {},
        }
    }
    Err(LevelError::BoardLine(line.to_owned()))
}

/// Whether reading a board line panics: the tokenizer panics on it, or it
/// names no view's code.
pub fn board_line_panics(line: &str) -> (r: bool)
    ensures
        r == read_board_spec(line@) is Panics,
{
    let tokens = match try_tokenize(line) {
        Some(t) => t,
        None => {
            return true;
        },
    };
    assert(tokenize_spec(line@) == Some(tokens_view(tokens@)));
    if tokens.len() == 1 {
        assert(tokens_view(tokens@)[0] == tokens@[0]@);
        match &tokens[0] {
            Token::String(name) => {
                return !is_view_code(name);
            },
            _ => {},
        }
    }
    false
}

/// A line without the carriage return that ends it, if one does.
pub open spec fn strip_cr(s: Seq<char>) -> Seq<char> {
    if s.len() > 0 && s.last() == '\r' {
        s.drop_last()
    } else {
        s
    }
}

/// The lines ended so far and the line under way, after the characters
/// `cs`.
pub open spec fn line_split(cs: Seq<char>) -> (Seq<Seq<char>>, Seq<char>)
    decreases cs.len(),
{
    if cs.len() == 0 {
        (Seq::empty(), Seq::empty())
    } else {
        let acc = line_split(cs.drop_last());
        if cs.last() == '\n' {
            (acc.0.push(strip_cr(acc.1)), Seq::empty())
        } else {
            (acc.0, acc.1.push(cs.last()))
        }
    }
}

/// The lines of a text, as `str::lines` gives them: split at each `\n`,
/// a `\r` before it dropped, and no empty line after a final `\n`.
pub open spec fn lines_spec(cs: Seq<char>) -> Seq<Seq<char>> {
    let acc = line_split(cs);
    if acc.1.len() > 0 {
        acc.0.push(acc.1)
    } else {
        acc.0
    }
}

/// The text of each string in `v`.
pub open spec fn strings_view(v: Seq<String>) -> Seq<Seq<char>> {
    v.map_values(|s: String| s@)
}

/// The lines of a text.
pub fn split_lines(text: &str) -> (r: Vec<String>)
    ensures
        strings_view(r@) == lines_spec(text@),
{
    let cs = chars_of(text);
    let mut done: Vec<String> = Vec::new();
    let mut cur = String::new();
    let mut i: usize = 0;
    while i < cs.len()
        invariant
            cs@ == text@,
            0 <= i <= cs@.len(),
            line_split(cs@.take(i as int)) == (strings_view(done@), cur@),
        decreases cs@.len() - i,
    {
        let c = cs[i];
        assert(cs@.take(i + 1).drop_last() =~= cs@.take(i as int));
        if c == '\n' {
            let n = cur.unicode_len();
            if n > 0 && cur.as_str().get_char(n - 1) == '\r' {
                let line = cur.as_str().substring_char(0, n - 1).to_owned();
                assert(line@ =~= strip_cr(cur@));
                done.push(line);
            } else {
                done.push(cur);
            }
            cur = String::new();
        } else {
            cur.push(c);
        }
        assert(strings_view(done@) =~= line_split(cs@.take(i + 1)).0);
        i = i + 1;
    }
    assert(cs@.take(cs@.len() as int) =~= cs@);
    if cur.unicode_len() > 0 {
        done.push(cur);
    }
    assert(strings_view(done@) =~= lines_spec(text@));
    done
}

/// Whether a line opens a board: it starts with `>`.
pub open spec fn opens_board(line: Seq<char>) -> bool {
    line.len() > 0 && line[0] == '>'
}

/// The count of boards `read_level_line` hands back: it stays 0 from 0, and
/// goes up by one from any other count.
pub open spec fn next_size(size: usize) -> usize {
    if size == 0 {
        0
    } else {
        (size + 1) as usize
    }
}

/// Reads one line of a level: a line that opens a board adds the board it
/// names to `boards`; any other line is passed over.
pub fn read_level_line<Z>(line: &str, size: usize, boards: &mut Vec<Board<Z>>) -> (r: Result<
    usize,
    LevelError,
>)
    requires
        opens_board(line@) ==> !(read_board_spec(line@.skip(1)) is Panics),
        opens_board(line@) && size > 0 ==> size < usize::MAX,
    ensures
        !opens_board(line@) ==> r == Ok::<usize, LevelError>(size) && final(boards)@ == old(
            boards,
        )@,
        opens_board(line@) ==> match read_board_spec(line@.skip(1)) {
            BoardReading::Board(v) => {
                &&& r == Ok::<usize, LevelError>(next_size(size))
                &&& final(boards)@.len() == old(boards)@.len() + 1
                &&& final(boards)@.take(old(boards)@.len() as int) == old(boards)@
                &&& final(boards)@.last().wf()
                &&& final(boards)@.last().current() == v
                &&& final(boards)@.last().zones() == Map::<View, Z>::empty()
            },
            _ => {
                &&& final(boards)@ == old(boards)@
                &&& match r {
                    Ok(_) => false,
                    Err(LevelError::BoardLine(s)) => s@ == line@.skip(1),
                }
            },
        },
{
    let n = line.unicode_len();
    if n > 0 && line.get_char(0) == '>' {
        let rest = line.substring_char(1, n);
        assert(rest@ =~= line@.skip(1));
        let board = read_board(rest)?;
        let ghost before = boards@;
        boards.push(board);
        assert(boards@.take(before.len() as int) =~= before);
        if size == 0 {
            Ok(size)
        } else {
            Ok(size + 1)
        }
    } else {
        Ok(size)
    }
}

/// What reading a level comes to so far.
pub enum LevelReading {
    /// The views of the boards read, in order.
    Read(Seq<View>),
    /// The views of the boards read before a board line that could not be
    /// read, and that line's text after its `>`.
    Failed(Seq<View>, Seq<char>),
    /// A board line on which the reader panics.
    Panics,
}

/// Reading one more line of a level.
pub open spec fn level_step(acc: LevelReading, line: Seq<char>) -> LevelReading {
    match acc {
        LevelReading::Read(vs) => if opens_board(line) {
            match read_board_spec(line.skip(1)) {
                BoardReading::Board(v) => LevelReading::Read(vs.push(v)),
                BoardReading::Unreadable => LevelReading::Failed(vs, line.skip(1)),
                BoardReading::Panics => LevelReading::Panics,
            }
        } else {
            acc
        },
        _ => acc,
    }
}

/// Reading the given lines of a level, in order.
pub open spec fn level_run(lines: Seq<Seq<char>>) -> LevelReading
    decreases lines.len(),
{
    if lines.len() == 0 {
        LevelReading::Read(Seq::empty())
    } else {
        level_step(level_run(lines.drop_last()), lines.last())
    }
}

/// What reading a level file comes to.
pub open spec fn read_level_spec(text: Seq<char>) -> LevelReading {
    level_run(lines_spec(text))
}

/// Whether reading a level file panics: a board line met before any
/// unreadable one panics.
pub fn level_panics(contents: &str) -> (r: bool)
    ensures
        r == read_level_spec(contents@) is Panics,
{
    let lines = split_lines(contents);
    let ghost ls = strings_view(lines@);
    let mut k: usize = 0;
    assert(ls.take(0) =~= Seq::<Seq<char>>::empty());
    while k < lines.len()
        invariant
            ls == strings_view(lines@),
            ls == lines_spec(contents@),
            0 <= k <= lines@.len(),
            level_run(ls.take(k as int)) is Read,
        decreases lines@.len() - k,
    {
        assert(ls.take(k + 1).drop_last() =~= ls.take(k as int));
        assert(ls.take(k + 1).last() == lines@[k as int]@);
        let line = lines[k].as_str();
        let n = line.unicode_len();
        if n > 0 && line.get_char(0) == '>' {
            let rest = line.substring_char(1, n);
            assert(rest@ =~= line@.skip(1));
            if board_line_panics(rest) {
                proof {
                    lemma_level_run_panics_stays(ls, k + 1);
                }
                return true;
            }
            let tokens = try_tokenize(rest);
            let unreadable = match &tokens {
                Some(t) => !(t.len() == 1 && matches!(t[0], Token::String(_))),
                None => false,
            };
            if unreadable {
                proof {
                    assert(read_board_spec(rest@) is Unreadable) by {
                        let ts = tokenize_spec(rest@)->0;
                        let t = tokens->0;
                        assert(ts == tokens_view(t@));
                        if t@.len() == 1 {
                            assert(ts[0] == t@[0]@);
                        }
                    }
                    lemma_level_run_failed_stays(ls, k + 1);
                }
                return false;
            }
            proof {
                assert(read_board_spec(rest@) is Board) by {
                    let ts = tokenize_spec(rest@)->0;
                    let t = tokens->0;
                    assert(ts == tokens_view(t@));
                    assert(ts[0] == t@[0]@);
                }
            }
        }
        k = k + 1;
    }
    assert(ls.take(ls.len() as int) =~= ls);
    false
}

/// The views of a list of boards, where each is well formed and without
/// zones.
pub open spec fn fresh_boards<Z>(bs: Seq<Board<Z>>, vs: Seq<View>) -> bool {
    &&& bs.len() == vs.len()
    &&& forall|i: int|
        #![trigger bs[i]]
        0 <= i < bs.len() ==> bs[i].wf() && bs[i].current() == vs[i] && bs[i].zones() == Map::<
            View,
            Z,
        >::empty()
}

/// Shows the first of the boards read: the board on show becomes a copy of
/// it, at index 0.
pub fn set_first_board<Z: Clone>(boards: &Vec<Board<Z>>, board: &mut Board<Z>, board_index: &mut usize)
    requires
        boards@.len() > 0,
    ensures
        *final(board_index) == 0,
        final(board).current() == boards@[0].current(),
        final(board).wf() == boards@[0].wf(),
        final(board).entries().len() == boards@[0].entries().len(),
        forall|i: int|
            0 <= i < boards@[0].entries().len() ==> (#[trigger] final(board).entries()[i]).0
                == boards@[0].entries()[i].0 && cloned(
                boards@[0].entries()[i].1,
                final(board).entries()[i].1,
            ),
        boards@[0].zones() == Map::<View, Z>::empty() ==> final(board).zones()
            == boards@[0].zones(),
{
    *board_index = 0;
    *board = boards[0].duplicate();
}

/// Reads the boards of a level file into `boards`, which is emptied first:
/// each line that starts with `>` names a board by its view's code. At a
/// board line that cannot be read, reading stops with its error, and the
/// boards read before it stay. Where every board line is read and there is
/// at least one, the first board is put on show at index 0; otherwise the
/// board on show and its index stay as they were.
pub fn read_level_from_string<Z: Clone>(
    contents: &str,
    boards: &mut Vec<Board<Z>>,
    board: &mut Board<Z>,
    board_index: &mut usize,
) -> (r: Result<(), LevelError>)
    requires
        !(read_level_spec(contents@) is Panics),
    ensures
        match read_level_spec(contents@) {
            LevelReading::Read(vs) => {
                &&& r is Ok
                &&& fresh_boards(final(boards)@, vs)
                &&& vs.len() > 0 ==> {
                    &&& final(board).wf()
                    &&& final(board).current() == vs[0]
                    &&& final(board).zones() == Map::<View, Z>::empty()
                    &&& *final(board_index) == 0
                }
                &&& vs.len() == 0 ==> *final(board) == *old(board) && *final(board_index)
                    == *old(board_index)
            },
            LevelReading::Failed(vs, line) => {
                &&& fresh_boards(final(boards)@, vs)
                &&& *final(board) == *old(board)
                &&& *final(board_index) == *old(board_index)
                &&& match r {
                    Ok(_) => false,
                    Err(LevelError::BoardLine(s)) => s@ == line,
                }
            },
            LevelReading::Panics => false,
        },
{
    boards.clear();
    let lines = split_lines(contents);
    let ghost ls = strings_view(lines@);
    let mut size: usize = 0;
    let mut k: usize = 0;
    assert(ls.take(0) =~= Seq::<Seq<char>>::empty());
    while k < lines.len()
        invariant
            ls == strings_view(lines@),
            ls == lines_spec(contents@),
            0 <= k <= lines@.len(),
            size == 0,
            level_run(ls.take(k as int)) matches LevelReading::Read(vs) && fresh_boards(boards@, vs),
            !(level_run(ls) is Panics),
            *board == *old(board),
            *board_index == *old(board_index),
        decreases lines@.len() - k,
    {
        let ghost before = boards@;
        let ghost vs = level_run(ls.take(k as int))->Read_0;
        assert(ls.take(k + 1).drop_last() =~= ls.take(k as int));
        assert(ls.take(k + 1).last() == lines@[k as int]@);
        proof {
            lemma_level_run_panics_stays(ls, k + 1);
        }
        let res = read_level_line(lines[k].as_str(), size, boards);
        match res {
            Ok(s) => {
                size = s;
                proof {
                    if opens_board(lines@[k as int]@) {
                        let v = read_board_spec(lines@[k as int]@.skip(1))->Board_0;
                        lemma_fresh_push(before, boards@, vs, v);
                    }
                }
            },
            Err(e) => {
                proof {
                    lemma_level_run_failed_stays(ls, k + 1);
                }
                return Err(e);
            },
        }
        k = k + 1;
    }
    assert(ls.take(ls.len() as int) =~= ls);
    if boards.len() > 0 {
        set_first_board(boards, board, board_index);
    }
    Ok(())
}

/// The tokens of the line that saves a board: a `>`, then the board's text.
pub open spec fn board_line_tokens(v: View) -> Seq<TokenModel> {
    seq![TokenModel::Varying('>'), TokenModel::String(view_text(v) + rule_text())]
}

/// Adds the line that saves `board` to the lines of a level.
pub fn save_board_line<Z>(board: &Board<Z>, tokens: &mut Vec<Vec<Token>>)
    ensures
        lines_view(final(tokens)@) == lines_view(old(tokens)@).push(
            board_line_tokens(board.current()),
        ),
{
    let mut line: Vec<Token> = Vec::new();
    line.push(Token::Varying('>'));
    line.push(Token::String(board.as_text()));
    assert(tokens_view(line@) =~= board_line_tokens(board.current()));
    let ghost before = tokens@;
    tokens.push(line);
    assert(lines_view(tokens@) =~= lines_view(before).push(board_line_tokens(board.current())));
}

/// The text of the level file that saves `board`: one board line.
pub fn save_level_text<Z>(board: &Board<Z>) -> (r: String)
    ensures
        r@ == file_text(seq![board_line_tokens(board.current())]),
{
    let mut tokens: Vec<Vec<Token>> = Vec::new();
    save_board_line(board, &mut tokens);
    assert(lines_view(tokens@) =~= seq![board_line_tokens(board.current())]);
    extract_file_string(&tokens)
}

proof fn lemma_fresh_push<Z>(before: Seq<Board<Z>>, after: Seq<Board<Z>>, vs: Seq<View>, v: View)
    requires
        fresh_boards(before, vs),
        after.len() == before.len() + 1,
        after.take(before.len() as int) == before,
        after.last().wf(),
        after.last().current() == v,
        after.last().zones() == Map::<View, Z>::empty(),
    ensures
        fresh_boards(after, vs.push(v)),
{
    assert forall|i: int| #![trigger after[i]] 0 <= i < after.len() implies after[i].wf()
        && after[i].current() == vs.push(v)[i] && after[i].zones() == Map::<View, Z>::empty() by {
        if i < before.len() {
            assert(after.take(before.len() as int)[i] == after[i]);
            assert(before[i].wf());
        } else {
            assert(after[i] == after.last());
        }
    }
}

proof fn lemma_level_run_panics_stays(ls: Seq<Seq<char>>, j: int)
    requires
        0 <= j <= ls.len(),
    ensures
        level_run(ls.take(j)) is Panics ==> level_run(ls) is Panics,
    decreases ls.len() - j,
{
    if j < ls.len() {
        lemma_level_run_panics_stays(ls, j + 1);
        assert(ls.take(j + 1).drop_last() =~= ls.take(j));
    } else {
        assert(ls.take(j) =~= ls);
    }
}

proof fn lemma_level_run_failed_stays(ls: Seq<Seq<char>>, j: int)
    requires
        0 <= j <= ls.len(),
    ensures
        level_run(ls.take(j)) is Failed ==> level_run(ls) == level_run(ls.take(j)),
    decreases ls.len() - j,
{
    if j < ls.len() {
        lemma_level_run_failed_stays(ls, j + 1);
        assert(ls.take(j + 1).drop_last() =~= ls.take(j));
    } else {
        assert(ls.take(j) =~= ls);
    }
}

} // verus!
