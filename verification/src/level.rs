use vstd::prelude::*;
use vstd::utf8::*;
use vstd::string::*;

use crate::numeral::{parse_i32, parse_i32_spec, push_i32, push_u8, decimal_text};
use crate::text::{byte_slice_chars, chars_of, slice_chars};

verus! {

broadcast use {
    vstd::utf8::encode_utf8_valid_utf8,
    vstd::utf8::encode_utf8_decode_utf8,
    vstd::seq_lib::group_seq_properties,
};

/// An optional condition attached to a rune.
#[derive(PartialEq, Eq, Hash, Clone, Copy, Debug, Structural)]
pub enum ConditionRuneToken {
    Condition(char),
    Absent,
}

/// One rune of an arrangement: a letter and a count from 0 to 3.
#[derive(PartialEq, Eq, Hash, Clone, Copy, Debug, Structural)]
pub enum RuneToken {
    Action(char, u8, ConditionRuneToken),
    Manip(char, u8, ConditionRuneToken),
    Absent,
}

/// A token of a level file line. `Quote`, `Coordinates` and `Ruminations`
/// are the positions the scanner records; `tokenize` turns them into
/// `String`, `Coord` and `Runes`.
#[derive(PartialEq, Eq, Hash, Clone, Debug)]
pub enum Token {
    Quote(usize, usize),
    String(String),
    Coordinates(usize, usize, usize),
    Coord(i32, i32),
    Varying(char),
    Ruminations(usize, Vec<usize>),
    Runes(Vec<Vec<RuneToken>>),
}

/// Where the scanner stands: at the top level, inside a quote, inside a
/// coordinate pair (opening parenthesis and comma, the comma 0 while none was
/// seen) or inside a rune list (opening bracket and the commas so far).
pub enum TokenizingState {
    Root,
    Quoting(usize),
    Coordinating(usize, usize),
    Ruminating(usize, Vec<usize>),
}

/// The mathematical value of a `Token`.
pub enum TokenModel {
    Quote(usize, usize),
    String(Seq<char>),
    Coordinates(usize, usize, usize),
    Coord(i32, i32),
    Varying(char),
    Ruminations(usize, Seq<usize>),
    Runes(Seq<Seq<RuneToken>>),
}

/// The mathematical value of a `TokenizingState`.
pub enum ScanState {
    Root,
    Quoting(usize),
    Coordinating(usize, usize),
    Ruminating(usize, Seq<usize>),
}

impl View for Token {
    type V = TokenModel;

    open spec fn view(&self) -> TokenModel {
        match self {
            Token::Quote(a, b) => TokenModel::Quote(*a, *b),
            Token::String(s) => TokenModel::String(s@),
            Token::Coordinates(a, b, c) => TokenModel::Coordinates(*a, *b, *c),
            Token::Coord(x, y) => TokenModel::Coord(*x, *y),
            Token::Varying(c) => TokenModel::Varying(*c),
            Token::Ruminations(a, v) => TokenModel::Ruminations(*a, v@),
            Token::Runes(r) => TokenModel::Runes(arrangements_view(r@)),
        }
    }
}

impl View for TokenizingState {
    type V = ScanState;

    open spec fn view(&self) -> ScanState {
        match self {
            TokenizingState::Root => ScanState::Root,
            TokenizingState::Quoting(a) => ScanState::Quoting(*a),
            TokenizingState::Coordinating(a, b) => ScanState::Coordinating(*a, *b),
            TokenizingState::Ruminating(a, v) => ScanState::Ruminating(*a, v@),
        }
    }
}

pub open spec fn arrangements_view(r: Seq<Vec<RuneToken>>) -> Seq<Seq<RuneToken>> {
    r.map_values(|a: Vec<RuneToken>| a@)
}

pub open spec fn tokens_view(v: Seq<Token>) -> Seq<TokenModel> {
    v.map_values(|t: Token| t@)
}

/// What the scanner has seen so far: its state, the tokens it recorded, and
/// whether it hit a coordinate pair closed before its comma.
pub struct Scan {
    pub state: ScanState,
    pub raw: Seq<TokenModel>,
    pub failed: bool,
}

pub open spec fn is_action_char(c: char) -> bool {
    c == 'a' || c == 'b' || c == 'g' || c == 'r' || c == 'l' || c == 'p' || c == 's' || c == 'd'
}

pub open spec fn is_manip_char(c: char) -> bool {
    c == 'n' || c == 'v' || c == 'k' || c == 't'
}

pub open spec fn is_count_char(c: char) -> bool {
    '0' <= c && c <= '3'
}

/// A character the top level keeps as a `Varying` token: its low byte is
/// above the space character.
pub open spec fn is_visible(c: char) -> bool {
    (c as u32) % 256 > 32
}

/// One step of the scanner, on the character `c` at index `i`.
pub open spec fn scan_step(s: Scan, i: int, c: char) -> Scan {
    let iu = i as usize;
    if s.failed {
        s
    } else if c == '"' {
        match s.state {
            ScanState::Quoting(start) => Scan {
                state: ScanState::Root,
                raw: s.raw.push(TokenModel::Quote(start, iu)),
                failed: false,
            },
            _ => Scan { state: ScanState::Quoting(iu), raw: s.raw, failed: false },
        }
    } else if c == '(' {
        match s.state {
            ScanState::Root => Scan {
                state: ScanState::Coordinating(iu, 0),
                raw: s.raw,
                failed: false,
            },
            _ => s,
        }
    } else if c == ',' {
        match s.state {
            ScanState::Coordinating(j, k) => if k == 0 {
                Scan { state: ScanState::Coordinating(j, iu), raw: s.raw, failed: false }
            } else {
                s
            },
            ScanState::Ruminating(st, v) => Scan {
                state: ScanState::Ruminating(st, v.push(iu)),
                raw: s.raw,
                failed: false,
            },
            _ => s,
        }
    } else if c == ')' {
        match s.state {
            ScanState::Coordinating(j, k) => if k == 0 {
                Scan { state: s.state, raw: s.raw, failed: true }
            } else {
                Scan {
                    state: ScanState::Root,
                    raw: s.raw.push(TokenModel::Coordinates(j, k, iu)),
                    failed: false,
                }
            },
            _ => s,
        }
    } else if c == '[' {
        match s.state {
            ScanState::Root => Scan {
                state: ScanState::Ruminating(iu, Seq::empty()),
                raw: s.raw,
                failed: false,
            },
            _ => s,
        }
    } else if c == ']' {
        match s.state {
            ScanState::Ruminating(st, v) => Scan {
                state: ScanState::Root,
                raw: s.raw.push(TokenModel::Ruminations(st, v.push(iu))),
                failed: false,
            },
            _ => s,
        }
    } else if is_visible(c) {
        match s.state {
            ScanState::Root => Scan {
                state: ScanState::Root,
                raw: s.raw.push(TokenModel::Varying(c)),
                failed: false,
            },
            _ => s,
        }
    } else {
        s
    }
}

/// The scanner after the characters `cs`, which stand at indices
/// `off`, `off + 1`, ... of the line, starting from `s0`.
pub open spec fn scan_run(s0: Scan, cs: Seq<char>, off: int) -> Scan
    decreases cs.len(),
{
    if cs.len() == 0 {
        s0
    } else {
        scan_step(scan_run(s0, cs.drop_last(), off), off + cs.len() - 1, cs.last())
    }
}

pub open spec fn scan_start() -> Scan {
    Scan { state: ScanState::Root, raw: Seq::empty(), failed: false }
}

/// The scanner after a whole line.
pub open spec fn scan_line(cs: Seq<char>) -> Scan {
    scan_run(scan_start(), cs, 0)
}

/// The positions in a scanner state lie before `i`, in the order the
/// scanner met them.
pub open spec fn state_wf(st: ScanState, i: int) -> bool {
    match st {
        ScanState::Root => true,
        ScanState::Quoting(a) => a < i,
        ScanState::Coordinating(a, b) => a < i && (b == 0 || (a < b && b < i)),
        ScanState::Ruminating(a, v) => a < i && marks_wf(a as int, v, i),
    }
}

/// `v` rises strictly, from above `lo` to below `hi`.
pub open spec fn marks_wf(lo: int, v: Seq<usize>, hi: int) -> bool {
    &&& forall|k: int| 0 <= k < v.len() ==> lo < #[trigger] v[k] < hi
    &&& forall|k: int, l: int| 0 <= k < l < v.len() ==> #[trigger] v[k] < #[trigger] v[l]
}

/// A token the scanner records: one of the four kinds, with positions in
/// order and below `n`.
pub open spec fn raw_wf(t: TokenModel, n: int) -> bool {
    match t {
        TokenModel::Quote(a, b) => a < b < n,
        TokenModel::Coordinates(a, b, c) => a < b < c < n,
        TokenModel::Varying(_) => true,
        TokenModel::Ruminations(a, v) => v.len() > 0 && marks_wf(a as int, v, n),
        _ => false,
    }
}

pub open spec fn scan_wf(s: Scan, i: int) -> bool {
    &&& state_wf(s.state, i)
    &&& forall|k: int| 0 <= k < s.raw.len() ==> raw_wf(#[trigger] s.raw[k], i)
}

proof fn lemma_marks_grow(lo: int, v: Seq<usize>, i: int, j: int)
    requires
        marks_wf(lo, v, i),
        i <= j,
    ensures
        marks_wf(lo, v, j),
{
}

proof fn lemma_raw_grow(t: TokenModel, i: int, j: int)
    requires
        raw_wf(t, i),
        i <= j,
    ensures
        raw_wf(t, j),
{
    match t {
        TokenModel::Ruminations(a, v) => lemma_marks_grow(a as int, v, i, j),
        _ => {},
    }
}

proof fn lemma_scan_step_wf(s: Scan, i: int, c: char)
    requires
        0 <= i,
        i < usize::MAX,
        scan_wf(s, i),
    ensures
        scan_wf(scan_step(s, i, c), i + 1),
{
    let t = scan_step(s, i, c);
    assert forall|k: int| 0 <= k < s.raw.len() implies raw_wf(#[trigger] s.raw[k], i + 1) by {
        lemma_raw_grow(s.raw[k], i, i + 1);
    }
    match s.state {
        ScanState::Ruminating(a, v) => {
            lemma_marks_grow(a as int, v, i, i + 1);
            assert(marks_wf(a as int, v.push(i as usize), i + 1));
        },
        _ => {},
    }
    assert forall|k: int| 0 <= k < t.raw.len() implies raw_wf(#[trigger] t.raw[k], i + 1) by {
        if k < s.raw.len() {
            assert(t.raw[k] == s.raw[k]);
        }
    }
}

pub(crate) proof fn lemma_scan_run_wf(cs: Seq<char>)
    requires
        cs.len() <= usize::MAX,
    ensures
        scan_wf(scan_line(cs), cs.len() as int),
    decreases cs.len(),
{
    if cs.len() > 0 {
        lemma_scan_run_wf(cs.drop_last());
        let prev = scan_run(scan_start(), cs.drop_last(), 0);
        assert(scan_run(scan_start(), cs.drop_last(), 0) == scan_line(cs.drop_last()));
        lemma_scan_step_wf(prev, cs.len() - 1, cs.last());
    }
}

/// The scanner's step on character `c` at index `i`, with the state handed
/// over and the recorded tokens in `raw`; `None` on a coordinate pair
/// closed before its comma, which the tokenizer refuses.
fn scan_char(state: TokenizingState, raw: &mut Vec<Token>, i: usize, c: char) -> (r: Option<TokenizingState>)
    ensures
        ({
            let s = Scan { state: state@, raw: tokens_view(old(raw)@), failed: false };
            let t = scan_step(s, i as int, c);
            match r {
                Some(st) => !t.failed && st@ == t.state && tokens_view(final(raw)@) == t.raw,
                None => t.failed && final(raw)@ == old(raw)@,
            }
        }),
{
    let ghost before = tokens_view(raw@);
    if c == '"' {
        match state {
            TokenizingState::Quoting(start) => {
                raw.push(Token::Quote(start, i));
                assert(tokens_view(raw@) =~= before.push(TokenModel::Quote(start, i)));
                Some(TokenizingState::Root)
            },
            _ => Some(TokenizingState::Quoting(i)),
        }
    } else if c == '(' {
        match state {
            TokenizingState::Root => Some(TokenizingState::Coordinating(i, 0)),
            other => Some(other),
        }
    } else if c == ',' {
        match state {
            TokenizingState::Coordinating(j, k) => {
                if k == 0 {
                    Some(TokenizingState::Coordinating(j, i))
                } else {
                    Some(TokenizingState::Coordinating(j, k))
                }
            },
            TokenizingState::Ruminating(st, v) => {
                let mut v = v;
                v.push(i);
                Some(TokenizingState::Ruminating(st, v))
            },
            other => Some(other),
        }
    } else if c == ')' {
        match state {
            TokenizingState::Coordinating(j, k) => {
                if k == 0 {
                    None
                } else {
                    raw.push(Token::Coordinates(j, k, i));
                    assert(tokens_view(raw@) =~= before.push(TokenModel::Coordinates(j, k, i)));
                    Some(TokenizingState::Root)
                }
            },
            other => Some(other),
        }
    } else if c == '[' {
        match state {
            TokenizingState::Root => {
                let v: Vec<usize> = Vec::new();
                Some(TokenizingState::Ruminating(i, v))
            },
            other => Some(other),
        }
    } else if c == ']' {
        match state {
            TokenizingState::Ruminating(st, v) => {
                let mut v = v;
                v.push(i);
                let ghost vv = v@;
                raw.push(Token::Ruminations(st, v));
                assert(tokens_view(raw@) =~= before.push(TokenModel::Ruminations(st, vv)));
                Some(TokenizingState::Root)
            },
            other => Some(other),
        }
    } else if (c as u32) % 256 > 32 {
        match state {
            TokenizingState::Root => {
                raw.push(Token::Varying(c));
                assert(tokens_view(raw@) =~= before.push(TokenModel::Varying(c)));
                Some(TokenizingState::Root)
            },
            other => Some(other),
        }
    } else {
        Some(state)
    }
}

/// The first pass over a line: the tokens the scanner records, or `None`
/// where the tokenizer refuses the line.
fn scan_tokens(cs: &Vec<char>) -> (r: Option<Vec<Token>>)
    ensures
        match r {
            Some(v) => !scan_line(cs@).failed && tokens_view(v@) == scan_line(cs@).raw,
            None => scan_line(cs@).failed,
        },
{
    let mut raw: Vec<Token> = Vec::new();
    let mut state = TokenizingState::Root;
    let n = cs.len();
    let mut i: usize = 0;
    assert(cs@.take(0) =~= Seq::<char>::empty());
    while i < n
        invariant
            n == cs@.len(),
            0 <= i <= n,
            ({
                let s = scan_line(cs@.take(i as int));
                !s.failed && s.state == state@ && s.raw == tokens_view(raw@)
            }),
        decreases n - i,
    {
        let c = cs[i];
        let ghost pre = cs@.take(i as int);
        let ghost post = cs@.take(i + 1);
        assert(post.drop_last() =~= pre);
        assert(post.last() == c);
        match scan_char(state, &mut raw, i, c) {
            Some(next) => {
                state = next;
            },
            None => {
                proof {
                    lemma_scan_failed_sticks(cs@, i as int + 1);
                }
                return None;
            },
        }
        i = i + 1;
    }
    assert(cs@.take(n as int) =~= cs@);
    Some(raw)
}

proof fn lemma_scan_failed_sticks(cs: Seq<char>, k: int)
    requires
        0 <= k <= cs.len(),
        scan_line(cs.take(k)).failed,
    ensures
        scan_line(cs).failed,
    decreases cs.len() - k,
{
    if k < cs.len() {
        assert(cs.take(k + 1).drop_last() =~= cs.take(k));
        lemma_scan_failed_sticks(cs, k + 1);
    } else {
        assert(cs.take(k) =~= cs);
    }
}


pub open spec fn push_some(rs: Seq<RuneToken>, tok: Option<RuneToken>) -> Seq<RuneToken> {
    match tok {
        Some(t) => rs.push(t),
        None => rs,
    }
}

/// The pending rune with its count replaced by `n`.
pub open spec fn with_count(tok: Option<RuneToken>, n: u8) -> Option<RuneToken> {
    match tok {
        Some(RuneToken::Action(c, _, cond)) => Some(RuneToken::Action(c, n, cond)),
        Some(RuneToken::Manip(c, _, cond)) => Some(RuneToken::Manip(c, n, cond)),
        _ => tok,
    }
}

/// One character of an arrangement: a letter closes the pending rune and
/// opens a new one with count 1, a digit from 0 to 3 sets the pending rune's
/// count, anything else is skipped.
pub open spec fn rune_step(acc: (Seq<RuneToken>, Option<RuneToken>), c: char) -> (
    Seq<RuneToken>,
    Option<RuneToken>,
) {
    if is_action_char(c) {
        (push_some(acc.0, acc.1), Some(RuneToken::Action(c, 1, ConditionRuneToken::Absent)))
    } else if is_manip_char(c) {
        (push_some(acc.0, acc.1), Some(RuneToken::Manip(c, 1, ConditionRuneToken::Absent)))
    } else if is_count_char(c) {
        (acc.0, with_count(acc.1, (c as u32 - '0' as u32) as u8))
    } else {
        acc
    }
}

pub open spec fn rune_run(acc: (Seq<RuneToken>, Option<RuneToken>), cs: Seq<char>) -> (
    Seq<RuneToken>,
    Option<RuneToken>,
)
    decreases cs.len(),
{
    if cs.len() == 0 {
        acc
    } else {
        rune_step(rune_run(acc, cs.drop_last()), cs.last())
    }
}

/// The runes of one arrangement's text.
pub open spec fn runes_of(cs: Seq<char>) -> Seq<RuneToken> {
    let acc = rune_run((Seq::empty(), None), cs);
    push_some(acc.0, acc.1)
}

/// The arrangements of a rune list opened at `start` with the comma and
/// closing-bracket positions `v`, over its first `k` segments: each segment
/// lies between one mark and the next, and only those with runes count.
/// `None` where cutting a segment out of the line panics.
pub open spec fn arrangements_prefix(b: Seq<u8>, start: usize, v: Seq<usize>, k: int) -> Option<
    Seq<Seq<RuneToken>>,
>
    decreases k,
{
    if k <= 0 {
        Some(Seq::empty())
    } else {
        match arrangements_prefix(b, start, v, k - 1) {
            Some(a) => {
                let lo = if k == 1 { start as int } else { v[k - 2] as int };
                match byte_slice_chars(b, lo + 1, v[k - 1] as int) {
                    Some(cs) => {
                        let rs = runes_of(cs);
                        Some(if rs.len() > 0 { a.push(rs) } else { a })
                    },
                    None => None,
                }
            },
            None => None,
        }
    }
}

/// The second pass on one recorded token, over the line's UTF-8 bytes `b`:
/// a quote becomes the text between its quote marks, a coordinate pair the
/// two integers, a rune list its arrangements. `None` where the tokenizer
/// refuses it (a cut off a character boundary, or a number that does not
/// parse).
pub open spec fn convert_token(b: Seq<u8>, t: TokenModel) -> Option<TokenModel> {
    match t {
        TokenModel::Quote(s, e) => match byte_slice_chars(b, s + 1, e as int) {
            Some(cs) => Some(TokenModel::String(cs)),
            None => None,
        },
        TokenModel::Coordinates(s, m, e) => match (
            byte_slice_chars(b, s + 1, m as int),
            byte_slice_chars(b, m + 1, e as int),
        ) {
            (Some(xs), Some(ys)) => match (parse_i32_spec(xs), parse_i32_spec(ys)) {
                (Some(x), Some(y)) => Some(TokenModel::Coord(x, y)),
                _ => None,
            },
            _ => None,
        },
        TokenModel::Ruminations(s, v) => if v.len() == 0 {
            Some(TokenModel::Runes(Seq::empty()))
        } else {
            match arrangements_prefix(b, s, v, v.len() as int) {
                Some(a) => Some(TokenModel::Runes(a)),
                None => None,
            }
        },
        _ => Some(t),
    }
}

pub open spec fn convert_tokens(b: Seq<u8>, raw: Seq<TokenModel>) -> Option<Seq<TokenModel>>
    decreases raw.len(),
{
    if raw.len() == 0 {
        Some(Seq::empty())
    } else {
        match (convert_tokens(b, raw.drop_last()), convert_token(b, raw.last())) {
            (Some(a), Some(x)) => Some(a.push(x)),
            _ => None,
        }
    }
}

/// The tokens of a line with characters `cs`, or `None` where `tokenize`
/// panics.
pub open spec fn tokenize_spec(cs: Seq<char>) -> Option<Seq<TokenModel>> {
    let s = scan_line(cs);
    if s.failed {
        None
    } else {
        convert_tokens(encode_utf8(cs), s.raw)
    }
}

/// The runes of one arrangement's characters.
fn runes_of_chars(cs: &Vec<char>) -> (r: Vec<RuneToken>)
    ensures
        r@ == runes_of(cs@),
{
    let mut runes: Vec<RuneToken> = Vec::new();
    let mut tok: Option<RuneToken> = None;
    let n = cs.len();
    let mut i: usize = 0;
    assert(cs@.take(0) =~= Seq::<char>::empty());
    while i < n
        invariant
            n == cs@.len(),
            0 <= i <= n,
            (runes@, tok) == rune_run((Seq::empty(), None), cs@.take(i as int)),
        decreases n - i,
    {
        let c = cs[i];
        assert(cs@.take(i + 1).drop_last() =~= cs@.take(i as int));
        if c == 'a' || c == 'b' || c == 'g' || c == 'r' || c == 'l' || c == 'p' || c == 's'
            || c == 'd' {
            match tok {
                Some(t) => runes.push(t),
                None => {},
            }
            tok = Some(RuneToken::Action(c, 1, ConditionRuneToken::Absent));
        } else if c == 'n' || c == 'v' || c == 'k' || c == 't' {
            match tok {
                Some(t) => runes.push(t),
                None => {},
            }
            tok = Some(RuneToken::Manip(c, 1, ConditionRuneToken::Absent));
        } else if '0' <= c && c <= '3' {
            let count = (c as u32 - '0' as u32) as u8;
            tok = match tok {
                Some(RuneToken::Action(c2, _, cond)) => Some(RuneToken::Action(c2, count, cond)),
                Some(RuneToken::Manip(c2, _, cond)) => Some(RuneToken::Manip(c2, count, cond)),
                other => other,
            };
        }
        i = i + 1;
    }
    assert(cs@.take(n as int) =~= cs@);
    match tok {
        Some(t) => runes.push(t),
        None => {},
    }
    runes
}

/// The arrangements of the rune list opened at `start` whose commas and
/// closing bracket stand at `v`.
fn arrangements_of(line: &str, start: usize, v: &Vec<usize>) -> (r: Option<Vec<Vec<RuneToken>>>)
    requires
        v@.len() > 0,
        marks_wf(start as int, v@, line@.len() as int),
    ensures
        match r {
            Some(a) => arrangements_prefix(line.spec_bytes(), start, v@, v@.len() as int) == Some(
                arrangements_view(a@),
            ),
            None => arrangements_prefix(line.spec_bytes(), start, v@, v@.len() as int) is None,
        },
{
    let ghost b = line.spec_bytes();
    let mut arrangement: Vec<Vec<RuneToken>> = Vec::new();
    let n = v.len();
    let mut k: usize = 0;
    while k < n
        invariant
            n == v@.len(),
            0 <= k <= n,
            b == line.spec_bytes(),
            marks_wf(start as int, v@, line@.len() as int),
            arrangements_prefix(b, start, v@, k as int) == Some(arrangements_view(arrangement@)),
        decreases n - k,
    {
        let lo = if k == 0 { start } else { v[k - 1] };
        assert(lo < line@.len());
        let seg = slice_chars(line, lo + 1, v[k]);
        match seg {
            Some(text) => {
                let cs = chars_of(text.as_str());
                let runes = runes_of_chars(&cs);
                if runes.len() > 0 {
                    let ghost prev = arrangements_view(arrangement@);
                    arrangement.push(runes);
                    assert(arrangements_view(arrangement@) =~= prev.push(runes_of(text@)));
                }
            },
            None => {
                proof {
                    lemma_arrangements_none_sticks(b, start, v@, k as int + 1, n as int);
                }
                return None;
            },
        }
        k = k + 1;
    }
    Some(arrangement)
}

proof fn lemma_arrangements_none_sticks(b: Seq<u8>, start: usize, v: Seq<usize>, k: int, n: int)
    requires
        1 <= k <= n,
        arrangements_prefix(b, start, v, k) is None,
    ensures
        arrangements_prefix(b, start, v, n) is None,
    decreases n - k,
{
    if k < n {
        lemma_arrangements_none_sticks(b, start, v, k + 1, n);
    }
}

proof fn lemma_convert_none_sticks(b: Seq<u8>, raw: Seq<TokenModel>, k: int)
    requires
        0 <= k <= raw.len(),
        convert_tokens(b, raw.take(k)) is None,
    ensures
        convert_tokens(b, raw) is None,
    decreases raw.len() - k,
{
    if k < raw.len() {
        assert(raw.take(k + 1).drop_last() =~= raw.take(k));
        lemma_convert_none_sticks(b, raw, k + 1);
    } else {
        assert(raw.take(k) =~= raw);
    }
}

/// The second pass on one recorded token.
fn convert_raw(line: &str, t: &Token) -> (r: Option<Token>)
    requires
        raw_wf(t@, line@.len() as int),
    ensures
        match r {
            Some(x) => convert_token(line.spec_bytes(), t@) == Some(x@),
            None => convert_token(line.spec_bytes(), t@) is None,
        },
{
    match t {
        Token::Quote(start, end) => {
            match slice_chars(line, *start + 1, *end) {
                Some(s) => Some(Token::String(s)),
                None => None,
            }
        },
        Token::Coordinates(start, middle, end) => {
            let xs = slice_chars(line, *start + 1, *middle);
            let ys = slice_chars(line, *middle + 1, *end);
            match (xs, ys) {
                (Some(xs), Some(ys)) => {
                    let xv = chars_of(xs.as_str());
                    let yv = chars_of(ys.as_str());
                    match (parse_i32(&xv), parse_i32(&yv)) {
                        (Some(x), Some(y)) => Some(Token::Coord(x, y)),
                        _ => None,
                    }
                },
                _ => None,
            }
        },
        Token::Ruminations(start, v) => {
            if v.len() != 0 {
                match arrangements_of(line, *start, v) {
                    Some(a) => Some(Token::Runes(a)),
                    None => None,
                }
            } else {
                Some(Token::Runes(Vec::new()))
            }
        },
        Token::Varying(c) => Some(Token::Varying(*c)),
        _ => {
            proof {
                assert(false);
            }
            None
        },
    }
}

/// `tokenize`, with `None` on the lines where it panics: a coordinate pair
/// closed before its comma, a cut that falls off a character boundary, or a
/// coordinate that is not an `i32`.
pub fn try_tokenize(line: &str) -> (r: Option<Vec<Token>>)
    ensures
        match r {
            Some(v) => tokenize_spec(line@) == Some(tokens_view(v@)),
            None => tokenize_spec(line@) is None,
        },
{
    let cs = chars_of(line);
    let cs_len = cs.len();
    assert(cs@.len() == cs_len);
    let raw = match scan_tokens(&cs) {
        Some(raw) => raw,
        None => return None,
    };
    let ghost b = encode_utf8(line@);
    let ghost rv = tokens_view(raw@);
    proof {
        lemma_scan_run_wf(cs@);
    }
    assert(b == line.spec_bytes());
    let mut result: Vec<Token> = Vec::new();
    let n = raw.len();
    let mut k: usize = 0;
    assert(rv.take(0) =~= Seq::<TokenModel>::empty());
    while k < n
        invariant
            n == raw@.len(),
            0 <= k <= n,
            rv == tokens_view(raw@),
            b == line.spec_bytes(),
            scan_wf(scan_line(line@), line@.len() as int),
            rv == scan_line(line@).raw,
            convert_tokens(b, rv.take(k as int)) == Some(tokens_view(result@)),
        decreases n - k,
    {
        assert(rv[k as int] == raw@[k as int]@);
        assert(raw_wf(rv[k as int], line@.len() as int));
        let converted = convert_raw(line, &raw[k]);
        assert(rv.take(k + 1).drop_last() =~= rv.take(k as int));
        assert(rv.take(k + 1).last() == rv[k as int]);
        match converted {
            Some(x) => {
                let ghost prev = tokens_view(result@);
                result.push(x);
                assert(tokens_view(result@) =~= prev.push(x@));
            },
            None => {
                proof {
                    lemma_convert_none_sticks(b, rv, k + 1);
                }
                return None;
            },
        }
        k = k + 1;
    }
    assert(rv.take(n as int) =~= rv);
    Some(result)
}

/// The tokens of one level file line: quoted text, coordinate pairs,
/// bracketed rune lists and single visible characters.
pub fn tokenize(line: &str) -> (r: Vec<Token>)
    requires
        tokenize_spec(line@) is Some,
    ensures
        tokenize_spec(line@) == Some(tokens_view(r@)),
{
    match try_tokenize(line) {
        Some(v) => v,
        None => Vec::new(),
    }
}


/// The text `extract_file_string` writes for one rune.
pub open spec fn rune_text(r: RuneToken) -> Seq<char> {
    match r {
        RuneToken::Action(c, t, _) => seq![c] + decimal_text(t as int),
        RuneToken::Manip(c, t, _) => seq![c] + decimal_text(t as int),
        RuneToken::Absent => Seq::empty(),
    }
}

pub open spec fn arrangement_text(a: Seq<RuneToken>) -> Seq<char>
    decreases a.len(),
{
    if a.len() == 0 {
        Seq::empty()
    } else {
        arrangement_text(a.drop_last()) + rune_text(a.last())
    }
}

/// The arrangements of a rune list, each followed by a comma; empty ones
/// are left out.
pub open spec fn arrangements_text(rs: Seq<Seq<RuneToken>>) -> Seq<char>
    decreases rs.len(),
{
    if rs.len() == 0 {
        Seq::empty()
    } else {
        arrangements_text(rs.drop_last()) + if rs.last().len() == 0 {
            Seq::empty()
        } else {
            arrangement_text(rs.last()) + seq![',']
        }
    }
}

/// The text written for one token; the scanner's position tokens write
/// nothing.
pub open spec fn token_text(t: TokenModel) -> Seq<char> {
    match t {
        TokenModel::String(s) => seq!['"'] + s + seq!['"'],
        TokenModel::Coord(x, y) => seq!['('] + decimal_text(x as int) + seq![','] + decimal_text(
            y as int,
        ) + seq![')'],
        TokenModel::Varying(c) => seq![c],
        TokenModel::Runes(rs) => seq!['['] + arrangements_text(rs) + seq![']'],
        _ => Seq::empty(),
    }
}

pub open spec fn line_text(ts: Seq<TokenModel>) -> Seq<char>
    decreases ts.len(),
{
    if ts.len() == 0 {
        Seq::empty()
    } else {
        line_text(ts.drop_last()) + token_text(ts.last())
    }
}

/// The text of a level file: each line's tokens, then a newline.
pub open spec fn file_text(lines: Seq<Seq<TokenModel>>) -> Seq<char>
    decreases lines.len(),
{
    if lines.len() == 0 {
        Seq::empty()
    } else {
        file_text(lines.drop_last()) + line_text(lines.last()) + seq!['\n']
    }
}

pub open spec fn lines_view(lines: Seq<Vec<Token>>) -> Seq<Seq<TokenModel>> {
    lines.map_values(|l: Vec<Token>| tokens_view(l@))
}

fn push_arrangement(content: &mut String, a: &Vec<RuneToken>)
    ensures
        final(content)@ == old(content)@ + arrangement_text(a@),
{
    let n = a.len();
    let mut i: usize = 0;
    let ghost start = content@;
    assert(a@.take(0) =~= Seq::<RuneToken>::empty());
    assert(start + Seq::<char>::empty() =~= start);
    while i < n
        invariant
            n == a@.len(),
            0 <= i <= n,
            content@ == start + arrangement_text(a@.take(i as int)),
        decreases n - i,
    {
        assert(a@.take(i + 1).drop_last() =~= a@.take(i as int));
        let ghost before = content@;
        match a[i] {
            RuneToken::Action(c, t, _cond) => {
                content.push(c);
                push_u8(content, t);
            },
            RuneToken::Manip(c, t, _cond) => {
                content.push(c);
                push_u8(content, t);
            },
            RuneToken::Absent => {},
        }
        assert(content@ =~= before + rune_text(a@[i as int]));
        i = i + 1;
    }
    assert(a@.take(n as int) =~= a@);
}

fn push_runes(content: &mut String, runes: &Vec<Vec<RuneToken>>)
    ensures
        final(content)@ == old(content)@ + arrangements_text(arrangements_view(runes@)),
{
    let n = runes.len();
    let mut i: usize = 0;
    let ghost start = content@;
    let ghost rv = arrangements_view(runes@);
    assert(rv.take(0) =~= Seq::<Seq<RuneToken>>::empty());
    assert(start + Seq::<char>::empty() =~= start);
    while i < n
        invariant
            n == runes@.len(),
            rv == arrangements_view(runes@),
            0 <= i <= n,
            content@ == start + arrangements_text(rv.take(i as int)),
        decreases n - i,
    {
        assert(rv.take(i + 1).drop_last() =~= rv.take(i as int));
        assert(rv[i as int] == runes@[i as int]@);
        let ghost before = content@;
        if runes[i].len() != 0 {
            push_arrangement(content, &runes[i]);
            content.push(',');
        }
        assert(content@ =~= start + arrangements_text(rv.take(i + 1)));
        i = i + 1;
    }
    assert(rv.take(n as int) =~= rv);
}

fn push_token(content: &mut String, token: &Token)
    ensures
        final(content)@ == old(content)@ + token_text(token@),
{
    let ghost before = content@;
    match token {
        Token::Quote(_, _) => {},
        Token::String(s) => {
            content.push('"');
            content.append(s.as_str());
            content.push('"');
        },
        Token::Coordinates(_, _, _) => {},
        Token::Coord(x, y) => {
            content.push('(');
            push_i32(content, *x);
            content.push(',');
            push_i32(content, *y);
            content.push(')');
        },
        Token::Varying(c) => {
            content.push(*c);
        },
        Token::Ruminations(_, _) => {},
        Token::Runes(runes) => {
            content.push('[');
            push_runes(content, runes);
            content.push(']');
        },
    }
    assert(content@ =~= before + token_text(token@));
}

/// The text of a level file: each line's tokens written one after another,
/// then a newline.
pub fn extract_file_string(tokens: &Vec<Vec<Token>>) -> (r: String)
    ensures
        r@ == file_text(lines_view(tokens@)),
{
    let mut content = String::new();
    let ghost lv = lines_view(tokens@);
    let n = tokens.len();
    let mut i: usize = 0;
    assert(lv.take(0) =~= Seq::<Seq<TokenModel>>::empty());
    while i < n
        invariant
            n == tokens@.len(),
            lv == lines_view(tokens@),
            0 <= i <= n,
            content@ == file_text(lv.take(i as int)),
        decreases n - i,
    {
        assert(lv.take(i + 1).drop_last() =~= lv.take(i as int));
        let line = &tokens[i];
        let ghost tv = tokens_view(line@);
        assert(lv[i as int] == tv);
        let ghost line_start = content@;
        let m = line.len();
        let mut j: usize = 0;
        assert(tv.take(0) =~= Seq::<TokenModel>::empty());
        assert(line_start + Seq::<char>::empty() =~= line_start);
        while j < m
            invariant
                m == line@.len(),
                tv == tokens_view(line@),
                0 <= j <= m,
                content@ == line_start + line_text(tv.take(j as int)),
            decreases m - j,
        {
            assert(tv.take(j + 1).drop_last() =~= tv.take(j as int));
            assert(tv[j as int] == line@[j as int]@);
            let ghost before = content@;
            push_token(&mut content, &line[j]);
            assert(content@ =~= line_start + line_text(tv.take(j + 1)));
            j = j + 1;
        }
        assert(tv.take(m as int) =~= tv);
        content.push('\n');
        assert(content@ =~= file_text(lv.take(i + 1)));
        i = i + 1;
    }
    assert(lv.take(n as int) =~= lv);
    content
}

} // verus!
