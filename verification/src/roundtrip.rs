use vstd::prelude::*;
use vstd::utf8::*;
use crate::numeral::{
    decimal_digits, decimal_text, digit_char, digit_value, digits_value, all_digits, is_digit,
    parse_i32_spec,
};
use crate::text::byte_slice_chars;
use crate::level::{
    lemma_scan_run_wf, raw_wf, scan_wf, state_wf, ScanState, Scan, TokenModel, RuneToken, ConditionRuneToken, scan_step, scan_run, scan_start,
    scan_line, is_action_char, is_manip_char, is_count_char, is_visible, token_text, line_text,
    arrangement_text, arrangements_text, rune_text, rune_step, rune_run, runes_of, push_some,
    with_count, arrangements_prefix, convert_token, convert_tokens, tokenize_spec, file_text,
};
use crate::loader::{line_split, lines_spec, strip_cr};

verus! {

broadcast use {
    vstd::utf8::encode_utf8_valid_utf8,
    vstd::utf8::encode_utf8_decode_utf8,
    vstd::seq_lib::group_seq_properties,
};

proof fn lemma_digit_char(d: int)
    requires
        0 <= d < 10,
    ensures
        is_digit(digit_char(d)),
        digit_value(digit_char(d)) == d,
        digit_char(d) != '-',
        digit_char(d) != '+',
{
}

proof fn lemma_decimal_digits(n: nat)
    ensures
        all_digits(decimal_digits(n)),
        digits_value(decimal_digits(n)) == n,
        decimal_digits(n).len() >= 1,
    decreases n,
{
    if n < 10 {
        lemma_digit_char(n as int);
        let s = decimal_digits(n);
        assert(s.drop_last() =~= Seq::<char>::empty());
        assert(digits_value(s) == digits_value(s.drop_last()) * 10 + digit_value(s.last()));
    } else {
        lemma_decimal_digits(n / 10);
        lemma_digit_char((n % 10) as int);
        let s = decimal_digits(n);
        assert(s.drop_last() =~= decimal_digits(n / 10));
        assert(digits_value(s) == digits_value(s.drop_last()) * 10 + digit_value(s.last()));
        assert((n / 10) * 10 + n % 10 == n);
    }
}

/// Reading back a written integer gives the integer: `parse::<i32>` of
/// `to_string` is the identity.
pub proof fn lemma_parse_decimal_text(x: i32)
    ensures
        parse_i32_spec(decimal_text(x as int)) == Some(x),
{
    if x < 0 {
        let n = (-(x as int)) as nat;
        lemma_decimal_digits(n);
        let s = decimal_text(x as int);
        assert(s.drop_first() =~= decimal_digits(n));
    } else {
        lemma_decimal_digits(x as nat);
        lemma_digit_char(0);
        let s = decimal_digits(x as nat);
        assert(is_digit(s[0]));
    }
}

/// Within an ASCII line every byte index is a character boundary and the
/// cut between two indices holds the characters between them.
pub proof fn lemma_ascii_slice(t: Seq<char>, lo: int, hi: int)
    requires
        is_ascii_chars(t),
        0 <= lo <= hi <= t.len(),
    ensures
        byte_slice_chars(encode_utf8(t), lo, hi) == Some(t.subrange(lo, hi)),
{
    let b = encode_utf8(t);
    is_ascii_chars_encode_utf8(t);
    lemma_ascii_boundary(t, lo);
    lemma_ascii_boundary(t, hi);
    let sub = t.subrange(lo, hi);
    assert(is_ascii_chars(sub));
    is_ascii_chars_encode_utf8(sub);
    assert(b.subrange(lo, hi) =~= encode_utf8(sub));
}

proof fn lemma_ascii_boundary(t: Seq<char>, i: int)
    requires
        is_ascii_chars(t),
        0 <= i <= t.len(),
    ensures
        is_char_boundary(encode_utf8(t), i),
{
    let b = encode_utf8(t);
    is_ascii_chars_encode_utf8(t);
    if i == t.len() {
        is_char_boundary_start_end_of_seq(b);
    } else {
        is_char_boundary_iff_not_is_continuation_byte(b, i);
        assert(t[i] as u8 == b[i]);
    }
}


/// The characters with a meaning of their own to the scanner.
pub open spec fn is_special(c: char) -> bool {
    c == '"' || c == '(' || c == ',' || c == ')' || c == '[' || c == ']'
}

/// A rune the writer writes and the reader reads back the same: a rune
/// letter, a count it writes as one digit, no condition.
pub open spec fn writable_rune(r: RuneToken) -> bool {
    match r {
        RuneToken::Action(c, t, cond) => is_action_char(c) && t <= 3
            && cond == ConditionRuneToken::Absent,
        RuneToken::Manip(c, t, cond) => is_manip_char(c) && t <= 3
            && cond == ConditionRuneToken::Absent,
        RuneToken::Absent => false,
    }
}

pub open spec fn writable_arrangements(rs: Seq<Seq<RuneToken>>) -> bool {
    forall|k: int|
        0 <= k < rs.len() ==> #[trigger] rs[k].len() > 0 && forall|j: int|
            0 <= j < rs[k].len() ==> writable_rune(#[trigger] rs[k][j])
}

/// A token the writer writes and the reader reads back the same: text
/// without quote marks, any coordinate pair, a visible character without a
/// meaning of its own, or rune lists of non-empty arrangements.
pub open spec fn writable_token(t: TokenModel) -> bool {
    match t {
        TokenModel::String(s) => !s.contains('"'),
        TokenModel::Coord(_, _) => true,
        TokenModel::Varying(c) => is_visible(c) && !is_special(c),
        TokenModel::Runes(rs) => writable_arrangements(rs),
        _ => false,
    }
}

/// A line of tokens that reads back as written: every token writable, and
/// the written text ASCII and of a length that positions can count.
pub open spec fn writable_line(ts: Seq<TokenModel>) -> bool {
    &&& forall|k: int| 0 <= k < ts.len() ==> writable_token(#[trigger] ts[k])
    &&& is_ascii_chars(line_text(ts))
    &&& line_text(ts).len() <= usize::MAX
}

/// The comma positions of a rune list whose arrangements start at `q`.
pub open spec fn rune_marks(rs: Seq<Seq<RuneToken>>, q: int) -> Seq<usize> {
    Seq::new(rs.len(), |j: int| (q + arrangements_text(rs.take(j + 1)).len() - 1) as usize)
}

/// The token the scanner records for a written token that starts at `p`.
pub open spec fn raw_token(t: TokenModel, p: int) -> TokenModel {
    match t {
        TokenModel::String(s) => TokenModel::Quote(p as usize, (p + s.len() + 1) as usize),
        TokenModel::Coord(x, y) => {
            let m = p + 1 + decimal_text(x as int).len();
            TokenModel::Coordinates(
                p as usize,
                m as usize,
                (m + 1 + decimal_text(y as int).len()) as usize,
            )
        },
        TokenModel::Runes(rs) => TokenModel::Ruminations(
            p as usize,
            rune_marks(rs, p + 1).push((p + 1 + arrangements_text(rs).len()) as usize),
        ),
        _ => t,
    }
}

/// The tokens the scanner records for a written line.
pub open spec fn raw_line(ts: Seq<TokenModel>) -> Seq<TokenModel>
    decreases ts.len(),
{
    if ts.len() == 0 {
        Seq::empty()
    } else {
        raw_line(ts.drop_last()).push(raw_token(ts.last(), line_text(ts.drop_last()).len() as int))
    }
}

proof fn lemma_scan_run_concat(s0: Scan, a: Seq<char>, b: Seq<char>, off: int)
    ensures
        scan_run(s0, a + b, off) == scan_run(scan_run(s0, a, off), b, off + a.len()),
    decreases b.len(),
{
    if b.len() == 0 {
        assert(a + b =~= a);
    } else {
        assert((a + b).drop_last() =~= a + b.drop_last());
        lemma_scan_run_concat(s0, a, b.drop_last(), off);
    }
}

/// Inside a quote, anything but a quote mark leaves the scanner as it is.
proof fn lemma_quote_run(s: Scan, cs: Seq<char>, off: int)
    requires
        s.state is Quoting,
        !s.failed,
        !cs.contains('"'),
    ensures
        scan_run(s, cs, off) == s,
    decreases cs.len(),
{
    if cs.len() > 0 {
        assert(!cs.drop_last().contains('"')) by {
            if cs.drop_last().contains('"') {
                let k = choose|k: int| 0 <= k < cs.drop_last().len() && cs.drop_last()[k] == '"';
                assert(cs[k] == '"');
            }
        }
        lemma_quote_run(s, cs.drop_last(), off);
        assert(cs.last() != '"') by {
            assert(cs[cs.len() - 1] == cs.last());
        }
    }
}

pub open spec fn all_plain(cs: Seq<char>) -> bool {
    forall|k: int| 0 <= k < cs.len() ==> !is_special(#[trigger] cs[k])
}

/// Inside a coordinate pair or a rune list, characters without a meaning of
/// their own leave the scanner as it is.
proof fn lemma_plain_run(s: Scan, cs: Seq<char>, off: int)
    requires
        s.state is Coordinating || s.state is Ruminating,
        !s.failed,
        all_plain(cs),
    ensures
        scan_run(s, cs, off) == s,
    decreases cs.len(),
{
    if cs.len() > 0 {
        lemma_plain_run(s, cs.drop_last(), off);
        assert(!is_special(cs[cs.len() - 1]));
    }
}

proof fn lemma_decimal_text_plain(x: int)
    ensures
        all_plain(decimal_text(x)),
{
    if x < 0 {
        lemma_decimal_digits((-x) as nat);
        let s = decimal_text(x);
        assert forall|k: int| 0 <= k < s.len() implies !is_special(#[trigger] s[k]) by {
            if k > 0 {
                assert(s[k] == decimal_digits((-x) as nat)[k - 1]);
            }
        }
    } else {
        lemma_decimal_digits(x as nat);
    }
}

proof fn lemma_small_decimal(t: u8)
    requires
        t <= 3,
    ensures
        decimal_text(t as int) == seq![digit_char(t as int)],
        is_count_char(digit_char(t as int)),
        (digit_char(t as int) as u32 - '0' as u32) as u8 == t,
{
}

proof fn lemma_arrangement_text_plain(a: Seq<RuneToken>)
    requires
        forall|j: int| 0 <= j < a.len() ==> writable_rune(#[trigger] a[j]),
    ensures
        all_plain(arrangement_text(a)),
    decreases a.len(),
{
    if a.len() > 0 {
        lemma_arrangement_text_plain(a.drop_last());
        let r = a.last();
        assert(writable_rune(a[a.len() - 1]));
        match r {
            RuneToken::Action(c, t, _) => lemma_small_decimal(t),
            RuneToken::Manip(c, t, _) => lemma_small_decimal(t),
            RuneToken::Absent => {},
        }
        let x = arrangement_text(a.drop_last());
        let y = rune_text(r);
        assert forall|k: int| 0 <= k < (x + y).len() implies !is_special(#[trigger] (x + y)[k]) by {
            if k < x.len() {
                assert((x + y)[k] == x[k]);
            } else {
                assert((x + y)[k] == y[k - x.len()]);
            }
        }
    }
}

pub open spec fn ruminating(st: usize, v: Seq<usize>, raw: Seq<TokenModel>) -> Scan {
    Scan { state: ScanState::Ruminating(st, v), raw: raw, failed: false }
}

pub open spec fn at_root(raw: Seq<TokenModel>) -> Scan {
    Scan { state: ScanState::Root, raw: raw, failed: false }
}

proof fn lemma_arrangements_scan(
    st: usize,
    v: Seq<usize>,
    raw: Seq<TokenModel>,
    rs: Seq<Seq<RuneToken>>,
    off: int,
)
    requires
        writable_arrangements(rs),
        0 <= off,
        off + arrangements_text(rs).len() <= usize::MAX + 1,
    ensures
        scan_run(ruminating(st, v, raw), arrangements_text(rs), off) == ruminating(
            st,
            v + rune_marks(rs, off),
            raw,
        ),
    decreases rs.len(),
{
    let s0 = Scan { state: ScanState::Ruminating(st, v), raw: raw, failed: false };
    if rs.len() == 0 {
        assert(v + rune_marks(rs, off) =~= v);
    } else {
        let init = rs.drop_last();
        let a = rs.last();
        assert(writable_arrangements(init)) by {
            assert forall|k: int| 0 <= k < init.len() implies #[trigger] init[k].len() > 0
                && forall|j: int| 0 <= j < init[k].len() ==> writable_rune(#[trigger] init[k][j]) by {
                assert(init[k] == rs[k]);
            }
        }
        assert(a.len() > 0 && forall|j: int| 0 <= j < a.len() ==> writable_rune(#[trigger] a[j])) by {
            assert(rs[rs.len() - 1] == a);
        }
        let ta = arrangements_text(init);
        let tx = arrangement_text(a);
        assert(arrangements_text(rs) == ta + (tx + seq![',']));
        lemma_arrangements_scan(st, v, raw, init, off);
        let s1 = Scan { state: ScanState::Ruminating(st, v + rune_marks(init, off)), raw: raw, failed: false };
        lemma_scan_run_concat(s0, ta, tx + seq![','], off);
        lemma_scan_run_concat(s1, tx, seq![','], off + ta.len());
        lemma_arrangement_text_plain(a);
        lemma_plain_run(s1, tx, off + ta.len());
        let pos = off + ta.len() + tx.len();
        assert(seq![','].drop_last() =~= Seq::<char>::empty());
        assert(scan_run(s1, seq![','], off + ta.len() + tx.len()) == scan_step(s1, pos, ','));
        assert(rs.take(rs.len() as int) =~= rs);
        assert(rune_marks(rs, off) =~= rune_marks(init, off).push(pos as usize)) by {
            assert forall|j: int| 0 <= j < init.len() implies #[trigger] init.take(j + 1) =~= rs.take(
                j + 1,
            ) by {}
        }
        assert(v + rune_marks(rs, off) =~= (v + rune_marks(init, off)).push(pos as usize));
    }
}


proof fn lemma_scan_one(s: Scan, c: char, off: int)
    ensures
        scan_run(s, seq![c], off) == scan_step(s, off, c),
{
    let cs = seq![c];
    assert(cs.drop_last() =~= Seq::<char>::empty());
    assert(scan_run(s, cs.drop_last(), off) == s);
    assert(cs.last() == c);
    assert(scan_run(s, cs, off) == scan_step(scan_run(s, cs.drop_last(), off), off + cs.len() - 1, cs.last()));
}

proof fn lemma_string_scan(s: Seq<char>, raw: Seq<TokenModel>, p: int)
    requires
        !s.contains('"'),
        0 <= p,
        p + s.len() + 2 <= usize::MAX,
    ensures
        scan_run(at_root(raw), seq!['"'] + s + seq!['"'], p) == at_root(
            raw.push(TokenModel::Quote(p as usize, (p + s.len() + 1) as usize)),
        ),
{
    let s0 = at_root(raw);
    let a = seq!['"'];
    lemma_scan_run_concat(s0, a + s, seq!['"'], p);
    lemma_scan_run_concat(s0, a, s, p);
    lemma_scan_one(s0, '"', p);
    let q = scan_step(s0, p, '"');
    assert(q == Scan { state: ScanState::Quoting(p as usize), raw: raw, failed: false });
    lemma_quote_run(q, s, p + 1);
    lemma_scan_one(q, '"', p + 1 + s.len());
}

proof fn lemma_coord_scan(dx: Seq<char>, dy: Seq<char>, raw: Seq<TokenModel>, p: int)
    requires
        all_plain(dx),
        all_plain(dy),
        0 <= p,
        p + dx.len() + dy.len() + 3 <= usize::MAX,
    ensures
        scan_run(at_root(raw), seq!['('] + dx + seq![','] + dy + seq![')'], p) == at_root(
            raw.push(
                TokenModel::Coordinates(
                    p as usize,
                    (p + 1 + dx.len()) as usize,
                    (p + 2 + dx.len() + dy.len()) as usize,
                ),
            ),
        ),
{
    let s0 = at_root(raw);
    let t1 = seq!['('];
    let t2 = t1 + dx;
    let t3 = t2 + seq![','];
    let t4 = t3 + dy;
    lemma_scan_run_concat(s0, t4, seq![')'], p);
    lemma_scan_run_concat(s0, t3, dy, p);
    lemma_scan_run_concat(s0, t2, seq![','], p);
    lemma_scan_run_concat(s0, t1, dx, p);
    lemma_scan_one(s0, '(', p);
    let c1 = scan_step(s0, p, '(');
    assert(c1 == Scan { state: ScanState::Coordinating(p as usize, 0), raw: raw, failed: false });
    lemma_plain_run(c1, dx, p + 1);
    let m = p + 1 + dx.len();
    lemma_scan_one(c1, ',', m);
    let c2 = scan_step(c1, m, ',');
    assert(c2 == Scan {
        state: ScanState::Coordinating(p as usize, m as usize),
        raw: raw,
        failed: false,
    });
    lemma_plain_run(c2, dy, m + 1);
    lemma_scan_one(c2, ')', m + 1 + dy.len());
}

proof fn lemma_runes_scan(rs: Seq<Seq<RuneToken>>, raw: Seq<TokenModel>, p: int)
    requires
        writable_arrangements(rs),
        0 <= p,
        p + arrangements_text(rs).len() + 2 <= usize::MAX,
    ensures
        scan_run(at_root(raw), seq!['['] + arrangements_text(rs) + seq![']'], p) == at_root(
            raw.push(
                TokenModel::Ruminations(
                    p as usize,
                    rune_marks(rs, p + 1).push((p + 1 + arrangements_text(rs).len()) as usize),
                ),
            ),
        ),
{
    let s0 = at_root(raw);
    let at = arrangements_text(rs);
    lemma_scan_run_concat(s0, seq!['['] + at, seq![']'], p);
    lemma_scan_run_concat(s0, seq!['['], at, p);
    lemma_scan_one(s0, '[', p);
    assert(scan_step(s0, p, '[') == ruminating(p as usize, Seq::empty(), raw));
    lemma_arrangements_scan(p as usize, Seq::empty(), raw, rs, p + 1);
    let marks = Seq::<usize>::empty() + rune_marks(rs, p + 1);
    assert(marks =~= rune_marks(rs, p + 1));
    lemma_scan_one(ruminating(p as usize, marks, raw), ']', p + 1 + at.len());
}

/// Scanning a written token at top level records the token's positions and
/// returns to the top level.
proof fn lemma_token_scan(t: TokenModel, raw: Seq<TokenModel>, p: int)
    requires
        writable_token(t),
        0 <= p,
        p + token_text(t).len() <= usize::MAX,
    ensures
        scan_run(at_root(raw), token_text(t), p) == at_root(raw.push(raw_token(t, p))),
{
    match t {
        TokenModel::String(s) => {
            lemma_string_scan(s, raw, p);
        },
        TokenModel::Coord(x, y) => {
            lemma_decimal_text_plain(x as int);
            lemma_decimal_text_plain(y as int);
            lemma_coord_scan(decimal_text(x as int), decimal_text(y as int), raw, p);
        },
        TokenModel::Varying(c) => {
            lemma_scan_one(at_root(raw), c, p);
        },
        TokenModel::Runes(rs) => {
            lemma_runes_scan(rs, raw, p);
        },
        _ => {},
    }
}

proof fn lemma_line_text_prefix(ts: Seq<TokenModel>, k: int)
    requires
        0 <= k <= ts.len(),
    ensures
        line_text(ts).len() >= line_text(ts.take(k)).len(),
        line_text(ts).subrange(0, line_text(ts.take(k)).len() as int) == line_text(ts.take(k)),
    decreases ts.len() - k,
{
    if k == ts.len() {
        assert(ts.take(k) =~= ts);
    } else {
        lemma_line_text_prefix(ts, k + 1);
        assert(ts.take(k + 1).drop_last() =~= ts.take(k));
        let a = line_text(ts.take(k));
        let b = line_text(ts.take(k + 1));
        assert(b == a + token_text(ts.take(k + 1).last()));
        assert(b.subrange(0, a.len() as int) =~= a);
        assert(line_text(ts).subrange(0, a.len() as int) =~= b.subrange(0, a.len() as int));
    }
}

/// Scanning a written line ends at top level with each token's positions.
proof fn lemma_line_scan(ts: Seq<TokenModel>)
    requires
        forall|k: int| 0 <= k < ts.len() ==> writable_token(#[trigger] ts[k]),
        line_text(ts).len() <= usize::MAX,
    ensures
        scan_line(line_text(ts)) == at_root(raw_line(ts)),
    decreases ts.len(),
{
    if ts.len() == 0 {
    } else {
        let init = ts.drop_last();
        assert forall|k: int| 0 <= k < init.len() implies writable_token(#[trigger] init[k]) by {
            assert(init[k] == ts[k]);
        }
        let a = line_text(init);
        let b = token_text(ts.last());
        assert(line_text(ts) == a + b);
        lemma_line_scan(init);
        lemma_scan_run_concat(scan_start(), a, b, 0);
        assert(writable_token(ts[ts.len() - 1]));
        lemma_token_scan(ts.last(), raw_line(init), a.len() as int);
    }
}


proof fn lemma_rune_run_concat(
    acc: (Seq<RuneToken>, Option<RuneToken>),
    x: Seq<char>,
    y: Seq<char>,
)
    ensures
        rune_run(acc, x + y) == rune_run(rune_run(acc, x), y),
    decreases y.len(),
{
    if y.len() == 0 {
        assert(x + y =~= x);
    } else {
        assert((x + y).drop_last() =~= x + y.drop_last());
        lemma_rune_run_concat(acc, x, y.drop_last());
    }
}

proof fn lemma_rune_run_one(acc: (Seq<RuneToken>, Option<RuneToken>), c: char)
    ensures
        rune_run(acc, seq![c]) == rune_step(acc, c),
{
    let cs = seq![c];
    assert(cs.drop_last() =~= Seq::<char>::empty());
    assert(rune_run(acc, cs.drop_last()) == acc);
    assert(cs.last() == c);
}

proof fn lemma_rune_run_pending(a: Seq<RuneToken>)
    requires
        a.len() > 0,
        forall|j: int| 0 <= j < a.len() ==> writable_rune(#[trigger] a[j]),
    ensures
        rune_run((Seq::empty(), None), arrangement_text(a)) == (a.drop_last(), Some(a.last())),
    decreases a.len(),
{
    let init = a.drop_last();
    let r = a.last();
    assert(writable_rune(a[a.len() - 1]));
    let x = arrangement_text(init);
    let acc0: (Seq<RuneToken>, Option<RuneToken>) = (Seq::empty(), None);
    let acc1 = rune_run(acc0, x);
    if init.len() == 0 {
        assert(acc1 == acc0);
        assert(push_some(acc1.0, acc1.1) =~= init);
    } else {
        assert forall|j: int| 0 <= j < init.len() implies writable_rune(#[trigger] init[j]) by {
            assert(init[j] == a[j]);
        }
        lemma_rune_run_pending(init);
        assert(push_some(acc1.0, acc1.1) =~= init);
    }
    match r {
        RuneToken::Action(c, t, cond) => {
            lemma_small_decimal(t);
            let d = digit_char(t as int);
            assert(rune_text(r) =~= seq![c] + seq![d]);
            lemma_rune_run_concat(acc0, x, seq![c] + seq![d]);
            lemma_rune_run_concat(acc1, seq![c], seq![d]);
            let acc2 = rune_step(acc1, c);
            lemma_rune_run_one(acc1, c);
            lemma_rune_run_one(acc2, d);
        },
        RuneToken::Manip(c, t, cond) => {
            lemma_small_decimal(t);
            let d = digit_char(t as int);
            assert(rune_text(r) =~= seq![c] + seq![d]);
            lemma_rune_run_concat(acc0, x, seq![c] + seq![d]);
            lemma_rune_run_concat(acc1, seq![c], seq![d]);
            let acc2 = rune_step(acc1, c);
            lemma_rune_run_one(acc1, c);
            lemma_rune_run_one(acc2, d);
        },
        RuneToken::Absent => {},
    }
}

/// Reading back a written arrangement gives the arrangement.
proof fn lemma_runes_of_text(a: Seq<RuneToken>)
    requires
        a.len() > 0,
        forall|j: int| 0 <= j < a.len() ==> writable_rune(#[trigger] a[j]),
    ensures
        runes_of(arrangement_text(a)) == a,
{
    lemma_rune_run_pending(a);
    assert(a.drop_last().push(a.last()) =~= a);
}

proof fn lemma_arrangements_text_prefix(rs: Seq<Seq<RuneToken>>, k: int)
    requires
        0 <= k <= rs.len(),
    ensures
        arrangements_text(rs).len() >= arrangements_text(rs.take(k)).len(),
        arrangements_text(rs).subrange(0, arrangements_text(rs.take(k)).len() as int)
            == arrangements_text(rs.take(k)),
    decreases rs.len() - k,
{
    if k == rs.len() {
        assert(rs.take(k) =~= rs);
    } else {
        lemma_arrangements_text_prefix(rs, k + 1);
        assert(rs.take(k + 1).drop_last() =~= rs.take(k));
        let a = arrangements_text(rs.take(k));
        let b = arrangements_text(rs.take(k + 1));
        assert(b.subrange(0, a.len() as int) =~= a);
        assert(arrangements_text(rs).subrange(0, a.len() as int) =~= b.subrange(
            0,
            a.len() as int,
        ));
    }
}

proof fn lemma_arrangements_convert_prefix(
    t: Seq<char>,
    rs: Seq<Seq<RuneToken>>,
    p: int,
    j: int,
)
    requires
        is_ascii_chars(t),
        t.len() <= usize::MAX,
        writable_arrangements(rs),
        0 <= p,
        p + 1 + arrangements_text(rs).len() <= t.len(),
        t.subrange(p + 1, p + 1 + arrangements_text(rs).len()) == arrangements_text(rs),
        0 <= j <= rs.len(),
    ensures
        arrangements_prefix(
            encode_utf8(t),
            p as usize,
            rune_marks(rs, p + 1).push((p + 1 + arrangements_text(rs).len()) as usize),
            j,
        ) == Some(rs.take(j)),
    decreases j,
{
    let q = p + 1;
    let v = rune_marks(rs, q).push((q + arrangements_text(rs).len()) as usize);
    if j == 0 {
        assert(rs.take(0) =~= Seq::<Seq<RuneToken>>::empty());
    } else {
        lemma_arrangements_convert_prefix(t, rs, p, j - 1);
        lemma_arrangements_text_prefix(rs, j);
        lemma_arrangements_text_prefix(rs, j - 1);
        let at = arrangements_text(rs);
        let a0 = arrangements_text(rs.take(j - 1));
        let a1 = arrangements_text(rs.take(j));
        assert(rs.take(j).drop_last() =~= rs.take(j - 1));
        assert(rs.take(j).last() == rs[j - 1]);
        let a = rs[j - 1];
        assert(a.len() > 0);
        let x = arrangement_text(a);
        assert(a1 == a0 + (x + seq![',']));
        let lo = if j == 1 { p } else { v[j - 2] as int };
        assert(lo == q + a0.len() - 1) by {
            if j == 1 {
                assert(rs.take(0) =~= Seq::<Seq<RuneToken>>::empty());
            } else {
                assert(v[j - 2] == rune_marks(rs, q)[j - 2]);
            }
        }
        assert(v[j - 1] == rune_marks(rs, q)[j - 1]);
        let hi = q + a1.len() - 1;
        assert(v[j - 1] as int == hi);
        lemma_ascii_slice(t, lo + 1, hi);
        assert(t.subrange(lo + 1, hi) =~= x) by {
            assert(at.subrange(0, a1.len() as int) == a1);
            assert forall|i: int| 0 <= i < x.len() implies #[trigger] t.subrange(lo + 1, hi)[i]
                == x[i] by {
                assert(t.subrange(lo + 1, hi)[i] == t[q + a0.len() + i]);
                assert(t[q + a0.len() + i] == at[a0.len() + i]);
                assert(at[a0.len() + i] == a1[a0.len() + i]);
                assert(a1[a0.len() + i] == x[i]);
            }
        }
        assert forall|i: int| 0 <= i < a.len() implies writable_rune(#[trigger] a[i]) by {}
        lemma_runes_of_text(a);
        assert(rs.take(j - 1).push(a) =~= rs.take(j));
    }
}

proof fn lemma_arrangements_convert(t: Seq<char>, rs: Seq<Seq<RuneToken>>, p: int)
    requires
        is_ascii_chars(t),
        t.len() <= usize::MAX,
        writable_arrangements(rs),
        0 <= p,
        p + 1 + arrangements_text(rs).len() <= t.len(),
        t.subrange(p + 1, p + 1 + arrangements_text(rs).len()) == arrangements_text(rs),
    ensures
        ({
            let v = rune_marks(rs, p + 1).push((p + 1 + arrangements_text(rs).len()) as usize);
            arrangements_prefix(encode_utf8(t), p as usize, v, v.len() as int) == Some(rs)
        }),
{
    let q = p + 1;
    let at = arrangements_text(rs);
    let v = rune_marks(rs, q).push((q + at.len()) as usize);
    let n = rs.len() as int;
    lemma_arrangements_convert_prefix(t, rs, p, n);
    assert(rs.take(n) =~= rs);
    let lo = if n + 1 == 1 { p } else { v[n - 1] as int };
    assert(lo == q + at.len() - 1) by {
        if n == 0 {
            assert(at.len() == 0);
        } else {
            assert(v[n - 1] == rune_marks(rs, q)[n - 1]);
        }
    }
    assert(v[n] as int == q + at.len());
    lemma_ascii_slice(t, lo + 1, q + at.len());
    assert(t.subrange(lo + 1, q + at.len()) =~= Seq::<char>::empty());
    assert(runes_of(Seq::<char>::empty()) =~= Seq::<RuneToken>::empty());
}

/// The second pass on a written token's recorded positions gives the token
/// back.
proof fn lemma_token_convert(tok: TokenModel, t: Seq<char>, p: int)
    requires
        is_ascii_chars(t),
        t.len() <= usize::MAX,
        writable_token(tok),
        0 <= p,
        p + token_text(tok).len() <= t.len(),
        t.subrange(p, p + token_text(tok).len()) == token_text(tok),
    ensures
        convert_token(encode_utf8(t), raw_token(tok, p)) == Some(tok),
{
    let tt = token_text(tok);
    match tok {
        TokenModel::String(s) => {
            lemma_ascii_slice(t, p + 1, p + 1 + s.len());
            assert(t.subrange(p + 1, p + 1 + s.len()) =~= s) by {
                assert forall|i: int| 0 <= i < s.len() implies #[trigger] t.subrange(
                    p + 1,
                    p + 1 + s.len(),
                )[i] == s[i] by {
                    assert(t[p + 1 + i] == tt[1 + i]);
                }
            }
        },
        TokenModel::Coord(x, y) => {
            let dx = decimal_text(x as int);
            let dy = decimal_text(y as int);
            let m = p + 1 + dx.len();
            let e = m + 1 + dy.len();
            assert(tt =~= seq!['('] + dx + seq![','] + dy + seq![')']);
            lemma_ascii_slice(t, p + 1, m);
            lemma_ascii_slice(t, m + 1, e);
            assert(t.subrange(p + 1, m) =~= dx) by {
                assert forall|i: int| 0 <= i < dx.len() implies #[trigger] t.subrange(p + 1, m)[i]
                    == dx[i] by {
                    assert(t[p + 1 + i] == tt[1 + i]);
                }
            }
            assert(t.subrange(m + 1, e) =~= dy) by {
                assert forall|i: int| 0 <= i < dy.len() implies #[trigger] t.subrange(m + 1, e)[i]
                    == dy[i] by {
                    assert(t[m + 1 + i] == tt[2 + dx.len() + i]);
                }
            }
            lemma_parse_decimal_text(x);
            lemma_parse_decimal_text(y);
        },
        TokenModel::Varying(c) => {},
        TokenModel::Runes(rs) => {
            let at = arrangements_text(rs);
            assert(tt =~= seq!['['] + at + seq![']']);
            assert(t.subrange(p + 1, p + 1 + at.len()) =~= at) by {
                assert forall|i: int| 0 <= i < at.len() implies #[trigger] t.subrange(
                    p + 1,
                    p + 1 + at.len(),
                )[i] == at[i] by {
                    assert(t[p + 1 + i] == tt[1 + i]);
                }
            }
            lemma_arrangements_convert(t, rs, p);
        },
        _ => {},
    }
}

proof fn lemma_line_convert(ts: Seq<TokenModel>, t: Seq<char>)
    requires
        is_ascii_chars(t),
        t.len() <= usize::MAX,
        forall|k: int| 0 <= k < ts.len() ==> writable_token(#[trigger] ts[k]),
        line_text(ts).len() <= t.len(),
        t.subrange(0, line_text(ts).len() as int) == line_text(ts),
    ensures
        convert_tokens(encode_utf8(t), raw_line(ts)) == Some(ts),
    decreases ts.len(),
{
    if ts.len() > 0 {
        let init = ts.drop_last();
        let tok = ts.last();
        assert forall|k: int| 0 <= k < init.len() implies writable_token(#[trigger] init[k]) by {
            assert(init[k] == ts[k]);
        }
        assert(writable_token(ts[ts.len() - 1]));
        let a = line_text(init);
        let b = token_text(tok);
        assert(line_text(ts) == a + b);
        assert(t.subrange(0, a.len() as int) =~= a) by {
            assert forall|i: int| 0 <= i < a.len() implies #[trigger] t.subrange(0, a.len() as int)[i]
                == a[i] by {
                assert(t[i] == line_text(ts)[i]);
            }
        }
        lemma_line_convert(init, t);
        assert(t.subrange(a.len() as int, (a.len() + b.len()) as int) =~= b) by {
            assert forall|i: int| 0 <= i < b.len() implies #[trigger] t.subrange(
                a.len() as int,
                (a.len() + b.len()) as int,
            )[i] == b[i] by {
                assert(t[a.len() + i] == line_text(ts)[a.len() + i]);
            }
        }
        lemma_token_convert(tok, t, a.len() as int);
        assert(raw_line(ts).drop_last() =~= raw_line(init));
        assert(init.push(tok) =~= ts);
    }
}

/// A written line reads back as the tokens that were written: for every
/// line of writable tokens, tokenizing the text that `extract_file_string`
/// writes for it gives those tokens again.
pub proof fn law_tokenize_reads_back_written_line(ts: Seq<TokenModel>)
    requires
        writable_line(ts),
    ensures
        tokenize_spec(line_text(ts)) == Some(ts),
{
    let t = line_text(ts);
    lemma_line_scan(ts);
    assert(t.subrange(0, t.len() as int) =~= t);
    lemma_line_convert(ts, t);
}

/// A position moved on by `n`.
pub open spec fn shift_pos(x: usize, n: int) -> usize {
    (x + n) as usize
}

/// Positions moved on by `n`.
pub open spec fn shift_marks(v: Seq<usize>, n: int) -> Seq<usize> {
    v.map_values(|x: usize| shift_pos(x, n))
}

/// A scanner state whose positions moved on by `n`; a coordinate pair
/// without its comma keeps the mark 0.
pub open spec fn shift_state(st: ScanState, n: int) -> ScanState {
    match st {
        ScanState::Root => ScanState::Root,
        ScanState::Quoting(a) => ScanState::Quoting(shift_pos(a, n)),
        ScanState::Coordinating(a, b) => ScanState::Coordinating(
            shift_pos(a, n),
            if b == 0 { 0 } else { shift_pos(b, n) },
        ),
        ScanState::Ruminating(a, v) => ScanState::Ruminating(shift_pos(a, n), shift_marks(v, n)),
    }
}

/// A recorded token whose positions moved on by `n`.
pub open spec fn shift_token(t: TokenModel, n: int) -> TokenModel {
    match t {
        TokenModel::Quote(a, b) => TokenModel::Quote(shift_pos(a, n), shift_pos(b, n)),
        TokenModel::Coordinates(a, b, c) => TokenModel::Coordinates(
            shift_pos(a, n),
            shift_pos(b, n),
            shift_pos(c, n),
        ),
        TokenModel::Ruminations(a, v) => TokenModel::Ruminations(shift_pos(a, n), shift_marks(v, n)),
        _ => t,
    }
}

/// The scanner on a line that follows `n` characters the scanner recorded
/// as `pre` and left at the top level.
pub open spec fn shift_scan(s: Scan, pre: Seq<TokenModel>, n: int) -> Scan {
    Scan {
        state: shift_state(s.state, n),
        raw: pre + s.raw.map_values(|t: TokenModel| shift_token(t, n)),
        failed: s.failed,
    }
}

proof fn lemma_scan_step_shift(s: Scan, pre: Seq<TokenModel>, n: int, i: int, c: char)
    requires
        0 <= n,
        0 <= i,
        i + n <= usize::MAX,
        state_wf(s.state, i),
    ensures
        scan_step(shift_scan(s, pre, n), i + n, c) == shift_scan(scan_step(s, i, c), pre, n),
{
    let t = scan_step(s, i, c);
    let l = scan_step(shift_scan(s, pre, n), i + n, c);
    let r = shift_scan(t, pre, n);
    assert(shift_pos(i as usize, n) == (i + n) as usize);
    assert(shift_marks(Seq::<usize>::empty(), n) =~= Seq::<usize>::empty());
    match s.state {
        ScanState::Coordinating(a, b) => {
            assert(b != 0 ==> shift_pos(b, n) != 0);
            assert(i != 0);
        },
        ScanState::Ruminating(a, v) => {
            assert(shift_marks(v.push(i as usize), n) =~= shift_marks(v, n).push(
                (i + n) as usize,
            ));
        },
        _ => {},
    }
    assert(l.raw =~= r.raw);
    assert(l.state == r.state);
    assert(l.failed == r.failed);
}

proof fn lemma_scan_line_shift(pre: Seq<TokenModel>, cs: Seq<char>, n: int)
    requires
        0 <= n,
        cs.len() + n <= usize::MAX,
    ensures
        scan_run(at_root(pre), cs, n) == shift_scan(scan_line(cs), pre, n),
    decreases cs.len(),
{
    assert(at_root(pre) == shift_scan(scan_start(), pre, n)) by {
        assert(pre + Seq::<TokenModel>::empty().map_values(|t: TokenModel| shift_token(t, n))
            =~= pre);
    }
    if cs.len() > 0 {
        let d = cs.drop_last();
        lemma_scan_line_shift(pre, d, n);
        lemma_scan_run_wf(d);
        assert(scan_run(scan_start(), d, 0) == scan_line(d));
        lemma_scan_step_shift(scan_line(d), pre, n, cs.len() - 1, cs.last());
    }
}

proof fn lemma_encode_concat(a: Seq<char>, b: Seq<char>)
    ensures
        encode_utf8(a + b) == encode_utf8(a) + encode_utf8(b),
    decreases a.len(),
{
    if a.len() == 0 {
        assert(a + b =~= b);
        assert(encode_utf8(a) + encode_utf8(b) =~= encode_utf8(b));
    } else {
        assert((a + b).drop_first() =~= a.drop_first() + b);
        assert((a + b)[0] == a[0]);
        lemma_encode_concat(a.drop_first(), b);
        assert(encode_utf8(a + b) =~= encode_utf8(a) + encode_utf8(b));
    }
}

proof fn lemma_first_not_continuation(b: Seq<u8>)
    requires
        valid_utf8(b),
        b.len() > 0,
    ensures
        !is_continuation_byte(b[0]),
{
    is_char_boundary_start_end_of_seq(b);
    is_char_boundary_iff_not_is_continuation_byte(b, 0);
}

proof fn lemma_boundary_after(x: Seq<u8>, y: Seq<u8>, i: int)
    requires
        valid_utf8(x),
        valid_utf8(y),
        0 <= i,
    ensures
        is_char_boundary(x + y, x.len() + i) == is_char_boundary(y, i),
{
    let c = x + y;
    valid_utf8_concat(x, y);
    is_char_boundary_start_end_of_seq(c);
    is_char_boundary_start_end_of_seq(y);
    if i < y.len() {
        is_char_boundary_iff_not_is_continuation_byte(c, x.len() + i);
        is_char_boundary_iff_not_is_continuation_byte(y, i);
        assert(c[x.len() + i] == y[i]);
    } else if i == y.len() {
        assert(x.len() + i == c.len());
    } else {
        assert(!is_char_boundary(c, x.len() + i));
        assert(!is_char_boundary(y, i));
    }
}

proof fn lemma_boundary_before(x: Seq<u8>, y: Seq<u8>, i: int)
    requires
        valid_utf8(x),
        valid_utf8(y),
        0 <= i <= x.len(),
    ensures
        is_char_boundary(x + y, i) == is_char_boundary(x, i),
{
    let c = x + y;
    valid_utf8_concat(x, y);
    is_char_boundary_start_end_of_seq(c);
    is_char_boundary_start_end_of_seq(x);
    if i < x.len() {
        is_char_boundary_iff_not_is_continuation_byte(c, i);
        is_char_boundary_iff_not_is_continuation_byte(x, i);
        assert(c[i] == x[i]);
    } else if y.len() > 0 {
        lemma_first_not_continuation(y);
        is_char_boundary_iff_not_is_continuation_byte(c, i);
        assert(c[i] == y[0]);
    } else {
        assert(c =~= x);
    }
}

proof fn lemma_slice_after(x: Seq<u8>, y: Seq<u8>, lo: int, hi: int)
    requires
        valid_utf8(x),
        valid_utf8(y),
        0 <= lo,
    ensures
        byte_slice_chars(x + y, x.len() + lo, x.len() + hi) == byte_slice_chars(y, lo, hi),
{
    lemma_boundary_after(x, y, lo);
    if lo <= hi {
        lemma_boundary_after(x, y, hi);
        if is_char_boundary(y, hi) {
            is_char_boundary_start_end_of_seq(y);
            if hi > y.len() {
                assert(!is_char_boundary(y, hi));
            }
            assert((x + y).subrange(x.len() + lo, x.len() + hi) =~= y.subrange(lo, hi));
        }
    }
}

proof fn lemma_slice_before(x: Seq<u8>, y: Seq<u8>, lo: int, hi: int)
    requires
        valid_utf8(x),
        valid_utf8(y),
        0 <= lo,
        hi <= x.len(),
    ensures
        byte_slice_chars(x + y, lo, hi) == byte_slice_chars(x, lo, hi),
{
    if lo <= hi {
        lemma_boundary_before(x, y, lo);
        lemma_boundary_before(x, y, hi);
        assert((x + y).subrange(lo, hi) =~= x.subrange(lo, hi));
    }
}

proof fn lemma_arrangements_after(x: Seq<u8>, y: Seq<u8>, st: usize, v: Seq<usize>, k: int)
    requires
        valid_utf8(x),
        valid_utf8(y),
        0 <= k <= v.len(),
        st + x.len() <= usize::MAX,
        forall|i: int| 0 <= i < v.len() ==> #[trigger] v[i] + x.len() <= usize::MAX,
    ensures
        arrangements_prefix(x + y, shift_pos(st, x.len() as int), shift_marks(v, x.len() as int), k)
            == arrangements_prefix(y, st, v, k),
    decreases k,
{
    if k > 0 {
        let n = x.len() as int;
        lemma_arrangements_after(x, y, st, v, k - 1);
        let lo = if k == 1 { st as int } else { v[k - 2] as int };
        lemma_slice_after(x, y, lo + 1, v[k - 1] as int);
        assert(shift_marks(v, n)[k - 1] == v[k - 1] + n);
        if k > 1 {
            assert(shift_marks(v, n)[k - 2] == v[k - 2] + n);
        }
    }
}

proof fn lemma_arrangements_before(x: Seq<u8>, y: Seq<u8>, st: usize, v: Seq<usize>, k: int)
    requires
        valid_utf8(x),
        valid_utf8(y),
        0 <= k <= v.len(),
        forall|i: int| 0 <= i < v.len() ==> #[trigger] v[i] <= x.len(),
    ensures
        arrangements_prefix(x + y, st, v, k) == arrangements_prefix(x, st, v, k),
    decreases k,
{
    if k > 0 {
        lemma_arrangements_before(x, y, st, v, k - 1);
        let lo = if k == 1 { st as int } else { v[k - 2] as int };
        lemma_slice_before(x, y, lo + 1, v[k - 1] as int);
    }
}

proof fn lemma_convert_after(x: Seq<u8>, y: Seq<u8>, t: TokenModel, m: int)
    requires
        valid_utf8(x),
        valid_utf8(y),
        raw_wf(t, m),
        x.len() + m <= usize::MAX,
    ensures
        convert_token(x + y, shift_token(t, x.len() as int)) == convert_token(y, t),
{
    let n = x.len() as int;
    match t {
        TokenModel::Quote(a, b) => {
            lemma_slice_after(x, y, a + 1, b as int);
        },
        TokenModel::Coordinates(a, b, c) => {
            lemma_slice_after(x, y, a + 1, b as int);
            lemma_slice_after(x, y, b + 1, c as int);
        },
        TokenModel::Ruminations(a, v) => {
            assert forall|i: int| 0 <= i < v.len() implies #[trigger] v[i] + x.len() <= usize::MAX by {}
            lemma_arrangements_after(x, y, a, v, v.len() as int);
        },
        _ => {},
    }
}

proof fn lemma_convert_before(x: Seq<u8>, y: Seq<u8>, t: TokenModel)
    requires
        valid_utf8(x),
        valid_utf8(y),
        raw_wf(t, x.len() as int),
    ensures
        convert_token(x + y, t) == convert_token(x, t),
{
    match t {
        TokenModel::Quote(a, b) => {
            lemma_slice_before(x, y, a + 1, b as int);
        },
        TokenModel::Coordinates(a, b, c) => {
            lemma_slice_before(x, y, a + 1, b as int);
            lemma_slice_before(x, y, b + 1, c as int);
        },
        TokenModel::Ruminations(a, v) => {
            assert forall|i: int| 0 <= i < v.len() implies #[trigger] v[i] <= x.len() by {}
            lemma_arrangements_before(x, y, a, v, v.len() as int);
        },
        _ => {},
    }
}

/// Converting two runs of recorded tokens one after the other.
pub open spec fn both(p: Option<Seq<TokenModel>>, q: Option<Seq<TokenModel>>) -> Option<Seq<TokenModel>> {
    match (p, q) {
        (Some(a), Some(b)) => Some(a + b),
        _ => None,
    }
}

proof fn lemma_convert_tokens_concat(b: Seq<u8>, p: Seq<TokenModel>, q: Seq<TokenModel>)
    ensures
        convert_tokens(b, p + q) == both(convert_tokens(b, p), convert_tokens(b, q)),
    decreases q.len(),
{
    if q.len() == 0 {
        assert(p + q =~= p);
        match convert_tokens(b, p) {
            Some(a) => {
                assert(a + Seq::<TokenModel>::empty() =~= a);
            },
            None => {},
        }
    } else {
        assert((p + q).drop_last() =~= p + q.drop_last());
        lemma_convert_tokens_concat(b, p, q.drop_last());
        match (convert_tokens(b, p), convert_tokens(b, q.drop_last()), convert_token(b, q.last())) {
            (Some(a1), Some(a2), Some(z)) => {
                assert(a1 + a2.push(z) =~= (a1 + a2).push(z));
            },
            _ => {},
        }
    }
}

proof fn lemma_convert_tokens_after(x: Seq<u8>, y: Seq<u8>, raw: Seq<TokenModel>, m: int)
    requires
        valid_utf8(x),
        valid_utf8(y),
        forall|k: int| 0 <= k < raw.len() ==> raw_wf(#[trigger] raw[k], m),
        x.len() + m <= usize::MAX,
    ensures
        convert_tokens(x + y, raw.map_values(|t: TokenModel| shift_token(t, x.len() as int)))
            == convert_tokens(y, raw),
    decreases raw.len(),
{
    let n = x.len() as int;
    let sh = raw.map_values(|t: TokenModel| shift_token(t, n));
    if raw.len() > 0 {
        let d = raw.drop_last();
        assert forall|k: int| 0 <= k < d.len() implies raw_wf(#[trigger] d[k], m) by {
            assert(d[k] == raw[k]);
        }
        lemma_convert_tokens_after(x, y, d, m);
        assert(sh.drop_last() =~= d.map_values(|t: TokenModel| shift_token(t, n)));
        assert(sh.last() == shift_token(raw.last(), n));
        lemma_convert_after(x, y, raw.last(), m);
    }
}

proof fn lemma_convert_tokens_before(x: Seq<u8>, y: Seq<u8>, raw: Seq<TokenModel>)
    requires
        valid_utf8(x),
        valid_utf8(y),
        forall|k: int| 0 <= k < raw.len() ==> raw_wf(#[trigger] raw[k], x.len() as int),
    ensures
        convert_tokens(x + y, raw) == convert_tokens(x, raw),
    decreases raw.len(),
{
    if raw.len() > 0 {
        let d = raw.drop_last();
        assert forall|k: int| 0 <= k < d.len() implies raw_wf(#[trigger] d[k], x.len() as int) by {
            assert(d[k] == raw[k]);
        }
        lemma_convert_tokens_before(x, y, d);
        lemma_convert_before(x, y, raw.last());
    }
}

/// Tokenizing two texts one after the other, where the first is ASCII and
/// the scanner ends it at the top level (outside any quote, coordinate pair
/// or rune list): the tokens of the first, then those of the second; the
/// whole is refused exactly where one of the two is.
pub proof fn law_tokenize_concat(a: Seq<char>, b: Seq<char>)
    requires
        is_ascii_chars(a),
        scan_line(a).state == ScanState::Root,
        !scan_line(a).failed,
        a.len() + b.len() <= usize::MAX,
    ensures
        tokenize_spec(a + b) == both(tokenize_spec(a), tokenize_spec(b)),
{
    let n = a.len() as int;
    let pre = scan_line(a).raw;
    assert(scan_line(a) == at_root(pre));
    lemma_scan_run_concat(scan_start(), a, b, 0);
    assert(scan_line(a + b) == scan_run(scan_line(a), b, n));
    lemma_scan_line_shift(pre, b, n);
    let sb = scan_line(b);
    let ab = scan_line(a + b);
    assert(ab == shift_scan(sb, pre, n));
    lemma_encode_concat(a, b);
    let x = encode_utf8(a);
    let y = encode_utf8(b);
    is_ascii_chars_encode_utf8(a);
    assert(x.len() == n);
    if !sb.failed {
        lemma_scan_run_wf(a);
        lemma_scan_run_wf(b);
        let shifted = sb.raw.map_values(|t: TokenModel| shift_token(t, n));
        lemma_convert_tokens_concat(x + y, pre, shifted);
        lemma_convert_tokens_before(x, y, pre);
        lemma_convert_tokens_after(x, y, sb.raw, b.len() as int);
    }
}

/// Tokenizing an ASCII text without quote marks or opening brackets, then
/// any text: the first text's tokens, then the second's, refused exactly
/// where the second is.
pub proof fn law_tokenize_concat_plain(a: Seq<char>, b: Seq<char>)
    requires
        is_ascii_chars(a),
        !a.contains('"'),
        !a.contains('('),
        !a.contains('['),
        a.len() + b.len() <= usize::MAX,
    ensures
        tokenize_spec(a) is Some,
        tokenize_spec(a + b) == both(tokenize_spec(a), tokenize_spec(b)),
{
    lemma_plain_scan(a);
    lemma_scan_run_wf(a);
    assert forall|k: int| 0 <= k < scan_line(a).raw.len() implies convert_token(
        encode_utf8(a),
        #[trigger] scan_line(a).raw[k],
    ) == Some(scan_line(a).raw[k]) by {}
    lemma_convert_tokens_plain(encode_utf8(a), scan_line(a).raw);
    law_tokenize_concat(a, b);
}

proof fn lemma_plain_scan(a: Seq<char>)
    requires
        !a.contains('"'),
        !a.contains('('),
        !a.contains('['),
    ensures
        scan_line(a).state == ScanState::Root,
        !scan_line(a).failed,
        forall|k: int| 0 <= k < scan_line(a).raw.len() ==> #[trigger] scan_line(a).raw[k] is Varying,
    decreases a.len(),
{
    if a.len() > 0 {
        let d = a.drop_last();
        assert(!d.contains('"') && !d.contains('(') && !d.contains('[')) by {
            if d.contains('"') {
                let j = choose|j: int| 0 <= j < d.len() && d[j] == '"';
                assert(a[j] == '"');
            }
            if d.contains('(') {
                let j = choose|j: int| 0 <= j < d.len() && d[j] == '(';
                assert(a[j] == '(');
            }
            if d.contains('[') {
                let j = choose|j: int| 0 <= j < d.len() && d[j] == '[';
                assert(a[j] == '[');
            }
        }
        lemma_plain_scan(d);
        let c = a.last();
        assert(c == a[a.len() - 1]);
        assert(c != '"' && c != '(' && c != '[') by {
            assert(a.contains(c));
        }
        lemma_plain_step(scan_line(d), a.len() - 1, c);
        assert(scan_line(a) == scan_step(scan_line(d), a.len() - 1, c));
    }
}

proof fn lemma_plain_step(sd: Scan, i: int, c: char)
    requires
        sd.state == ScanState::Root,
        !sd.failed,
        forall|k: int| 0 <= k < sd.raw.len() ==> #[trigger] sd.raw[k] is Varying,
        c != '"' && c != '(' && c != '[',
    ensures
        scan_step(sd, i, c).state == ScanState::Root,
        !scan_step(sd, i, c).failed,
        forall|k: int|
            0 <= k < scan_step(sd, i, c).raw.len() ==> #[trigger] scan_step(sd, i, c).raw[k] is Varying,
{
    let st = scan_step(sd, i, c);
    if is_visible(c) && c != ',' && c != ')' && c != ']' {
        assert(st.raw == sd.raw.push(TokenModel::Varying(c)));
        assert forall|k: int| 0 <= k < st.raw.len() implies #[trigger] st.raw[k] is Varying by {
            if k < sd.raw.len() {
                assert(st.raw[k] == sd.raw[k]);
            }
        }
    } else {
        assert(st == sd);
    }
}

proof fn lemma_convert_tokens_plain(b: Seq<u8>, raw: Seq<TokenModel>)
    requires
        forall|k: int| 0 <= k < raw.len() ==> convert_token(b, #[trigger] raw[k]) == Some(raw[k]),
    ensures
        convert_tokens(b, raw) == Some(raw),
    decreases raw.len(),
{
    if raw.len() > 0 {
        let d = raw.drop_last();
        assert forall|k: int| 0 <= k < d.len() implies convert_token(b, #[trigger] d[k]) == Some(d[k]) by {
            assert(d[k] == raw[k]);
        }
        lemma_convert_tokens_plain(b, d);
        assert(d.push(raw.last()) =~= raw);
    }
}


/// The written text of a line of writable tokens, when there is any, ends in
/// a character other than a carriage return.
proof fn lemma_line_text_end(ts: Seq<TokenModel>)
    requires
        forall|k: int| 0 <= k < ts.len() ==> writable_token(#[trigger] ts[k]),
    ensures
        strip_cr(line_text(ts)) == line_text(ts),
{
    if ts.len() > 0 {
        let t = ts.last();
        assert(writable_token(ts[ts.len() - 1]));
        let tt = token_text(t);
        assert(tt.len() > 0 && tt.last() != '\r') by {
            match t {
                TokenModel::String(s) => {
                    assert(tt.last() == '"');
                },
                TokenModel::Coord(x, y) => {
                    assert(tt.last() == ')');
                },
                TokenModel::Varying(c) => {
                    assert(tt =~= seq![c]);
                },
                TokenModel::Runes(rs) => {
                    assert(tt.last() == ']');
                },
                _ => {},
            }
        }
        let lt = line_text(ts);
        assert(lt == line_text(ts.drop_last()) + tt);
        assert(lt.last() == tt.last());
    }
}

/// Splitting after characters without a newline only lengthens the line
/// under way.
proof fn lemma_line_split_append(p: Seq<char>, q: Seq<char>)
    requires
        !q.contains('\n'),
    ensures
        line_split(p + q) == (line_split(p).0, line_split(p).1 + q),
    decreases q.len(),
{
    if q.len() == 0 {
        assert(p + q =~= p);
        assert(line_split(p).1 + q =~= line_split(p).1);
    } else {
        let d = q.drop_last();
        assert(!d.contains('\n')) by {
            if d.contains('\n') {
                let j = choose|j: int| 0 <= j < d.len() && d[j] == '\n';
                assert(q[j] == '\n');
            }
        }
        lemma_line_split_append(p, d);
        assert((p + q).drop_last() =~= p + d);
        assert((p + q).last() == q.last());
        assert(q.last() != '\n') by {
            assert(q[q.len() - 1] == q.last());
        }
        assert((line_split(p).1 + d).push(q.last()) =~= line_split(p).1 + q);
    }
}

/// Splitting the text of a whole level file gives the text of each line
/// and nothing under way.
proof fn lemma_file_split(ls: Seq<Seq<TokenModel>>)
    requires
        forall|k: int| 0 <= k < ls.len() ==> writable_line(#[trigger] ls[k]),
        forall|k: int| 0 <= k < ls.len() ==> !line_text(#[trigger] ls[k]).contains('\n'),
    ensures
        line_split(file_text(ls)) == (ls.map_values(|l: Seq<TokenModel>| line_text(l)), Seq::<char>::empty()),
    decreases ls.len(),
{
    if ls.len() == 0 {
        assert(ls.map_values(|l: Seq<TokenModel>| line_text(l)) =~= Seq::<Seq<char>>::empty());
    } else {
        let init = ls.drop_last();
        let last = ls.last();
        assert(writable_line(ls[ls.len() - 1]) && !line_text(ls[ls.len() - 1]).contains('\n'));
        assert forall|k: int| 0 <= k < init.len() implies writable_line(#[trigger] init[k]) by {
            assert(init[k] == ls[k]);
        }
        assert forall|k: int| 0 <= k < init.len() implies !line_text(#[trigger] init[k]).contains('\n') by {
            assert(init[k] == ls[k]);
        }
        lemma_file_split(init);
        let t = line_text(last);
        let x = file_text(init) + t;
        lemma_line_split_append(file_text(init), t);
        assert(line_split(file_text(init)).1 + t =~= t);
        let whole = file_text(ls);
        assert(whole == x + seq!['\n']);
        assert(whole.drop_last() =~= x);
        assert(whole.last() == '\n');
        lemma_line_text_end(last);
        assert(ls.map_values(|l: Seq<TokenModel>| line_text(l)) =~= init.map_values(
            |l: Seq<TokenModel>| line_text(l),
        ).push(t));
    }
}

/// A level file written from lines of writable tokens, none of whose text
/// holds a newline, splits into one line of text per line of tokens, and
/// each of those tokenizes back to the tokens it was written from.
pub proof fn law_tokenize_reads_back_written_file(ls: Seq<Seq<TokenModel>>)
    requires
        forall|k: int| 0 <= k < ls.len() ==> writable_line(#[trigger] ls[k]),
        forall|k: int| 0 <= k < ls.len() ==> !line_text(#[trigger] ls[k]).contains('\n'),
    ensures
        lines_spec(file_text(ls)).len() == ls.len(),
        forall|k: int|
            0 <= k < ls.len() ==> tokenize_spec(#[trigger] lines_spec(file_text(ls))[k]) == Some(ls[k]),
{
    lemma_file_split(ls);
    let m = ls.map_values(|l: Seq<TokenModel>| line_text(l));
    assert(lines_spec(file_text(ls)) == m);
    assert forall|k: int| 0 <= k < ls.len() implies tokenize_spec(
        #[trigger] lines_spec(file_text(ls))[k],
    ) == Some(ls[k]) by {
        assert(m[k] == line_text(ls[k]));
        law_tokenize_reads_back_written_line(ls[k]);
    }
}

/// The text that `extract_file_string` writes for one line of writable
/// tokens, its closing newline included, tokenizes back to that line.
pub proof fn law_tokenize_reads_back_written_file_line(ts: Seq<TokenModel>)
    requires
        writable_line(ts),
        line_text(ts).len() < usize::MAX,
    ensures
        tokenize_spec(file_text(seq![ts])) == Some(ts),
{
    let t = line_text(ts);
    let nl = seq!['\n'];
    let one = seq![ts];
    assert(one.drop_last() =~= Seq::<Seq<TokenModel>>::empty());
    assert(one.last() == ts);
    assert(file_text(one.drop_last()) == Seq::<char>::empty());
    assert(file_text(one) == file_text(one.drop_last()) + line_text(ts) + nl);
    assert(file_text(one) =~= t + nl);
    lemma_line_scan(ts);
    law_tokenize_reads_back_written_line(ts);
    assert(is_ascii_chars(t));
    assert(scan_line(nl) == scan_step(scan_start(), 0, '\n')) by {
        assert(nl.drop_last() =~= Seq::<char>::empty());
        assert(scan_run(scan_start(), nl.drop_last(), 0) == scan_start());
        assert(nl.last() == '\n');
    }
    assert(scan_line(nl).raw =~= Seq::<TokenModel>::empty());
    law_tokenize_concat(t, nl);
    assert(tokenize_spec(nl) == Some(Seq::<TokenModel>::empty()));
    assert(ts + Seq::<TokenModel>::empty() =~= ts);
}


/// Every action letter of the level format (`a`, `b`, `g`, `r`, `l`, `p`,
/// `s`, `d`) and every manipulation letter (`n`, `v`, `k`, `t`), written in
/// brackets with a count digit from 0 to 3, reads as one rune list holding
/// one arrangement of one rune: of that kind, that letter and that count.
pub proof fn law_rune_letters_read(c: char, k: u8)
    requires
        c == 'a' || c == 'b' || c == 'g' || c == 'r' || c == 'l' || c == 'p' || c == 's' || c == 'd'
            || c == 'n' || c == 'v' || c == 'k' || c == 't',
        k <= 3,
    ensures
        tokenize_spec(seq!['[', c, (k + 48) as char, ']']) == Some(
            seq![
                TokenModel::Runes(
                    seq![
                        seq![
                            if c == 'n' || c == 'v' || c == 'k' || c == 't' {
                                RuneToken::Manip(c, k, ConditionRuneToken::Absent)
                            } else {
                                RuneToken::Action(c, k, ConditionRuneToken::Absent)
                            },
                        ],
                    ],
                ),
            ],
        ),
{
    let d = (k + 48) as char;
    let cs = seq!['[', c, d, ']'];
    let manip = c == 'n' || c == 'v' || c == 'k' || c == 't';
    let rune = if manip {
        RuneToken::Manip(c, k, ConditionRuneToken::Absent)
    } else {
        RuneToken::Action(c, k, ConditionRuneToken::Absent)
    };
    assert(d as u32 == k + 48);
    assert('0' <= d && d <= '3');
    assert(is_ascii_chars(cs)) by {
        assert forall|i: int| 0 <= i < cs.len() implies '\0' <= #[trigger] cs[i] <= '\u{7f}' by {}
    }
    let s0 = scan_start();
    let s1 = Scan { state: ScanState::Ruminating(0, Seq::empty()), raw: Seq::empty(), failed: false };
    let s4 = Scan {
        state: ScanState::Root,
        raw: seq![TokenModel::Ruminations(0, seq![3usize])],
        failed: false,
    };
    assert(cs.drop_last() =~= seq!['[', c, d]);
    assert(cs.drop_last().drop_last() =~= seq!['[', c]);
    assert(cs.drop_last().drop_last().drop_last() =~= seq!['[']);
    assert(seq!['['].drop_last() =~= Seq::<char>::empty());
    assert(scan_run(s0, Seq::<char>::empty(), 0) == s0);
    assert(scan_run(s0, seq!['['], 0) == s1);
    assert(scan_run(s0, seq!['[', c], 0) == s1);
    assert(scan_run(s0, seq!['[', c, d], 0) == s1);
    assert(scan_step(s1, 3, ']').raw =~= s4.raw);
    assert(scan_run(s0, cs, 0) == s4);
    let b = encode_utf8(cs);
    lemma_ascii_slice(cs, 1, 3);
    assert(cs.subrange(1, 3) =~= seq![c, d]);
    let v = seq![3usize];
    assert(arrangements_prefix(b, 0, v, 0) == Some(Seq::<Seq<RuneToken>>::empty()));
    let acc0: (Seq<RuneToken>, Option<RuneToken>) = (Seq::empty(), None);
    assert(seq![c, d].drop_last() =~= seq![c]);
    assert(seq![c].drop_last() =~= Seq::<char>::empty());
    assert(rune_run(acc0, Seq::<char>::empty()) == acc0);
    let first = if manip {
        RuneToken::Manip(c, 1, ConditionRuneToken::Absent)
    } else {
        RuneToken::Action(c, 1, ConditionRuneToken::Absent)
    };
    assert(push_some(Seq::<RuneToken>::empty(), None) == Seq::<RuneToken>::empty());
    assert(rune_run(acc0, seq![c]) == (Seq::<RuneToken>::empty(), Some(first)));
    assert(!is_action_char(d) && !is_manip_char(d) && is_count_char(d));
    assert((d as u32 - '0' as u32) as u8 == k);
    assert(rune_run(acc0, seq![c, d]) == (Seq::<RuneToken>::empty(), Some(rune)));
    assert(runes_of(seq![c, d]) =~= seq![rune]);
    assert(arrangements_prefix(b, 0, v, 1) == Some(seq![seq![rune]]));
    assert(convert_token(b, TokenModel::Ruminations(0, v)) == Some(TokenModel::Runes(seq![seq![rune]])));
    assert(s4.raw.drop_last() =~= Seq::<TokenModel>::empty());
    assert(convert_tokens(b, Seq::<TokenModel>::empty()) == Some(Seq::<TokenModel>::empty()));
    assert(convert_tokens(b, s4.raw) =~= Some(seq![TokenModel::Runes(seq![seq![rune]])]));
}

} // verus!
