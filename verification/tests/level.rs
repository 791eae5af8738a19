use auto_claw::level::{extract_file_string, tokenize, try_tokenize, ConditionRuneToken, RuneToken, Token};
use auto_claw::loader::split_lines;

#[test]
fn board_line_tokens() {
    assert_eq!(
        tokenize(">\"T\""),
        vec![Token::Varying('>'), Token::String(String::from("T"))]
    );
}

#[test]
fn coordinate_pair() {
    assert_eq!(tokenize("(3,-4)"), vec![Token::Coord(3, -4)]);
}

#[test]
fn runes_split_at_commas() {
    assert_eq!(
        tokenize("[a1b2,n3]"),
        vec![Token::Runes(vec![
            vec![
                RuneToken::Action('a', 1, ConditionRuneToken::Absent),
                RuneToken::Action('b', 2, ConditionRuneToken::Absent),
            ],
            vec![RuneToken::Manip('n', 3, ConditionRuneToken::Absent)],
        ])]
    );
}

#[test]
fn rune_without_count_counts_one() {
    assert_eq!(
        tokenize("[gk]"),
        vec![Token::Runes(vec![vec![
            RuneToken::Action('g', 1, ConditionRuneToken::Absent),
            RuneToken::Manip('k', 1, ConditionRuneToken::Absent),
        ]])]
    );
}

#[test]
fn empty_rune_list() {
    assert_eq!(tokenize("[]"), vec![Token::Runes(vec![])]);
}

#[test]
fn spaces_are_skipped() {
    assert_eq!(tokenize("a b"), vec![Token::Varying('a'), Token::Varying('b')]);
}

#[test]
fn quoted_text_keeps_brackets() {
    assert_eq!(tokenize("\"a(b\""), vec![Token::String(String::from("a(b"))]);
}

#[test]
fn empty_line_has_no_tokens() {
    assert_eq!(tokenize(""), vec![]);
}

#[test]
fn pair_closed_before_comma_is_refused() {
    assert_eq!(try_tokenize("(1)"), None);
}

#[test]
fn coordinate_that_is_no_number_is_refused() {
    assert_eq!(try_tokenize("(x,2)"), None);
    assert_eq!(try_tokenize("( 1,2)"), None);
}

#[test]
fn mixed_line() {
    assert_eq!(
        tokenize(">\"Town\" (10,20) E"),
        vec![
            Token::Varying('>'),
            Token::String(String::from("Town")),
            Token::Coord(10, 20),
            Token::Varying('E'),
        ]
    );
}

#[test]
fn file_string_writes_each_line() {
    let lines = vec![
        vec![Token::Varying('>'), Token::String(String::from("T"))],
        vec![
            Token::Coord(1, -2),
            Token::Runes(vec![vec![RuneToken::Action('a', 1, ConditionRuneToken::Absent)], vec![]]),
        ],
    ];
    assert_eq!(extract_file_string(&lines), ">\"T\"\n(1,-2)[a1,]\n");
}

#[test]
fn file_string_skips_raw_tokens() {
    let lines = vec![vec![
        Token::Quote(0, 1),
        Token::Coordinates(0, 1, 2),
        Token::Ruminations(0, vec![1]),
        Token::Varying('x'),
    ]];
    assert_eq!(extract_file_string(&lines), "x\n");
}

#[test]
fn empty_file_string() {
    let lines: Vec<Vec<Token>> = vec![];
    assert_eq!(extract_file_string(&lines), "");
}

#[test]
fn written_line_reads_back() {
    let line = vec![
        Token::Varying('>'),
        Token::String(String::from("T")),
        Token::Coord(-7, 42),
        Token::Runes(vec![
            vec![RuneToken::Action('s', 3, ConditionRuneToken::Absent)],
            vec![RuneToken::Manip('t', 2, ConditionRuneToken::Absent)],
        ]),
    ];
    let text = extract_file_string(&vec![line.clone()]);
    let text = text.trim_end_matches('\n');
    assert_eq!(tokenize(text), line);
}

#[test]
fn quote_abandons_open_pair() {
    assert_eq!(
        tokenize("(1\"x\")"),
        vec![Token::String(String::from("x"))]
    );
}

#[test]
fn low_byte_decides_visibility() {
    assert_eq!(tokenize("\u{141}"), vec![Token::Varying('\u{141}')]);
    assert_eq!(tokenize("\u{100}"), vec![]);
}

#[test]
fn concatenated_lines_tokenize_in_turn() {
    let a = "> a";
    let b = "\"x\"(1,2)[s3]";
    let mut both = tokenize(a);
    both.extend(tokenize(b));
    assert_eq!(tokenize(&format!("{}{}", a, b)), both);
    assert_eq!(try_tokenize(&format!("{}{}", a, "(1)")), None);
}

#[test]
fn written_file_reads_back_line_by_line() {
    let lines = vec![
        vec![Token::Varying('>'), Token::String(String::from("T"))],
        vec![
            Token::Coord(3, -4),
            Token::Runes(vec![vec![RuneToken::Manip('k', 1, ConditionRuneToken::Absent)]]),
        ],
        vec![],
    ];
    let text = extract_file_string(&lines);
    let split = split_lines(&text);
    assert_eq!(split.len(), lines.len());
    for (s, l) in split.iter().zip(lines.iter()) {
        assert_eq!(&tokenize(s), l);
    }
    let one = extract_file_string(&vec![lines[1].clone()]);
    assert_eq!(tokenize(&one), lines[1]);
}
