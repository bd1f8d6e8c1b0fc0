use nlpsvc::regex::{parse, Term};
use nlpsvc::compile::RegexTranslator;
use nlpsvc::program::{ClassItem, Instruction};
use nlpsvc::reinterp::Token;
use nlpsvc::tokenizer::{DummyTokenizerRules, EnglishTokenizer, TokenizerBuilder};
use nlpsvc::AnnotatedDocument;

fn describe(t: &Term) -> String {
    match t {
        Term::Empty => "()".to_string(),
        Term::Literal(c) => format!("'{}'", c),
        Term::Any => ".".to_string(),
        Term::Class(d) => format!("[{}{:?}]", if d.negated { "^" } else { "" }, d.items),
        Term::Concat(a, b) => format!("({} {})", describe(a), describe(b)),
        Term::Alt(a, b) => format!("({} | {})", describe(a), describe(b)),
        Term::Star(a) => format!("{}*", describe(a)),
        Term::Plus(a) => format!("{}+", describe(a)),
        Term::Opt(a) => format!("{}?", describe(a)),
    }
}

#[test]
fn parse_word_pattern_with_case_flag() {
    let (nocase, t) = parse("(?i)[a-z]+").unwrap();
    assert!(nocase);
    assert_eq!(describe(&t), "[[Range('a', 'z')]]+");
}

#[test]
fn parse_alternation_groups_and_escapes() {
    let (nocase, t) = parse("a(b|c)*\\.").unwrap();
    assert!(!nocase);
    assert_eq!(describe(&t), "(('a' ('b' | 'c')*) '.')");
    let (_, t) = parse("[^x-z-]").unwrap();
    assert_eq!(describe(&t), "[^[Range('x', 'z'), Single('-')]]");
    let (_, t) = parse("a|").unwrap();
    assert_eq!(describe(&t), "('a' | ())");
}

#[test]
fn parse_rejects_malformed_patterns() {
    assert!(parse("(a").is_none());
    assert!(parse("a)").is_none());
    assert!(parse("*a").is_none());
    assert!(parse("[a-").is_none());
    assert!(parse("[]").is_none());
    assert!(parse("[z-a]").is_none());
    assert!(parse("a\\").is_none());
}

#[test]
fn compile_literal_rule() {
    let (nocase, t) = parse("ab").unwrap();
    let mut c = RegexTranslator::new();
    c.compile(nocase, &t, 7);
    assert_eq!(c.prog.starts, vec![0]);
    assert_eq!(c.prog.insts.len(), 3);
    match &c.prog.insts[0] {
        Instruction::Char(d) => assert_eq!((d.ch, d.goto), ('a', 1)),
        _ => panic!("expected a char test"),
    }
    match &c.prog.insts[2] {
        Instruction::Match(d) => assert_eq!(d.rule_id, 7),
        _ => panic!("expected a match"),
    }
}

#[test]
fn compile_star_loops_back() {
    let (_, t) = parse("a*").unwrap();
    let mut c = RegexTranslator::new();
    c.compile(false, &t, 0);
    // 0: split(1, 2); 1: char a -> 0; 2: match 0
    match &c.prog.insts[0] {
        Instruction::Split(x, y) => assert_eq!((*x, *y), (1, 2)),
        _ => panic!("expected a split"),
    }
    match &c.prog.insts[1] {
        Instruction::Char(d) => assert_eq!(d.goto, 0),
        _ => panic!("expected a char test"),
    }
}

#[test]
fn builder_numbers_rules_in_order() {
    let mut t = TokenizerBuilder::new().add_rule("a+").add_rule("b|ab").build();
    let toks = t.tokenize("aab ab").unwrap();
    assert_eq!(
        toks,
        vec![
            Token::Append { begin: 0, len: 2, rule: 0 },
            Token::Append { begin: 2, len: 1, rule: 1 },
            Token::Skip { begin: 3, len: 1 },
            Token::Append { begin: 4, len: 2, rule: 1 },
        ]
    );
}

#[test]
fn english_tokenizer_marks_words_in_the_document() {
    let mut tok = EnglishTokenizer::new();
    let mut doc = AnnotatedDocument::new("01 Hello!");
    let toks = tok.apply_to(&mut doc).unwrap();
    assert_eq!(
        toks,
        vec![
            Token::Append { begin: 0, len: 2, rule: 1 },
            Token::Skip { begin: 2, len: 1 },
            Token::Append { begin: 3, len: 5, rule: 0 },
            Token::Append { begin: 8, len: 1, rule: 2 },
        ]
    );
    let lines: Vec<String> = toks.iter().map(|t| tok.token_line(doc.get_text(), *t)).collect();
    assert_eq!(lines, vec!["NUMBER [01] at 0", "No rule matched at pos 2 (' ')", "WORD [Hello] at 3", "PUNCT [!] at 8"]);
    let mut cursor = doc.get_trees().first();
    let mut nodes = vec![];
    while cursor.is_valid() {
        let label = cursor.get().unwrap();
        nodes.push((label.get_span().unwrap(), label.get_sym_val("toktype").to_string()));
        cursor.next();
    }
    assert_eq!(
        nodes,
        vec![((0, 2), "NUMBER".to_string()), ((3, 8), "WORD".to_string()), ((8, 9), "PUNCT".to_string())]
    );
}

#[test]
fn english_numbers_take_commas_and_dots() {
    let mut tok = EnglishTokenizer::new();
    let mut doc = AnnotatedDocument::new("1,000.5, ok?");
    let toks = tok.apply_to(&mut doc).unwrap();
    assert_eq!(
        toks,
        vec![
            Token::Append { begin: 0, len: 7, rule: 1 },
            Token::Append { begin: 7, len: 1, rule: 2 },
            Token::Skip { begin: 8, len: 1 },
            Token::Append { begin: 9, len: 2, rule: 0 },
            Token::Append { begin: 11, len: 1, rule: 2 },
        ]
    );
}

#[test]
fn english_tokenizer_skips_unmatched_non_ascii() {
    let mut tok = EnglishTokenizer::new();
    let mut doc = AnnotatedDocument::new("caf\u{e9}!");
    let toks = tok.apply_to(&mut doc).unwrap();
    assert_eq!(
        toks,
        vec![
            Token::Append { begin: 0, len: 3, rule: 0 },
            Token::Skip { begin: 3, len: 2 },
            Token::Append { begin: 5, len: 1, rule: 2 },
        ]
    );
    assert_eq!(tok.token_line(doc.get_text(), toks[1]), "No rule matched at pos 3 ('\u{e9}')");
    let mut cursor = doc.get_trees().first();
    assert_eq!(cursor.get().unwrap().get_span(), Some((0, 3)));
    cursor.next();
    assert_eq!(cursor.get().unwrap().get_span(), Some((5, 6)));
    assert_eq!(cursor.get().unwrap().get_sym_val("toktype"), "PUNCT");
    cursor.next();
    assert!(!cursor.is_valid());
}

#[test]
fn dummy_rules_report_lines() {
    let d = DummyTokenizerRules;
    assert_eq!(d.append_line("Hello", 0), "WORD [Hello]");
    assert_eq!(d.append_line("42", 1), "NUMBER [42]");
    assert_eq!(d.append_line("?", 2), "PUNCT [?]");
    assert_eq!(d.skip_line(17), "No rule matched at pos 17");
}

#[test]
fn class_items_keep_ranges() {
    let (_, t) = parse("[0-9,.]").unwrap();
    match t {
        Term::Class(d) => assert_eq!(
            d.items,
            vec![ClassItem::Range('0', '9'), ClassItem::Single(','), ClassItem::Single('.')]
        ),
        _ => panic!("expected a class"),
    }
}

#[test]
fn a_matching_rule_never_loses_to_a_shorter_match() {
    // At 0 rule 0 matches "ab" and rule 1 matches "abcbd": the longer wins.
    let mut t = TokenizerBuilder::new().add_rule("ab").add_rule("a(b|c)*d?").build();
    let toks = t.tokenize("abcbd").unwrap();
    assert_eq!(toks, vec![Token::Append { begin: 0, len: 5, rule: 1 }]);
    // As long as each other: the lower-numbered rule wins.
    let mut t = TokenizerBuilder::new().add_rule("a(b|c)*").add_rule("ab").build();
    let toks = t.tokenize("ab").unwrap();
    assert_eq!(toks, vec![Token::Append { begin: 0, len: 2, rule: 0 }]);
}

#[test]
fn every_token_is_text_that_its_rule_matches() {
    let mut t = TokenizerBuilder::new().add_rule("[0-9]+").add_rule("[a-z]+").build();
    let text = "ab12cd 7";
    let toks = t.tokenize(text).unwrap();
    assert_eq!(
        toks,
        vec![
            Token::Append { begin: 0, len: 2, rule: 1 },
            Token::Append { begin: 2, len: 2, rule: 0 },
            Token::Append { begin: 4, len: 2, rule: 1 },
            Token::Skip { begin: 6, len: 1 },
            Token::Append { begin: 7, len: 1, rule: 0 },
        ]
    );
    for tok in toks {
        if let Token::Append { begin, len, rule } = tok {
            let piece = &text[begin..begin + len];
            if rule == 0 {
                assert!(piece.chars().all(|c| c.is_ascii_digit()));
            } else {
                assert!(piece.chars().all(|c| c.is_ascii_lowercase()));
            }
        }
    }
}

#[test]
fn loops_over_optional_pieces_still_finish() {
    let mut t = TokenizerBuilder::new().add_rule("(a?)*b").build();
    let toks = t.tokenize("aab").unwrap();
    assert_eq!(toks, vec![Token::Append { begin: 0, len: 3, rule: 0 }]);
    let toks = t.tokenize("b").unwrap();
    assert_eq!(toks, vec![Token::Append { begin: 0, len: 1, rule: 0 }]);
}
