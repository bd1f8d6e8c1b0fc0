use nlpsvc::sparse::SparseSet;
use nlpsvc::text::char_at;
use nlpsvc::match_record::MatchRecord;
use nlpsvc::program::{
    AnyCharData, CharClassData, CharClassInst, CharData, ClassItem, Instruction, MatchData, Program,
};
use nlpsvc::reinterp::{ThompsonInterpreter, Token, TokenSink, TaskList};
use std::cmp::Ordering;

#[test]
fn sparse_set_insert_contains_clear() {
    let mut s = SparseSet::new(5);
    assert!(s.is_empty());
    s.insert(3);
    s.insert(1);
    assert_eq!(s.len(), 2);
    assert!(s.contains(3));
    assert!(s.contains(1));
    assert!(!s.contains(0));
    assert!(!s.contains(4));
    assert_eq!(s.at(0), 3);
    assert_eq!(s.at(1), 1);
    s.clear();
    assert!(s.is_empty());
    assert!(!s.contains(3));
}

#[test]
fn task_list_adds_each_task_once() {
    let mut l = TaskList::new(4);
    l.add_task(2);
    l.add_task(2);
    l.add_task(0);
    assert_eq!(l.len(), 2);
    l.clear();
    assert!(l.is_empty());
}

#[test]
fn char_at_decodes_utf8() {
    let text = "a\u{e9}\u{1F600}";
    let b = text.as_bytes();
    assert_eq!(char_at(b, 0), Some(('a', 1)));
    assert_eq!(char_at(b, 1), Some(('\u{e9}', 2)));
    assert_eq!(char_at(b, 3), Some(('\u{1F600}', 4)));
    assert_eq!(char_at(b, 7), None);
}

#[test]
fn match_records_order_by_length_then_rule() {
    let long = MatchRecord::new(5, 2);
    let short = MatchRecord::new(3, 0);
    assert_eq!(long.partial_cmp(&short), Some(Ordering::Greater));
    assert_eq!(short.partial_cmp(&long), Some(Ordering::Less));
    let early = MatchRecord::new(4, 0);
    let late = MatchRecord::new(4, 1);
    assert!(early > late);
    assert_eq!(early.partial_cmp(&MatchRecord::new(4, 0)), Some(Ordering::Equal));
}

#[test]
fn char_class_matches_and_negation() {
    let lower = CharClassData { negated: false, items: vec![ClassItem::Range('a', 'z'), ClassItem::Single('_')] };
    assert!(lower.matches('q'));
    assert!(lower.matches('_'));
    assert!(!lower.matches('Q'));
    let not_lower = CharClassData { negated: true, items: vec![ClassItem::Range('a', 'z')] };
    assert!(!not_lower.matches('q'));
    assert!(not_lower.matches('7'));
}

/// rule 0: "ab", rule 1: "a", rule 2: "[0-9]" with any case for letters
fn small_program() -> Program {
    Program {
        insts: vec![
            Instruction::Char(CharData { ch: 'a', nocase: true, goto: 1 }),
            Instruction::Char(CharData { ch: 'b', nocase: false, goto: 2 }),
            Instruction::Match(MatchData { rule_id: 0 }),
            Instruction::Char(CharData { ch: 'a', nocase: false, goto: 4 }),
            Instruction::Match(MatchData { rule_id: 1 }),
            Instruction::CharClass(CharClassInst {
                data: CharClassData { negated: false, items: vec![ClassItem::Range('0', '9')] },
                nocase: false,
                goto: 6,
            }),
            Instruction::Match(MatchData { rule_id: 2 }),
        ],
        starts: vec![0, 3, 5],
    }
}

#[test]
fn interpreter_prefers_longest_then_earliest_rule() {
    let mut vm = ThompsonInterpreter::new(small_program());
    let toks = vm.tokenize("abaA7b").unwrap();
    assert_eq!(
        toks,
        vec![
            Token::Append { begin: 0, len: 2, rule: 0 },
            Token::Append { begin: 2, len: 1, rule: 1 },
            Token::Skip { begin: 3, len: 1 },
            Token::Append { begin: 4, len: 1, rule: 2 },
            Token::Skip { begin: 5, len: 1 },
        ]
    );
}

#[test]
fn interpreter_empty_text_has_no_tokens() {
    let mut vm = ThompsonInterpreter::new(small_program());
    assert_eq!(vm.tokenize(""), Some(vec![]));
}

#[test]
fn interpreter_skips_a_whole_multibyte_character() {
    let mut vm = ThompsonInterpreter::new(small_program());
    assert_eq!(
        vm.tokenize("a\u{e9}7"),
        Some(vec![
            Token::Append { begin: 0, len: 1, rule: 1 },
            Token::Skip { begin: 1, len: 2 },
            Token::Append { begin: 3, len: 1, rule: 2 },
        ])
    );
}

#[test]
fn interpreter_refuses_an_empty_best_match() {
    // rule 0 matches the empty string only
    let p = Program { insts: vec![Instruction::Match(MatchData { rule_id: 0 })], starts: vec![0] };
    let mut vm = ThompsonInterpreter::new(p);
    assert_eq!(vm.tokenize("x"), None);
}

#[test]
fn interpreter_ends_an_attempt_at_the_end_of_the_text() {
    // "x" then any character: at the end of "x" a thread is still waiting for
    // a character, and the attempt ends there without a match
    let p = Program {
        insts: vec![
            Instruction::Char(CharData { ch: 'x', nocase: false, goto: 1 }),
            Instruction::AnyChar(AnyCharData { goto: 2 }),
            Instruction::Match(MatchData { rule_id: 0 }),
        ],
        starts: vec![0],
    };
    let mut vm = ThompsonInterpreter::new(p);
    assert_eq!(vm.tokenize("x"), Some(vec![Token::Skip { begin: 0, len: 1 }]));
    assert_eq!(vm.tokenize("xy"), Some(vec![Token::Append { begin: 0, len: 2, rule: 0 }]));
}

#[test]
fn interpreter_split_loops_terminate() {
    // a+ as: 0: char a -> 1; 1: split(0, 2); 2: match 0
    let p = Program {
        insts: vec![
            Instruction::Char(CharData { ch: 'a', nocase: false, goto: 1 }),
            Instruction::Split(0, 2),
            Instruction::Match(MatchData { rule_id: 0 }),
        ],
        starts: vec![0],
    };
    let mut vm = ThompsonInterpreter::new(p);
    assert_eq!(
        vm.tokenize("aaab"),
        Some(vec![Token::Append { begin: 0, len: 3, rule: 0 }, Token::Skip { begin: 3, len: 1 }])
    );
}

struct Collect {
    seen: Vec<String>,
}

impl TokenSink for Collect {
    fn append(&mut self, begin: usize, text: &str, rule_id: usize) {
        self.seen.push(format!("{}:{}:{}", begin, text, rule_id));
    }

    fn skip(&mut self, begin: usize, text: &str) {
        self.seen.push(format!("{}:skip:{}", begin, text));
    }
}

#[test]
fn apply_hands_tokens_to_the_sink_in_order() {
    let mut vm = ThompsonInterpreter::new(small_program());
    let mut sink = Collect { seen: vec![] };
    vm.apply("Ab-\u{e9}9", &mut sink);
    assert_eq!(sink.seen, vec!["0:Ab:0", "2:skip:-", "3:skip:\u{e9}", "5:9:2"]);
}

#[test]
fn apply_hands_nothing_where_the_walk_cannot_go_on() {
    // rule 0 matches the empty string only: the best match is empty
    let p = Program { insts: vec![Instruction::Match(MatchData { rule_id: 0 })], starts: vec![0] };
    let mut vm = ThompsonInterpreter::new(p);
    let mut sink = Collect { seen: vec![] };
    vm.apply("x", &mut sink);
    assert!(sink.seen.is_empty());
}
