//! Regular expression based pattern-action tokenizers.

use vstd::prelude::*;
use crate::compile::{RegexTranslator, insts_model, rule_code, entry, size, Inst, lemma_emit_shape};
use crate::language::{rule_placed, lemma_rule_placed_kept};
use crate::soundness::{Rule, rules_placed, rule_entry, lemma_text_tokens_sound, token_matches_rule};
use crate::regex::{
    parse, parse_spec, Regex, class_items, class_body, atom, repeat, postfix, concat_rest, alt, concat,
    alt_rest,
};
use crate::reinterp::{ThompsonInterpreter, TokenSink, Token, tokens_of, token_in, str_slice, handed};
use crate::node_label::{decimal, usize_to_string};
use vstd::string::StringExecFns;
use vstd::string::StringSliceAdditionalSpecFns;
use crate::program::{Program, ClassItem};
use crate::match_record::MatchRecord;
use crate::node_label::NodeLabel;
use crate::document::AnnotatedDocument;
use crate::reinterp::{lemma_tokens_tile, tokens_from};
use vstd::utf8::{encode_utf8, decode_utf8, encode_utf8_decode_utf8};

verus! {

/// A regular expression based pattern-action tokenizer.
///
/// The `interpreter` is a Thompson VM partially applied to a given program:
/// the program it interprets is fixed during construction.
pub struct RegexTokenizer {
    interpreter: ThompsonInterpreter,
}

impl RegexTokenizer {
    /// The program of the tokenizer.
    pub closed spec fn program(&self) -> Program {
        self.interpreter.program()
    }

    /// The matches that the interpreter's last match attempt found.
    pub closed spec fn found(&self) -> Seq<MatchRecord> {
        self.interpreter.found()
    }

    /// Hands the tokens of `text`, in order, to `sink` (see
    /// `ThompsonInterpreter::apply`).
    pub fn run<S: TokenSink>(&mut self, text: &str, sink: &mut S)
        requires
            old(self).program().wf(),
        ensures
            final(self).program() == old(self).program(),
            tokens_of(old(self).program(), text) is Some ==> final(sink).received() == old(sink).received()
                + handed(tokens_of(old(self).program(), text)->Some_0, text.spec_bytes()),
            tokens_of(old(self).program(), text) is None ==> final(sink).received() == old(sink).received(),
    {
        self.interpreter.apply(text, sink);
    }

    /// The tokens of `text` (see `ThompsonInterpreter::tokenize`).
    pub fn tokenize(&mut self, text: &str) -> (r: Option<Vec<Token>>)
        requires
            old(self).program().wf(),
        ensures
            final(self).program() == old(self).program(),
            r is Some <==> tokens_of(old(self).program(), text) is Some,
            r matches Some(v) ==> v@ == tokens_of(old(self).program(), text)->Some_0,
            r matches Some(v) ==> forall|i: int| 0 <= i < v@.len() ==> token_in(#[trigger] v@[i], text.spec_bytes()),
    {
        self.interpreter.tokenize(text)
    }
}

/// Collects rules, numbered in the order in which they are added, into one
/// program.
pub struct TokenizerBuilder {
    compiler: RegexTranslator,
    rule_nbr: usize,
    rules: Ghost<Seq<Rule>>,
}

impl TokenizerBuilder {
    /// The program compiled so far.
    pub closed spec fn program(&self) -> Program {
        self.compiler.prog
    }

    /// The number that the next rule will get.
    pub closed spec fn next_rule(&self) -> nat {
        self.rule_nbr as nat
    }

    /// The rules added so far, in order.
    pub closed spec fn rules(&self) -> Seq<Rule> {
        self.rules@
    }

    /// A builder without rules.
    pub fn new() -> (b: TokenizerBuilder)
        ensures
            b.program().wf(),
            b.program().insts@.len() == 0,
            b.program().starts@.len() == 0,
            b.next_rule() == 0,
            b.rules() == Seq::<Rule>::empty(),
            rules_placed(b.program(), b.rules()),
    {
        TokenizerBuilder { compiler: RegexTranslator::new(), rule_nbr: 0, rules: Ghost(Seq::empty()) }
    }

    /// Compiles `pattern` as the next rule and adds it to the program.
    pub fn add_rule(self, pattern: &str) -> (b: TokenizerBuilder)
        requires
            self.program().wf(),
            parse_spec(pattern@) is Some,
            self.program().insts@.len() + size(parse_spec(pattern@)->Some_0.1) + 1 < usize::MAX,
            self.next_rule() + 1 < usize::MAX,
            rules_placed(self.program(), self.rules()),
        ensures
            b.program().wf(),
            b.next_rule() == self.next_rule() + 1,
            insts_model(b.program().insts@) == insts_model(self.program().insts@) + rule_code(
                parse_spec(pattern@)->Some_0.1,
                self.program().insts@.len(),
                parse_spec(pattern@)->Some_0.0,
                self.next_rule(),
            ),
            b.program().starts@ == self.program().starts@.push(
                entry(
                    parse_spec(pattern@)->Some_0.1,
                    self.program().insts@.len(),
                    self.program().insts@.len() + size(parse_spec(pattern@)->Some_0.1),
                ) as usize,
            ),
            rule_placed(
                b.program(),
                parse_spec(pattern@)->Some_0.1,
                self.program().insts@.len() as nat,
                parse_spec(pattern@)->Some_0.0,
                self.next_rule() as usize,
            ),
            forall|r: Regex, base: nat, nocase: bool, rule: usize|
                rule_placed(self.program(), r, base, nocase, rule) ==> #[trigger] rule_placed(
                    b.program(),
                    r,
                    base,
                    nocase,
                    rule,
                ),
            b.rules() == self.rules().push(
                Rule {
                    regex: parse_spec(pattern@)->Some_0.1,
                    base: self.program().insts@.len() as nat,
                    nocase: parse_spec(pattern@)->Some_0.0,
                    number: self.next_rule() as usize,
                },
            ),
            rules_placed(b.program(), b.rules()),
    {
        let ghost before = self.program();
        let ghost old_rules = self.rules@;
        let ghost nr = self.rule_nbr;
        let mut b = self;
        match parse(pattern) {
            Some((nocase, tree)) => {
                b.compiler.compile(nocase, &tree, b.rule_nbr);
            },
            None => {},
        }
        b.rule_nbr = b.rule_nbr + 1;
        b.rules = Ghost(
            old_rules.push(
                Rule {
                    regex: parse_spec(pattern@)->Some_0.1,
                    base: before.insts@.len() as nat,
                    nocase: parse_spec(pattern@)->Some_0.0,
                    number: nr,
                },
            ),
        );
        proof {
            let (nocase, r) = parse_spec(pattern@)->Some_0;
            let base = before.insts@.len();
            let q = b.program();
            let code = rule_code(r, base, nocase, nr as nat);
            lemma_emit_shape(r, base, base + size(r), nocase, base + size(r) + 1);
            assert(insts_model(q.insts@).len() == q.insts@.len());
            assert(insts_model(q.insts@).subrange(base as int, (base + size(r) + 1) as int) =~= code);
            let e = entry(r, base, base + size(r)) as usize;
            assert(q.starts@[q.starts@.len() - 1] == e);
            assert(q.start_set().contains(e));
            assert forall|x: usize| before.start_set().contains(x) implies q.start_set().contains(x) by {
                let i = choose|i: int| 0 <= i < before.starts@.len() && before.starts@[i] == x;
                assert(q.starts@[i] == x);
            }
            assert forall|r2: Regex, base2: nat, nc2: bool, rule2: usize|
                rule_placed(before, r2, base2, nc2, rule2) implies #[trigger] rule_placed(q, r2, base2, nc2, rule2) by {
                lemma_rule_placed_kept(before, q, code, r2, base2, nc2, rule2);
            }
            let added = Rule { regex: r, base: base as nat, nocase: nocase, number: nr };
            let rs = b.rules@;
            assert(rs == old_rules.push(added));
            assert forall|i: int| 0 <= i < rs.len() implies #[trigger] rule_placed(
                q,
                rs[i].regex,
                rs[i].base,
                rs[i].nocase,
                rs[i].number,
            ) by {
                if i < old_rules.len() {
                    assert(rs[i] == old_rules[i]);
                    assert(rule_placed(before, old_rules[i].regex, old_rules[i].base, old_rules[i].nocase, old_rules[i].number));
                }
            }
            assert forall|a: usize| #[trigger] q.start_set().contains(a) implies exists|i: int|
                0 <= i < rs.len() && a == rule_entry(rs[i]) as usize by {
                let k = choose|k: int| 0 <= k < q.starts@.len() && q.starts@[k] == a;
                if k < before.starts@.len() {
                    assert(before.starts@[k] == a);
                    assert(before.start_set().contains(a));
                    let i = choose|i: int| 0 <= i < old_rules.len() && a == rule_entry(old_rules[i]) as usize;
                    assert(rs[i] == old_rules[i]);
                } else {
                    assert(rs[old_rules.len() as int] == added);
                }
            }
        }
        b
    }

    /// The tokenizer that runs the program compiled so far.
    pub fn build(self) -> (t: RegexTokenizer)
        ensures
            t.program() == self.program(),
            t.found() == Seq::<MatchRecord>::empty(),
    {
        RegexTokenizer { interpreter: ThompsonInterpreter::new(self.compiler.prog) }
    }
}

} // verus!

verus! {

/// The English word rule: one or more letters, of either case.
pub open spec fn word_regex() -> Regex {
    Regex::Plus(Box::new(Regex::Class(false, seq![ClassItem::Range('a', 'z')])))
}

/// The English number rule: digits, commas and dots, ending in a digit.
pub open spec fn number_regex() -> Regex {
    Regex::Concat(
        Box::new(Regex::Star(Box::new(Regex::Class(false, seq![ClassItem::Range('0', '9'), ClassItem::Single(','), ClassItem::Single('.')])))),
        Box::new(Regex::Plus(Box::new(Regex::Class(false, seq![ClassItem::Range('0', '9')])))),
    )
}

/// The English punctuation rule: one of `.`, `,`, `?` and `!`.
pub open spec fn punct_regex() -> Regex {
    Regex::Class(false, seq![ClassItem::Single('.'), ClassItem::Single(','), ClassItem::Single('?'), ClassItem::Single('!')])
}

/// What the English word pattern means.
proof fn lemma_word_pattern()
    ensures
        parse_spec("(?i)[a-z]+"@) == Some((true, word_regex())),
{
    reveal_strlit("(?i)[a-z]+");
    reveal_with_fuel(crate::regex::class_items, 3);
    reveal_with_fuel(crate::regex::postfix, 3);
    reveal_with_fuel(crate::regex::concat_rest, 3);
    reveal_with_fuel(crate::regex::alt_rest, 2);
}

/// What the English number pattern means.
proof fn lemma_number_pattern()
    ensures
        parse_spec("[0-9,.]*[0-9]+"@) == Some((false, number_regex())),
{
    let s = "[0-9,.]*[0-9]+"@;
    reveal_strlit("[0-9,.]*[0-9]+");
    assert(s.len() == 14);
    let c1 = seq![ClassItem::Range('0', '9'), ClassItem::Single(','), ClassItem::Single('.')];
    let c2 = seq![ClassItem::Range('0', '9')];
    assert(class_items(s, 6, c1) == Some((c1, 7nat)));
    assert(class_items(s, 5, seq![ClassItem::Range('0', '9'), ClassItem::Single(',')]) == Some((c1, 7nat))) by {
        assert(seq![ClassItem::Range('0', '9'), ClassItem::Single(',')].push(ClassItem::Single('.')) =~= c1);
    }
    assert(class_items(s, 4, seq![ClassItem::Range('0', '9')]) == Some((c1, 7nat))) by {
        assert(seq![ClassItem::Range('0', '9')].push(ClassItem::Single(',')) =~= seq![ClassItem::Range('0', '9'), ClassItem::Single(',')]);
    }
    assert(class_items(s, 1, Seq::empty()) == Some((c1, 7nat))) by {
        assert(Seq::<ClassItem>::empty().push(ClassItem::Range('0', '9')) =~= seq![ClassItem::Range('0', '9')]);
    }
    assert(class_items(s, 1, Seq::empty()) == Some((c1, 7nat)));
    assert(class_body(s, 1) == Some((Regex::Class(false, c1), 7nat)));
    assert(atom(s, 0) == Some((Regex::Class(false, c1), 7nat)));
    let star = Regex::Star(Box::new(Regex::Class(false, c1)));
    assert(postfix(s, 8, star) == (star, 8nat));
    assert(postfix(s, 7, Regex::Class(false, c1)) == (star, 8nat));
    assert(repeat(s, 0) == Some((star, 8nat)));
    assert(class_items(s, 12, c2) == Some((c2, 13nat)));
    assert(class_items(s, 9, Seq::empty()) == Some((c2, 13nat))) by {
        assert(Seq::<ClassItem>::empty().push(ClassItem::Range('0', '9')) =~= c2);
    }
    assert(atom(s, 8) == Some((Regex::Class(false, c2), 13nat)));
    let plus = Regex::Plus(Box::new(Regex::Class(false, c2)));
    assert(postfix(s, 14, plus) == (plus, 14nat));
    assert(postfix(s, 13, Regex::Class(false, c2)) == (plus, 14nat));
    assert(repeat(s, 8) == Some((plus, 14nat)));
    assert(concat_rest(s, 14, number_regex()) == Some((number_regex(), 14nat)));
    assert(concat_rest(s, 8, star) == Some((number_regex(), 14nat)));
    assert(concat_rest(s, 0, Regex::Empty) == Some((number_regex(), 14nat)));
    assert(concat(s, 0) == Some((number_regex(), 14nat)));
    assert(alt_rest(s, 14, number_regex()) == Some((number_regex(), 14nat)));
    assert(alt(s, 0) == Some((number_regex(), 14nat)));
}

/// What the English punctuation pattern means.
proof fn lemma_punct_pattern()
    ensures
        parse_spec("[.,?!]"@) == Some((false, punct_regex())),
{
    let s = "[.,?!]"@;
    reveal_strlit("[.,?!]");
    assert(s.len() == 6);
    let items = seq![ClassItem::Single('.'), ClassItem::Single(','), ClassItem::Single('?'), ClassItem::Single('!')];
    assert(class_items(s, 5, items) == Some((items, 6nat)));
    assert(class_items(s, 4, items.take(3)) == Some((items, 6nat))) by {
        assert(items.take(3).push(ClassItem::Single('!')) =~= items);
    }
    assert(class_items(s, 3, items.take(2)) == Some((items, 6nat))) by {
        assert(items.take(2).push(ClassItem::Single('?')) =~= items.take(3));
    }
    assert(class_items(s, 2, items.take(1)) == Some((items, 6nat))) by {
        assert(items.take(1).push(ClassItem::Single(',')) =~= items.take(2));
    }
    assert(class_items(s, 1, Seq::empty()) == Some((items, 6nat))) by {
        assert(Seq::<ClassItem>::empty().push(ClassItem::Single('.')) =~= items.take(1));
    }
    assert(atom(s, 0) == Some((punct_regex(), 6nat)));
    assert(repeat(s, 0) == Some((punct_regex(), 6nat)));
    assert(concat_rest(s, 6, punct_regex()) == Some((punct_regex(), 6nat)));
    assert(concat_rest(s, 0, Regex::Empty) == Some((punct_regex(), 6nat)));
    assert(alt(s, 0) == Some((punct_regex(), 6nat)));
}

/// The code of the English tokenizer: the word rule (0), the number rule (1)
/// and the punctuation rule (2), one after another.
pub open spec fn english_code() -> Seq<Inst> {
    rule_code(word_regex(), 0, true, 0) + rule_code(number_regex(), 3, false, 1) + rule_code(punct_regex(), 8, false, 2)
}

/// The rules of the English tokenizer.
pub open spec fn english_rules() -> Seq<Rule> {
    seq![
        Rule { regex: word_regex(), base: 0, nocase: true, number: 0 },
        Rule { regex: number_regex(), base: 3, nocase: false, number: 1 },
        Rule { regex: punct_regex(), base: 8, nocase: false, number: 2 },
    ]
}

/// The entry points of the English tokenizer, one per rule.
pub open spec fn english_starts() -> Seq<usize> {
    seq![
        entry(word_regex(), 0, 2) as usize,
        entry(number_regex(), 3, 7) as usize,
        entry(punct_regex(), 8, 9) as usize,
    ]
}

/// A tokenizer for ordinary English token types: words, numbers and
/// punctuation.
pub struct EnglishTokenizer {
    matcher: RegexTokenizer,
}

/// The span and rule of each token that a rule made among `ts`, in order.
pub open spec fn token_spans(ts: Seq<Token>) -> Seq<(usize, usize, usize)>
    decreases ts.len(),
{
    if ts.len() == 0 {
        Seq::empty()
    } else {
        let rest = token_spans(ts.drop_last());
        match ts.last() {
            Token::Append { begin, len, rule } => rest.push((begin, (begin + len) as usize, rule)),
            Token::Skip { .. } => rest,
        }
    }
}

/// The attributes of the label of a token of rule `rule`: its token type.
pub open spec fn token_attrs(rule: usize) -> Map<Seq<char>, Seq<char>> {
    Map::<Seq<char>, Seq<char>>::empty().insert("toktype"@, kind_name(rule))
}

/// `trees` is `before` followed by one label per token of `spans`, with the
/// token's span and type.
pub open spec fn tokens_appended(
    trees: Seq<NodeLabel>,
    before: Seq<NodeLabel>,
    spans: Seq<(usize, usize, usize)>,
) -> bool {
    &&& trees.len() == before.len() + spans.len()
    &&& forall|j: int| 0 <= j < before.len() ==> trees[j] == before[j]
    &&& forall|k: int| 0 <= k < spans.len() ==> {
        &&& (#[trigger] trees[before.len() + k]).span() == Some((spans[k].0, spans[k].1))
        &&& trees[before.len() + k].sym_vals() == token_attrs(spans[k].2)
        &&& trees[before.len() + k].wf()
    }
}

impl EnglishTokenizer {
    /// Well-formed: its program is made of the three English rules.
    pub closed spec fn wf(&self) -> bool {
        &&& self.matcher.program().wf()
        &&& rules_placed(self.matcher.program(), english_rules())
    }

    /// Tokenizes the text of `doc`, and adds to its trees a node for each
    /// token that a rule made, with the token's span and the attribute
    /// `toktype` set to `WORD`, `NUMBER` or `PUNCT` after its rule.
    ///
    /// Returns the tokens, or `None` (leaving `doc` as it was) when the text
    /// cannot be tokenized (see `tokens_from`).
    pub fn apply_to(&mut self, doc: &mut AnnotatedDocument) -> (r: Option<Vec<Token>>)
        requires
            old(self).wf(),
            old(doc).trees().wf(),
            old(doc).trees()@.len() + encode_utf8(old(doc).text()).len() + 2 < usize::MAX,
        ensures
            final(self).program() == old(self).program(),
            final(self).wf(),
            final(doc).text() == old(doc).text(),
            final(doc).trees().wf(),
            r is Some <==> tokens_from(old(self).program(), encode_utf8(old(doc).text()), 0) is Some,
            r is None ==> final(doc).trees()@ == old(doc).trees()@,
            r matches Some(ts) ==> {
                &&& ts@ == tokens_from(old(self).program(), encode_utf8(old(doc).text()), 0)->Some_0
                &&& forall|k: int| 0 <= k < ts@.len() ==> (#[trigger] ts@[k] matches Token::Append { rule, .. }
                    ==> rule < 3)
                &&& tokens_appended(final(doc).trees()@, old(doc).trees()@, token_spans(ts@))
            },
    {
        let ghost before = doc.trees()@;
        let ghost p = self.matcher.program();
        let text = doc.get_text();
        let n = text.as_bytes().len();
        let toks = match self.matcher.tokenize(text) {
            None => {
                return None;
            },
            Some(toks) => toks,
        };
        proof {
            lemma_tokens_tile(p, encode_utf8(doc.text()), 0);
            lemma_text_tokens_sound(p, english_rules(), text);
            assert forall|k: int| 0 <= k < toks@.len() implies (#[trigger] toks@[k] matches Token::Append { rule, .. }
                ==> rule < 3) by {
                assert(token_matches_rule(english_rules(), text.spec_bytes(), toks@[k]));
            }
        }
        let mut i: usize = 0;
        while i < toks.len()
            invariant
                i <= toks@.len(),
                toks@.len() <= n,
                n == encode_utf8(doc.text()).len(),
                forall|k: int| 0 <= k < toks@.len() ==> token_in(#[trigger] toks@[k], encode_utf8(doc.text())),
                before.len() + n + 2 < usize::MAX,
                doc.trees().wf(),
                doc.text() == old(doc).text(),
                tokens_appended(doc.trees()@, before, token_spans(toks@.take(i as int))),
                token_spans(toks@.take(i as int)).len() <= i,
            decreases toks@.len() - i,
        {
            let ghost ws = token_spans(toks@.take(i as int));
            proof {
                assert(token_in(toks@[i as int], encode_utf8(doc.text())));
                assert(toks@.take(i + 1).drop_last() =~= toks@.take(i as int));
            }
            match toks[i] {
                Token::Append { begin, len, rule } => {
                    let end = begin + len;
                    let kind = kind_string(rule);
                    let mut label = NodeLabel::new();
                    label.set_span(begin, end);
                    label.set_sym_val("toktype", kind.as_str());
                    proof {
                        reveal_strlit("toktype");
                        assert(label.sym_vals() =~= token_attrs(rule));
                    }
                    let ghost trees_before = doc.trees()@;
                    doc.get_trees_mut().push_back(label);
                    proof {
                        assert(token_spans(toks@.take(i + 1)) == ws.push((begin, (begin + len) as usize, rule)));
                        assert(end == (begin + len) as usize);
                        let ws1 = token_spans(toks@.take(i + 1));
                        assert forall|k: int| 0 <= k < ws1.len() implies {
                            &&& (#[trigger] doc.trees()@[before.len() + k]).span() == Some((ws1[k].0, ws1[k].1))
                            &&& doc.trees()@[before.len() + k].sym_vals() == token_attrs(ws1[k].2)
                            &&& doc.trees()@[before.len() + k].wf()
                        } by {
                            if k < ws.len() {
                                assert(doc.trees()@[before.len() + k] == trees_before[before.len() + k]);
                            }
                        }
                    }
                },
                Token::Skip { .. } => {},
            }
            i += 1;
        }
        proof {
            assert(toks@.take(toks@.len() as int) =~= toks@);
        }
        Some(toks)
    }

    /// The program of the tokenizer.
    pub closed spec fn program(&self) -> Program {
        self.matcher.program()
    }

    /// The matches that the last match attempt found.
    pub closed spec fn found(&self) -> Seq<MatchRecord> {
        self.matcher.found()
    }

    /// Compiles the English rules: `(?i)[a-z]+` (words), `[0-9,.]*[0-9]+`
    /// (numbers) and `[.,?!]` (punctuation).
    pub fn new() -> (t: EnglishTokenizer)
        ensures
            t.program().wf(),
            insts_model(t.program().insts@) == english_code(),
            t.program().starts@ == english_starts(),
            rule_placed(t.program(), word_regex(), 0, true, 0),
            rule_placed(t.program(), number_regex(), 3, false, 1),
            rule_placed(t.program(), punct_regex(), 8, false, 2),
            rules_placed(t.program(), english_rules()),
            t.wf(),
            t.found() == Seq::<MatchRecord>::empty(),
    {
        proof {
            lemma_word_pattern();
            lemma_number_pattern();
            lemma_punct_pattern();
        }
        proof {
            reveal_with_fuel(size, 4);
        }
        assert(size(word_regex()) == 2);
        assert(size(number_regex()) == 4);
        assert(size(punct_regex()) == 1);
        let b = TokenizerBuilder::new();
        let b = b.add_rule("(?i)[a-z]+");
        assert(b.program().insts@.len() == 3) by {
            lemma_emit_shape(word_regex(), 0, 2, true, 3);
            assert(insts_model(b.program().insts@).len() == b.program().insts@.len());
        }
        let b = b.add_rule("[0-9,.]*[0-9]+");
        assert(b.program().insts@.len() == 8) by {
            lemma_emit_shape(number_regex(), 3, 7, false, 8);
            assert(insts_model(b.program().insts@).len() == b.program().insts@.len());
        }
        let b = b.add_rule("[.,?!]");
        proof {
            assert(b.rules() =~= english_rules());
            assert(insts_model(b.program().insts@) =~= english_code());
            assert(b.program().starts@ =~= english_starts());
        }
        EnglishTokenizer { matcher: b.build() }
    }
}

} // verus!

verus! {

/// The name of the token type of rule `rule` of the English tokenizer.
pub open spec fn kind_name(rule: usize) -> Seq<char> {
    if rule == 0 {
        "WORD"@
    } else if rule == 1 {
        "NUMBER"@
    } else {
        "PUNCT"@
    }
}

/// The name of the token type of rule `rule`.
fn kind_string(rule: usize) -> (s: String)
    ensures
        s@ == kind_name(rule),
{
    if rule == 0 {
        String::from_str("WORD")
    } else if rule == 1 {
        String::from_str("NUMBER")
    } else {
        String::from_str("PUNCT")
    }
}

/// The text between bytes `a` and `b` of a UTF-8 text.
pub open spec fn piece(bytes: Seq<u8>, a: nat, b: nat) -> Seq<char> {
    decode_utf8(bytes.subrange(a as int, b as int))
}

/// The line that the English tokenizer reports for token `t` of `text`.
pub open spec fn english_line(text: &str, t: Token) -> Seq<char> {
    match t {
        Token::Append { begin, len, rule } => kind_name(rule) + " ["@ + piece(text.spec_bytes(), begin as nat, (begin + len) as nat)
            + "] at "@ + decimal(begin as nat),
        Token::Skip { begin, len } => "No rule matched at pos "@ + decimal(begin as nat) + " ('"@ + piece(
            text.spec_bytes(),
            begin as nat,
            (begin + len) as nat,
        ) + "')"@,
    }
}

/// The characters of a slice of `text` made by `str_slice`.
proof fn lemma_slice_chars(text: &str, part: &str, a: nat, b: nat)
    requires
        a <= b <= text.spec_bytes().len(),
        part.spec_bytes() == text.spec_bytes().subrange(a as int, b as int),
    ensures
        part@ == piece(text.spec_bytes(), a, b),
{
    encode_utf8_decode_utf8(part@);
}

impl EnglishTokenizer {
    /// The line that reports the token `t` of `text`: for a match, its type,
    /// text and position; for a skipped character, its position and text.
    pub fn token_line(&self, text: &str, t: Token) -> (line: String)
        requires
            token_in(t, text.spec_bytes()),
            t matches Token::Append { rule, .. } ==> rule < 3,
        ensures
            line@ == english_line(text, t),
    {
        proof {
            reveal_strlit(" [");
            reveal_strlit("] at ");
            reveal_strlit("No rule matched at pos ");
            reveal_strlit(" ('");
            reveal_strlit("')");
        }
        let total = text.as_bytes().len();
        assert(total == text.spec_bytes().len());
        match t {
            Token::Append { begin, len, rule } => {
                let part = str_slice(text, begin, begin + len);
                proof {
                    lemma_slice_chars(text, part, begin as nat, (begin + len) as nat);
                }
                let mut line = kind_string(rule);
                line.append(" [");
                line.append(part);
                line.append("] at ");
                let pos = usize_to_string(begin);
                line.append(pos.as_str());
                line
            },
            Token::Skip { begin, len } => {
                let part = str_slice(text, begin, begin + len);
                proof {
                    lemma_slice_chars(text, part, begin as nat, (begin + len) as nat);
                }
                let mut line = String::from_str("No rule matched at pos ");
                let pos = usize_to_string(begin);
                line.append(pos.as_str());
                line.append(" ('");
                line.append(part);
                line.append("')");
                line
            },
        }
    }
}

/// Stub actions for the three English token types, which only report the
/// tokens they are given.
pub struct DummyTokenizerRules;

impl DummyTokenizerRules {
    /// The report of a token with text `text` that matched rule #`rule_id`:
    /// its type and text. Rules other than 0, 1 and 2 are not recognized.
    pub fn append_line(&self, text: &str, rule_id: usize) -> (line: String)
        requires
            rule_id < 3,
        ensures
            line@ == kind_name(rule_id) + " ["@ + text@ + "]"@,
    {
        proof {
            reveal_strlit(" [");
            reveal_strlit("]");
        }
        let mut line = kind_string(rule_id);
        line.append(" [");
        line.append(text);
        line.append("]");
        line
    }

    /// The report of a character at `begin` that no rule matched.
    pub fn skip_line(&self, begin: usize) -> (line: String)
        ensures
            line@ == "No rule matched at pos "@ + decimal(begin as nat),
    {
        let mut line = String::from_str("No rule matched at pos ");
        let pos = usize_to_string(begin);
        line.append(pos.as_str());
        line
    }
}

} // verus!
