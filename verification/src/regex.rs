//! Parsing regular expression patterns.
//!
//! The pattern language: `(?i)` at the very start makes the pattern ignore
//! case; `a|b` is alternation; juxtaposition is concatenation; `*`, `+` and
//! `?` repeat the item before them; `( )` groups; `.` matches any character;
//! `[ ]` is a character class of single characters and ranges `a-z`, negated
//! by a leading `^`; `\` makes the next character literal; any other
//! character stands for itself.

use vstd::prelude::*;
use vstd::string::StrSliceExecFns;
use crate::program::{ClassItem, CharClassData};

verus! {

/// A parsed regular expression.
#[derive(Debug)]
pub enum Term {
    Empty,
    Literal(char),
    Any,
    Class(CharClassData),
    Concat(Box<Term>, Box<Term>),
    Alt(Box<Term>, Box<Term>),
    Star(Box<Term>),
    Plus(Box<Term>),
    Opt(Box<Term>),
}

/// A regular expression, as a mathematical value.
pub ghost enum Regex {
    Empty,
    Literal(char),
    Any,
    Class(bool, Seq<ClassItem>),
    Concat(Box<Regex>, Box<Regex>),
    Alt(Box<Regex>, Box<Regex>),
    Star(Box<Regex>),
    Plus(Box<Regex>),
    Opt(Box<Regex>),
}

impl Term {
    /// The expression that the term stands for.
    pub open spec fn model(&self) -> Regex
        decreases self,
    {
        match self {
            Term::Empty => Regex::Empty,
            Term::Literal(c) => Regex::Literal(*c),
            Term::Any => Regex::Any,
            Term::Class(d) => Regex::Class(d.negated, d.items@),
            Term::Concat(a, b) => Regex::Concat(Box::new(a.model()), Box::new(b.model())),
            Term::Alt(a, b) => Regex::Alt(Box::new(a.model()), Box::new(b.model())),
            Term::Star(a) => Regex::Star(Box::new(a.model())),
            Term::Plus(a) => Regex::Plus(Box::new(a.model())),
            Term::Opt(a) => Regex::Opt(Box::new(a.model())),
        }
    }
}

/// The model of an exec parse result.
pub open spec fn result_model(r: Option<(Term, usize)>) -> Option<(Regex, nat)> {
    match r {
        Some((t, j)) => Some((t.model(), j as nat)),
        None => None,
    }
}

/// Sequencing `acc` then `t`, where an empty `acc` is left out.
pub open spec fn join(acc: Regex, t: Regex) -> Regex {
    match acc {
        Regex::Empty => t,
        _ => Regex::Concat(Box::new(acc), Box::new(t)),
    }
}

/// The character at `i` of `s` starts no item (it ends one, or is a
/// repetition operator without operand).
pub open spec fn no_item_starts(c: char) -> bool {
    c == '*' || c == '+' || c == '?' || c == ')' || c == '|'
}

/// How many characters of `s` are left from `i` on.
pub open spec fn remaining(s: Seq<char>, i: nat) -> nat {
    if i <= s.len() {
        (s.len() - i) as nat
    } else {
        0
    }
}

/// One character of a class at `i`: a character, or `\` and the character it
/// makes literal.
pub open spec fn class_char(s: Seq<char>, i: nat) -> Option<(char, nat)> {
    if i >= s.len() {
        None
    } else if s[i as int] == '\\' {
        if i + 1 < s.len() {
            Some((s[i + 1 as int], i + 2))
        } else {
            None
        }
    } else {
        Some((s[i as int], i + 1))
    }
}

/// The items of a class from `i` on, after the items `acc`, up to and past the
/// closing `]`; a class has at least one item.
pub open spec fn class_items(s: Seq<char>, i: nat, acc: Seq<ClassItem>) -> Option<(Seq<ClassItem>, nat)>
    decreases s.len() - i,
{
    if i >= s.len() {
        None
    } else if s[i as int] == ']' && acc.len() > 0 {
        Some((acc, i + 1))
    } else {
        match class_char(s, i) {
            None => None,
            Some((c, j)) => if j + 1 < s.len() && s[j as int] == '-' && s[j + 1 as int] != ']' {
                match class_char(s, j + 1) {
                    None => None,
                    Some((d, k)) => if c <= d {
                        class_items(s, k, acc.push(ClassItem::Range(c, d)))
                    } else {
                        None
                    },
                }
            } else {
                class_items(s, j, acc.push(ClassItem::Single(c)))
            },
        }
    }
}

/// A class body from `i` (just after `[`) on: an optional `^`, then items.
pub open spec fn class_body(s: Seq<char>, i: nat) -> Option<(Regex, nat)> {
    if i < s.len() && s[i as int] == '^' {
        match class_items(s, i + 1, Seq::empty()) {
            Some((items, j)) => Some((Regex::Class(true, items), j)),
            None => None,
        }
    } else {
        match class_items(s, i, Seq::empty()) {
            Some((items, j)) => Some((Regex::Class(false, items), j)),
            None => None,
        }
    }
}

/// An alternation from `i` on: concatenations separated by `|`, grouped to
/// the left.
pub open spec fn alt(s: Seq<char>, i: nat) -> Option<(Regex, nat)>
    decreases remaining(s, i), 6nat,
{
    match concat(s, i) {
        None => None,
        Some((t, j)) => if j >= i {
            alt_rest(s, j, t)
        } else {
            None
        },
    }
}

/// The rest of an alternation from `j` on, after the alternatives `acc`.
pub open spec fn alt_rest(s: Seq<char>, j: nat, acc: Regex) -> Option<(Regex, nat)>
    decreases remaining(s, j), 5nat,
{
    if j < s.len() && s[j as int] == '|' {
        match concat(s, j + 1) {
            None => None,
            Some((t, k)) => if k > j {
                alt_rest(s, k, Regex::Alt(Box::new(acc), Box::new(t)))
            } else {
                None
            },
        }
    } else {
        Some((acc, j))
    }
}

/// A concatenation from `i` on: repeated items up to the end, a `|` or a
/// `)`; none at all is the empty expression.
pub open spec fn concat(s: Seq<char>, i: nat) -> Option<(Regex, nat)>
    decreases remaining(s, i), 4nat,
{
    concat_rest(s, i, Regex::Empty)
}

/// The rest of a concatenation from `j` on, after the items `acc`.
pub open spec fn concat_rest(s: Seq<char>, j: nat, acc: Regex) -> Option<(Regex, nat)>
    decreases remaining(s, j), 3nat,
{
    if j >= s.len() || s[j as int] == '|' || s[j as int] == ')' {
        Some((acc, j))
    } else {
        match repeat(s, j) {
            None => None,
            Some((t, k)) => if k > j {
                concat_rest(s, k, join(acc, t))
            } else {
                None
            },
        }
    }
}

/// An item from `i` on, with the repetition operators that follow it.
pub open spec fn repeat(s: Seq<char>, i: nat) -> Option<(Regex, nat)>
    decreases remaining(s, i), 2nat,
{
    match atom(s, i) {
        None => None,
        Some((a, j)) => if j > i {
            Some(postfix(s, j, a))
        } else {
            None
        },
    }
}

/// Applies the repetition operators from `j` on to `acc`.
pub open spec fn postfix(s: Seq<char>, j: nat, acc: Regex) -> (Regex, nat)
    decreases s.len() - j,
{
    if j < s.len() && s[j as int] == '*' {
        postfix(s, j + 1, Regex::Star(Box::new(acc)))
    } else if j < s.len() && s[j as int] == '+' {
        postfix(s, j + 1, Regex::Plus(Box::new(acc)))
    } else if j < s.len() && s[j as int] == '?' {
        postfix(s, j + 1, Regex::Opt(Box::new(acc)))
    } else {
        (acc, j)
    }
}

/// One item from `i` on: a group, a class, `.`, an escaped character or a
/// plain character.
pub open spec fn atom(s: Seq<char>, i: nat) -> Option<(Regex, nat)>
    decreases remaining(s, i), 0nat,
{
    if i >= s.len() {
        None
    } else {
        let c = s[i as int];
        if c == '(' {
            match alt(s, i + 1) {
                Some((t, j)) => if j < s.len() && s[j as int] == ')' {
                    Some((t, j + 1))
                } else {
                    None
                },
                None => None,
            }
        } else if c == '[' {
            class_body(s, i + 1)
        } else if c == '.' {
            Some((Regex::Any, i + 1))
        } else if c == '\\' {
            if i + 1 < s.len() {
                Some((Regex::Literal(s[i + 1 as int]), i + 2))
            } else {
                None
            }
        } else if no_item_starts(c) {
            None
        } else {
            Some((Regex::Literal(c), i + 1))
        }
    }
}

/// The pattern starts with the flag `(?i)`.
pub open spec fn has_nocase_flag(s: Seq<char>) -> bool {
    s.len() >= 4 && s[0] == '(' && s[1] == '?' && s[2] == 'i' && s[3] == ')'
}

/// What a pattern means: whether it ignores case, and the expression; `None`
/// when the pattern is malformed.
pub open spec fn parse_spec(s: Seq<char>) -> Option<(bool, Regex)> {
    let start: nat = if has_nocase_flag(s) {
        4
    } else {
        0
    };
    match alt(s, start) {
        Some((t, j)) => if j == s.len() {
            Some((has_nocase_flag(s), t))
        } else {
            None
        },
        None => None,
    }
}

/// The model of an exec class-items result.
pub open spec fn items_model(r: Option<(Vec<ClassItem>, usize)>) -> Option<(Seq<ClassItem>, nat)> {
    match r {
        Some((v, j)) => Some((v@, j as nat)),
        None => None,
    }
}

/// The model of an exec class-character result.
pub open spec fn char_model(r: Option<(char, usize)>) -> Option<(char, nat)> {
    match r {
        Some((c, j)) => Some((c, j as nat)),
        None => None,
    }
}

/// The character at `i` of `s`.
fn char_of(s: &[char], i: usize) -> (c: char)
    requires
        i < s@.len(),
    ensures
        c == s@[i as int],
{
    s[i]
}

/// The characters of `text`.
pub fn str_chars(text: &str) -> (v: Vec<char>)
    ensures
        v@ == text@,
{
    let n = text.unicode_len();
    let mut v: Vec<char> = Vec::new();
    let mut i: usize = 0;
    while i < n
        invariant
            n == text@.len(),
            i <= n,
            v@ == text@.take(i as int),
        decreases n - i,
    {
        let c = text.get_char(i);
        v.push(c);
        proof {
            assert(text@.take(i + 1) =~= text@.take(i as int).push(c));
        }
        i += 1;
    }
    proof {
        assert(text@.take(n as int) =~= text@);
    }
    v
}

fn p_class_char(s: &[char], i: usize) -> (r: Option<(char, usize)>)
    ensures
        char_model(r) == class_char(s@, i as nat),
        r matches Some((c, j)) ==> j <= s@.len(),
{
    if i >= s.len() {
        None
    } else if s[i] == '\\' {
        if i + 1 < s.len() {
            Some((s[i + 1], i + 2))
        } else {
            None
        }
    } else {
        Some((s[i], i + 1))
    }
}

fn p_class_items(s: &[char], i: usize, acc: Vec<ClassItem>) -> (r: Option<(Vec<ClassItem>, usize)>)
    ensures
        items_model(r) == class_items(s@, i as nat, acc@),
    decreases s@.len() - i,
{
    if i >= s.len() {
        None
    } else if s[i] == ']' && acc.len() > 0 {
        Some((acc, i + 1))
    } else {
        match p_class_char(s, i) {
            None => None,
            Some((c, j)) => {
                if j < s.len() && j + 1 < s.len() && s[j] == '-' && s[j + 1] != ']' {
                    match p_class_char(s, j + 1) {
                        None => None,
                        Some((d, k)) => {
                            if c <= d {
                                let mut acc = acc;
                                acc.push(ClassItem::Range(c, d));
                                p_class_items(s, k, acc)
                            } else {
                                None
                            }
                        },
                    }
                } else {
                    let mut acc = acc;
                    acc.push(ClassItem::Single(c));
                    p_class_items(s, j, acc)
                }
            },
        }
    }
}

fn p_class_body(s: &[char], i: usize) -> (r: Option<(Term, usize)>)
    ensures
        result_model(r) == class_body(s@, i as nat),
{
    if i < s.len() && s[i] == '^' {
        match p_class_items(s, i + 1, Vec::new()) {
            Some((items, j)) => Some((Term::Class(CharClassData { negated: true, items }), j)),
            None => None,
        }
    } else {
        match p_class_items(s, i, Vec::new()) {
            Some((items, j)) => Some((Term::Class(CharClassData { negated: false, items }), j)),
            None => None,
        }
    }
}

fn p_join(acc: Term, t: Term) -> (r: Term)
    ensures
        r.model() == join(acc.model(), t.model()),
{
    match acc {
        Term::Empty => t,
        _ => Term::Concat(Box::new(acc), Box::new(t)),
    }
}

fn p_alt(s: &[char], i: usize) -> (r: Option<(Term, usize)>)
    ensures
        result_model(r) == alt(s@, i as nat),
    decreases remaining(s@, i as nat), 6nat,
{
    match p_concat(s, i) {
        None => None,
        Some((t, j)) => {
            if j >= i {
                p_alt_rest(s, j, t)
            } else {
                None
            }
        },
    }
}

fn p_alt_rest(s: &[char], j: usize, acc: Term) -> (r: Option<(Term, usize)>)
    ensures
        result_model(r) == alt_rest(s@, j as nat, acc.model()),
    decreases remaining(s@, j as nat), 5nat,
{
    if j < s.len() && s[j] == '|' {
        match p_concat(s, j + 1) {
            None => None,
            Some((t, k)) => {
                if k > j {
                    p_alt_rest(s, k, Term::Alt(Box::new(acc), Box::new(t)))
                } else {
                    None
                }
            },
        }
    } else {
        Some((acc, j))
    }
}

fn p_concat(s: &[char], i: usize) -> (r: Option<(Term, usize)>)
    ensures
        result_model(r) == concat(s@, i as nat),
    decreases remaining(s@, i as nat), 4nat,
{
    p_concat_rest(s, i, Term::Empty)
}

fn p_concat_rest(s: &[char], j: usize, acc: Term) -> (r: Option<(Term, usize)>)
    ensures
        result_model(r) == concat_rest(s@, j as nat, acc.model()),
    decreases remaining(s@, j as nat), 3nat,
{
    if j >= s.len() || s[j] == '|' || s[j] == ')' {
        Some((acc, j))
    } else {
        match p_repeat(s, j) {
            None => None,
            Some((t, k)) => {
                if k > j {
                    p_concat_rest(s, k, p_join(acc, t))
                } else {
                    None
                }
            },
        }
    }
}

fn p_repeat(s: &[char], i: usize) -> (r: Option<(Term, usize)>)
    ensures
        result_model(r) == repeat(s@, i as nat),
    decreases remaining(s@, i as nat), 2nat,
{
    match p_atom(s, i) {
        None => None,
        Some((a, j)) => {
            if j > i {
                Some(p_postfix(s, j, a))
            } else {
                None
            }
        },
    }
}

fn p_postfix(s: &[char], j: usize, acc: Term) -> (r: (Term, usize))
    ensures
        (r.0.model(), r.1 as nat) == postfix(s@, j as nat, acc.model()),
    decreases s@.len() - j,
{
    if j < s.len() && s[j] == '*' {
        p_postfix(s, j + 1, Term::Star(Box::new(acc)))
    } else if j < s.len() && s[j] == '+' {
        p_postfix(s, j + 1, Term::Plus(Box::new(acc)))
    } else if j < s.len() && s[j] == '?' {
        p_postfix(s, j + 1, Term::Opt(Box::new(acc)))
    } else {
        (acc, j)
    }
}

fn p_atom(s: &[char], i: usize) -> (r: Option<(Term, usize)>)
    ensures
        result_model(r) == atom(s@, i as nat),
    decreases remaining(s@, i as nat), 0nat,
{
    if i >= s.len() {
        return None;
    }
    let c = s[i];
    if c == '(' {
        let inner = p_alt(s, i + 1);
        match inner {
            Some((t, j)) => {
                if j < s.len() && s[j] == ')' {
                    return Some((t, j + 1));
                }
                return None;
            },
            None => {
                return None;
            },
        }
    }
    if c == '[' {
        let r = p_class_body(s, i + 1);
        assert(result_model(r) == atom(s@, i as nat));
        return r;
    }
    if c == '.' {
        return Some((Term::Any, i + 1));
    }
    if c == '\\' {
        if i + 1 < s.len() {
            return Some((Term::Literal(char_of(s, i + 1)), i + 2));
        }
        return None;
    }
    if c == '*' || c == '+' || c == '?' || c == ')' || c == '|' {
        return None;
    }
    Some((Term::Literal(char_of(s, i)), i + 1))
}

/// Parses a pattern: whether it ignores case, and its expression; `None`
/// when the pattern is malformed.
pub fn parse(pattern: &str) -> (r: Option<(bool, Term)>)
    ensures
        match r {
            Some((nocase, t)) => parse_spec(pattern@) == Some((nocase, t.model())),
            None => parse_spec(pattern@) is None,
        },
{
    let chars = str_chars(pattern);
    let s = chars.as_slice();
    let nocase = s.len() >= 4 && s[0] == '(' && s[1] == '?' && s[2] == 'i' && s[3] == ')';
    let start: usize = if nocase {
        4
    } else {
        0
    };
    match p_alt(s, start) {
        Some((t, j)) => {
            if j == s.len() {
                Some((nocase, t))
            } else {
                None
            }
        },
        None => None,
    }
}

} // verus!
