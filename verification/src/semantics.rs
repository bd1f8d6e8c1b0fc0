//! What a program means: which instructions a set of threads reaches through
//! `Split`s, where the threads go on reading a character, which rules they
//! report, and what a whole match attempt from one text position reports.

use vstd::prelude::*;
use vstd::utf8::*;
use crate::program::{CharData, CharClassInst, Instruction, Program, class_matches};
use crate::match_record::MatchRecord;

verus! {

/// The lowercase mapping of `c`, as std's `char::to_lowercase` yields it.
pub uninterp spec fn lowercase(c: char) -> Seq<char>;

/// The lowercase of an ASCII character: `A` to `Z` become `a` to `z`, the
/// others stay as they are.
pub open spec fn ascii_lower(c: char) -> char {
    if 'A' <= c && c <= 'Z' {
        ((c as u32) + 32) as char
    } else {
        c
    }
}

/// Calls `char::to_lowercase` and collects what it yields.
///
/// The contract names the result `lowercase(c)` and states what std's
/// documentation promises of it: the mapping yields one or more `char`s, and
/// (as Unicode's case mapping, which std follows, has it) an ASCII character
/// maps to the single character that `char::to_ascii_lowercase` gives.
#[verifier::external_body]
pub(crate) fn to_lowercase(c: char) -> (s: String)
    ensures
        s@ == lowercase(c),
        s@.len() >= 1,
        (c as u32) < 128 ==> s@ == seq![ascii_lower(c)],
{
    c.to_lowercase().collect::<String>()
}

/// A `Char` instruction accepts `ch`: the very character, or, ignoring case,
/// one with the same lowercase mapping.
pub open spec fn char_accepts(d: CharData, ch: char) -> bool {
    d.ch == ch || (d.nocase && lowercase(d.ch) == lowercase(ch))
}

/// A `CharClass` instruction accepts `ch`: the class matches it, or, ignoring
/// case, matches the first character of its lowercase mapping.
pub open spec fn class_accepts(d: CharClassInst, ch: char) -> bool {
    class_matches(d.data, ch) || (d.nocase && class_matches(d.data, lowercase(ch)[0]))
}

/// A thread at `inst` that reads `ch` goes on at `t`.
pub open spec fn consumes(inst: Instruction, ch: char, t: usize) -> bool {
    match inst {
        Instruction::Char(d) => char_accepts(d, ch) && t == d.goto,
        Instruction::AnyChar(d) => t == d.goto,
        Instruction::CharClass(d) => class_accepts(d, ch) && t == d.goto,
        Instruction::Match(_) => false,
        Instruction::Split(_, _) => false,
    }
}

/// The instruction at `a` is a `Split` with `b` among its targets.
pub open spec fn split_edge(p: Program, a: usize, b: usize) -> bool {
    &&& a < p.insts@.len()
    &&& match p.insts@[a as int] {
        Instruction::Split(l1, l2) => b == l1 || b == l2,
        _ => false,
    }
}

/// `path` is a nonempty walk along `Split` targets.
pub open spec fn split_path(p: Program, path: Seq<usize>) -> bool {
    &&& path.len() >= 1
    &&& forall|i: int| 0 <= i < path.len() - 1 ==> split_edge(p, #[trigger] path[i], path[i + 1])
}

/// The epsilon closure of `threads`: every address that `Split`s lead to from
/// one of them, themselves included.
pub open spec fn closure(p: Program, threads: Set<usize>) -> Set<usize> {
    Set::new(
        |b: usize|
            exists|path: Seq<usize>| #[trigger] split_path(p, path) && threads.contains(path[0]) && path.last() == b,
    )
}

/// Where the threads at the addresses in `c` go on after reading `ch`.
pub open spec fn step(p: Program, c: Set<usize>, ch: char) -> Set<usize> {
    Set::new(
        |t: usize|
            exists|pc: usize|
                c.contains(pc) && pc < p.insts@.len() && #[trigger] consumes(p.insts@[pc as int], ch, t),
    )
}

/// The address `pc` holds a `Match` instruction for rule `r`.
pub open spec fn match_at(p: Program, pc: usize, r: usize) -> bool {
    &&& pc < p.insts@.len()
    &&& p.insts@[pc as int] matches Instruction::Match(d) && d.rule_id == r
}

/// The matches that the threads at the addresses in `c` report when `len`
/// bytes have been read.
pub open spec fn records_at(p: Program, c: Set<usize>, len: nat) -> Set<MatchRecord> {
    Set::new(
        |m: MatchRecord| m.len == len && exists|pc: usize| c.contains(pc) && #[trigger] match_at(p, pc, m.rule),
    )
}

/// All the matches that a match attempt reports, when its threads stand at
/// `threads` with `off` bytes read and the bytes `s` still to read.
///
/// The attempt ends when no thread is left or the text runs out; there is no
/// result (`None`) only where the text is not valid UTF-8.
pub open spec fn scan(p: Program, s: Seq<u8>, off: nat, threads: Set<usize>) -> Option<Set<MatchRecord>>
    decreases s.len(),
{
    if threads.is_empty() {
        Some(Set::empty())
    } else {
        let c = closure(p, threads);
        let here = records_at(p, c, off);
        if s.len() == 0 {
            Some(here)
        } else if !valid_first_scalar(s) {
            None
        } else {
            let w = length_of_first_scalar(s);
            let ch = decode_first_scalar(s) as char;
            match scan(p, s.subrange(w, s.len() as int), off + w as nat, step(p, c, ch)) {
                Some(rest) => Some(here.union(rest)),
                None => None,
            }
        }
    }
}

/// The threads themselves are in their closure.
pub proof fn lemma_closure_contains(p: Program, threads: Set<usize>, a: usize)
    requires
        threads.contains(a),
    ensures
        closure(p, threads).contains(a),
{
    let path = seq![a];
    assert(split_path(p, path));
}

/// The closure is closed under `Split` targets.
pub proof fn lemma_closure_extend(p: Program, threads: Set<usize>, x: usize, y: usize)
    requires
        closure(p, threads).contains(x),
        split_edge(p, x, y),
    ensures
        closure(p, threads).contains(y),
{
    let path = choose|path: Seq<usize>| #[trigger] split_path(p, path) && threads.contains(path[0]) && path.last() == x;
    let longer = path.push(y);
    assert forall|i: int| 0 <= i < longer.len() - 1 implies split_edge(p, #[trigger] longer[i], longer[i + 1]) by {
        if i < path.len() - 1 {
            assert(longer[i] == path[i] && longer[i + 1] == path[i + 1]);
        }
    }
    assert(split_path(p, longer));
    assert(longer[0] == path[0]);
}

/// Any set that holds the threads and is closed under `Split` targets holds
/// their whole closure.
pub proof fn lemma_closure_least(p: Program, threads: Set<usize>, s: Set<usize>)
    requires
        forall|a: usize| threads.contains(a) ==> s.contains(a),
        forall|a: usize, b: usize| s.contains(a) && split_edge(p, a, b) ==> s.contains(b),
    ensures
        closure(p, threads).subset_of(s),
{
    assert forall|b: usize| closure(p, threads).contains(b) implies s.contains(b) by {
        let path = choose|path: Seq<usize>| #[trigger] split_path(p, path) && threads.contains(path[0]) && path.last() == b;
        assert forall|k: int| 0 <= k < path.len() implies s.contains(#[trigger] path[k]) by {
            lemma_path_within(p, s, path, k);
        }
    }
}

proof fn lemma_path_within(p: Program, s: Set<usize>, path: Seq<usize>, k: int)
    requires
        forall|a: usize, b: usize| s.contains(a) && split_edge(p, a, b) ==> s.contains(b),
        split_path(p, path),
        s.contains(path[0]),
        0 <= k < path.len(),
    ensures
        s.contains(path[k]),
    decreases k,
{
    if k > 0 {
        lemma_path_within(p, s, path, k - 1);
        assert(split_edge(p, path[k - 1], path[k]));
    }
}

} // verus!
