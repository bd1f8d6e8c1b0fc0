//! The other half of the translation's correctness: a thread of a rule's code
//! reaches the rule's `Match` only after reading text that the rule's
//! expression matches. So every token is text that its rule matches.
//!
//! Each address of a fragment gets a *continuation*: an expression for what
//! the threads there still have to read before they leave the fragment.
//! `Split`s lead to addresses whose continuations match less, and a character
//! test that reads `ch` leads to one whose matches, after `ch`, the
//! continuation before it matches.

use vstd::prelude::*;
use crate::regex::Regex;
use crate::compile::{emit, entry, size, Inst, inst_model, insts_model, lemma_emit_shape};
use crate::program::Program;
use crate::match_record::MatchRecord;
use crate::text::suffix;
use crate::reinterp::{Token, tokens_from, tokens_of, best_of, lemma_append_is_best, lemma_scan_ends};
use vstd::string::StringSliceAdditionalSpecFns;
use vstd::utf8::{
    valid_utf8, decode_utf8, encode_utf8, encode_scalar, decode_first_scalar, length_of_first_scalar,
    decode_utf8_first_scalar, encode_utf8_valid_utf8, encode_utf8_decode_utf8,
};
use crate::semantics::{closure, step, consumes, split_edge, match_at, scan, records_at, lemma_closure_least};
use crate::language::{full_match, concat_split, star_split, plus_split, lit_ok, class_ok, run, rule_placed};

verus! {

/// What the threads at address `x` of the fragment of `r` (placed at `base`,
/// going on at `next`) still have to read before they reach `next`.
pub open spec fn cont(r: Regex, base: nat, next: nat, x: nat) -> Regex
    decreases r,
{
    if x == next {
        Regex::Empty
    } else {
        match r {
            Regex::Concat(a, b) => {
                let nb = entry(*b, base + size(*a), next);
                if base <= x < base + size(*a) {
                    Regex::Concat(Box::new(cont(*a, base, nb, x)), b)
                } else {
                    cont(*b, base + size(*a), next, x)
                }
            },
            Regex::Alt(a, b) => if x == base {
                r
            } else if x < base + 1 + size(*a) {
                cont(*a, base + 1, next, x)
            } else {
                cont(*b, base + 1 + size(*a), next, x)
            },
            Regex::Star(a) => if x == base {
                r
            } else {
                Regex::Concat(Box::new(cont(*a, base + 1, base, x)), Box::new(r))
            },
            Regex::Plus(a) => if x == base + size(*a) {
                Regex::Star(a)
            } else {
                Regex::Concat(Box::new(cont(*a, base, base + size(*a), x)), Box::new(Regex::Star(a)))
            },
            Regex::Opt(a) => if x == base {
                r
            } else {
                cont(*a, base + 1, next, x)
            },
            _ => r,
        }
    }
}

/// The instruction `i` reads `ch` and hands control to `z`.
pub open spec fn inst_reads(i: Inst, ch: char, z: nat) -> bool {
    match i {
        Inst::Char(c, nocase, g) => g == z && lit_ok(c, ch, nocase),
        Inst::AnyChar(g) => g == z,
        Inst::CharClass(neg, items, nocase, g) => g == z && class_ok(neg, items, nocase, ch),
        _ => false,
    }
}

/// The instruction `i` is a `Split` with `y` among its targets.
pub open spec fn inst_splits_to(i: Inst, y: nat) -> bool {
    match i {
        Inst::Split(a, b) => y == a || y == b,
        _ => false,
    }
}

/// The instruction `i` is no `Match`, and hands control only to addresses in
/// `[lo, hi)` or to `next`.
pub open spec fn jumps_within(i: Inst, lo: nat, hi: nat, next: nat) -> bool {
    match i {
        Inst::Char(_, _, g) => g == next || lo <= g < hi,
        Inst::AnyChar(g) => g == next || lo <= g < hi,
        Inst::CharClass(_, _, _, g) => g == next || lo <= g < hi,
        Inst::Match(_) => false,
        Inst::Split(a, b) => (a == next || lo <= a < hi) && (b == next || lo <= b < hi),
    }
}

/// The code of a fragment holds no `Match`, and its jumps stay inside it or go
/// to `next`.
pub proof fn lemma_emit_within(r: Regex, base: nat, next: nat, nocase: bool, k: int)
    requires
        0 <= k < size(r),
    ensures
        jumps_within(emit(r, base, next, nocase)[k], base, base + size(r), next),
    decreases r,
{
    let n = base + size(r) + next + 1;
    lemma_emit_shape(r, base, next, nocase, n);
    let e = emit(r, base, next, nocase);
    match r {
        Regex::Concat(a, b) => {
            let nb = entry(*b, base + size(*a), next);
            lemma_emit_shape(*b, base + size(*a), next, nocase, n);
            lemma_emit_shape(*a, base, nb, nocase, n);
            if k < size(*a) {
                assert(e[k] == emit(*a, base, nb, nocase)[k]);
                lemma_emit_within(*a, base, nb, nocase, k);
            } else {
                assert(e[k] == emit(*b, base + size(*a), next, nocase)[k - size(*a)]);
                lemma_emit_within(*b, base + size(*a), next, nocase, k - size(*a));
            }
        },
        Regex::Alt(a, b) => {
            lemma_emit_shape(*a, base + 1, next, nocase, n);
            lemma_emit_shape(*b, base + 1 + size(*a), next, nocase, n);
            if k == 0 {
            } else if k < 1 + size(*a) {
                assert(e[k] == emit(*a, base + 1, next, nocase)[k - 1]);
                lemma_emit_within(*a, base + 1, next, nocase, k - 1);
            } else {
                assert(e[k] == emit(*b, base + 1 + size(*a), next, nocase)[k - 1 - size(*a)]);
                lemma_emit_within(*b, base + 1 + size(*a), next, nocase, k - 1 - size(*a));
            }
        },
        Regex::Star(a) => {
            lemma_emit_shape(*a, base + 1, base, nocase, n);
            if k > 0 {
                assert(e[k] == emit(*a, base + 1, base, nocase)[k - 1]);
                lemma_emit_within(*a, base + 1, base, nocase, k - 1);
            }
        },
        Regex::Plus(a) => {
            lemma_emit_shape(*a, base, base + size(*a), nocase, n);
            if k < size(*a) {
                assert(e[k] == emit(*a, base, base + size(*a), nocase)[k]);
                lemma_emit_within(*a, base, base + size(*a), nocase, k);
            }
        },
        Regex::Opt(a) => {
            lemma_emit_shape(*a, base + 1, next, nocase, n);
            if k > 0 {
                assert(e[k] == emit(*a, base + 1, next, nocase)[k - 1]);
                lemma_emit_within(*a, base + 1, next, nocase, k - 1);
            }
        },
        _ => {},
    }
}

/// Matches of `a` and `b` side by side match their concatenation.
pub proof fn lemma_concat_intro(a: Regex, b: Regex, u: Seq<char>, v: Seq<char>, nocase: bool)
    requires
        full_match(a, u, nocase),
        full_match(b, v, nocase),
    ensures
        full_match(Regex::Concat(Box::new(a), Box::new(b)), u + v, nocase),
{
    let r = Regex::Concat(Box::new(a), Box::new(b));
    let w = u + v;
    assert(w.take(u.len() as int) =~= u);
    assert(w.skip(u.len() as int) =~= v);
    lemma_concat_split_from(r, w, nocase, u.len(), w.len());
}

proof fn lemma_concat_split_from(r: Regex, w: Seq<char>, nocase: bool, j: nat, k: nat)
    requires
        r matches Regex::Concat(a, b) && full_match(*a, w.take(j as int), nocase) && full_match(
            *b,
            w.skip(j as int),
            nocase,
        ),
        j <= k <= w.len(),
    ensures
        concat_split(r, w, nocase, k),
    decreases k,
{
    if k > j {
        lemma_concat_split_from(r, w, nocase, j, (k - 1) as nat);
    }
}

/// A match of `a` in front of a sequence of pieces that `a` matches is again
/// such a sequence.
pub proof fn lemma_star_intro(a: Regex, u: Seq<char>, v: Seq<char>, nocase: bool)
    requires
        full_match(a, u, nocase),
        star_split(a, v, nocase, v.len()),
    ensures
        star_split(a, u + v, nocase, (u + v).len()),
{
    let w = u + v;
    if u.len() == 0 {
        assert(w =~= v);
    } else {
        assert(w.take(u.len() as int) =~= u);
        assert(w.skip(u.len() as int) =~= v);
        lemma_star_split_from(a, w, nocase, u.len(), w.len());
    }
}

proof fn lemma_star_split_from(a: Regex, w: Seq<char>, nocase: bool, j: nat, k: nat)
    requires
        full_match(a, w.take(j as int), nocase),
        star_split(a, w.skip(j as int), nocase, (w.len() - j) as nat),
        1 <= j <= k <= w.len(),
    ensures
        star_split(a, w, nocase, k),
    decreases k,
{
    if k > j {
        lemma_star_split_from(a, w, nocase, j, (k - 1) as nat);
    }
}

/// A match of `a` in front of a sequence of pieces that `a` matches matches
/// `a+`.
pub proof fn lemma_plus_intro(a: Regex, u: Seq<char>, v: Seq<char>, nocase: bool)
    requires
        full_match(a, u, nocase),
        star_split(a, v, nocase, v.len()),
    ensures
        full_match(Regex::Plus(Box::new(a)), u + v, nocase),
{
    let w = u + v;
    assert(w.take(u.len() as int) =~= u);
    assert(w.skip(u.len() as int) =~= v);
    lemma_plus_split_from(a, w, nocase, u.len(), w.len());
}

proof fn lemma_plus_split_from(a: Regex, w: Seq<char>, nocase: bool, j: nat, k: nat)
    requires
        full_match(a, w.take(j as int), nocase),
        star_split(a, w.skip(j as int), nocase, (w.len() - j) as nat),
        j <= k <= w.len(),
    ensures
        plus_split(a, w, nocase, k),
    decreases k,
{
    if k > j {
        lemma_plus_split_from(a, w, nocase, j, (k - 1) as nat);
    }
}

/// `next` lies outside the fragment of `r` placed at `base`.
pub open spec fn outside(r: Regex, base: nat, next: nat) -> bool {
    next < base || base + size(r) <= next
}

/// What the threads at the entry of a fragment still have to read is matched
/// by the fragment's expression.
pub proof fn lemma_cont_entry(r: Regex, base: nat, next: nat, nocase: bool, v: Seq<char>)
    requires
        outside(r, base, next),
        full_match(cont(r, base, next, entry(r, base, next)), v, nocase),
    ensures
        full_match(r, v, nocase),
    decreases r,
{
    let n = base + size(r) + next + 1;
    lemma_emit_shape(r, base, next, nocase, n);
    match r {
        Regex::Concat(a, b) => {
            let nb = entry(*b, base + size(*a), next);
            lemma_emit_shape(*b, base + size(*a), next, nocase, n);
            lemma_emit_shape(*a, base, nb, nocase, n);
            let ea = entry(*a, base, nb);
            if ea == nb {
                assert(cont(r, base, next, ea) == cont(*b, base + size(*a), next, nb));
                lemma_cont_entry(*b, base + size(*a), next, nocase, v);
                lemma_cont_entry(*a, base, nb, nocase, Seq::empty());
                lemma_concat_intro(*a, *b, Seq::empty(), v, nocase);
                assert(Seq::<char>::empty() + v =~= v);
            } else {
                let j = lemma_concat_parts(cont(*a, base, nb, ea), *b, v, nocase);
                lemma_cont_entry(*a, base, nb, nocase, v.take(j));
                lemma_concat_intro(*a, *b, v.take(j), v.skip(j), nocase);
                assert(v.take(j) + v.skip(j) =~= v);
            }
        },
        Regex::Plus(a) => {
            let at = base + size(*a);
            lemma_emit_shape(*a, base, at, nocase, n);
            let ea = entry(*a, base, at);
            if ea == at {
                lemma_cont_entry(*a, base, at, nocase, Seq::empty());
                lemma_plus_intro(*a, Seq::empty(), v, nocase);
                assert(Seq::<char>::empty() + v =~= v);
            } else {
                let j = lemma_concat_parts(cont(*a, base, at, ea), Regex::Star(a), v, nocase);
                lemma_cont_entry(*a, base, at, nocase, v.take(j));
                lemma_plus_intro(*a, v.take(j), v.skip(j), nocase);
                assert(v.take(j) + v.skip(j) =~= v);
            }
        },
        _ => {},
    }
}

/// A match of a concatenation splits into matches of its parts.
pub proof fn lemma_concat_parts(a: Regex, b: Regex, w: Seq<char>, nocase: bool) -> (j: int)
    requires
        full_match(Regex::Concat(Box::new(a), Box::new(b)), w, nocase),
    ensures
        0 <= j <= w.len(),
        full_match(a, w.take(j), nocase),
        full_match(b, w.skip(j), nocase),
{
    crate::language::lemma_concat_split(Regex::Concat(Box::new(a), Box::new(b)), w, nocase, w.len())
}

/// A `Split` of a fragment leads to an address whose continuation matches no
/// more than the continuation at the `Split`.
pub proof fn lemma_cont_split(r: Regex, base: nat, next: nat, nocase: bool, k: int, y: nat, v: Seq<char>)
    requires
        outside(r, base, next),
        0 <= k < size(r),
        inst_splits_to(emit(r, base, next, nocase)[k], y),
        full_match(cont(r, base, next, y), v, nocase),
    ensures
        full_match(cont(r, base, next, (base + k) as nat), v, nocase),
    decreases r, 1nat,
{
    match r {
        Regex::Concat(_, _) => lemma_split_concat(r, base, next, nocase, k, y, v),
        Regex::Alt(_, _) => lemma_split_alt(r, base, next, nocase, k, y, v),
        Regex::Star(_) => lemma_split_star(r, base, next, nocase, k, y, v),
        Regex::Plus(_) => lemma_split_plus(r, base, next, nocase, k, y, v),
        Regex::Opt(_) => lemma_split_opt(r, base, next, nocase, k, y, v),
        _ => {},
    }
}

proof fn lemma_split_concat(r: Regex, base: nat, next: nat, nocase: bool, k: int, y: nat, v: Seq<char>)
    requires
        outside(r, base, next),
        0 <= k < size(r),
        inst_splits_to(emit(r, base, next, nocase)[k], y),
        full_match(cont(r, base, next, y), v, nocase),
        r is Concat,
    ensures
        full_match(cont(r, base, next, (base + k) as nat), v, nocase),
    decreases r, 0nat,
{
    let n = base + size(r) + next + 1;
    lemma_emit_shape(r, base, next, nocase, n);
    let e = emit(r, base, next, nocase);
    let x = (base + k) as nat;
    match r {
        Regex::Concat(a, b) => {
            let bb = base + size(*a);
            let nb = entry(*b, bb, next);
            lemma_emit_shape(*b, bb, next, nocase, n);
            lemma_emit_shape(*a, base, nb, nocase, n);
            if k < size(*a) {
                assert(e[k] == emit(*a, base, nb, nocase)[k]);
                lemma_emit_within(*a, base, nb, nocase, k);
                if y == nb {
                    assert(cont(r, base, next, y) == cont(*b, bb, next, nb));
                    lemma_cont_entry(*b, bb, next, nocase, v);
                    lemma_cont_split(*a, base, nb, nocase, k, y, Seq::empty());
                    lemma_concat_intro(cont(*a, base, nb, x), *b, Seq::empty(), v, nocase);
                    assert(Seq::<char>::empty() + v =~= v);
                } else {
                    let j = lemma_concat_parts(cont(*a, base, nb, y), *b, v, nocase);
                    lemma_cont_split(*a, base, nb, nocase, k, y, v.take(j));
                    lemma_concat_intro(cont(*a, base, nb, x), *b, v.take(j), v.skip(j), nocase);
                    assert(v.take(j) + v.skip(j) =~= v);
                }
            } else {
                assert(e[k] == emit(*b, bb, next, nocase)[k - size(*a)]);
                lemma_emit_within(*b, bb, next, nocase, k - size(*a));
                assert(cont(r, base, next, y) == cont(*b, bb, next, y));
                lemma_cont_split(*b, bb, next, nocase, k - size(*a), y, v);
            }
        },
        _ => {},
    }
}

proof fn lemma_split_alt(r: Regex, base: nat, next: nat, nocase: bool, k: int, y: nat, v: Seq<char>)
    requires
        outside(r, base, next),
        0 <= k < size(r),
        inst_splits_to(emit(r, base, next, nocase)[k], y),
        full_match(cont(r, base, next, y), v, nocase),
        r is Alt,
    ensures
        full_match(cont(r, base, next, (base + k) as nat), v, nocase),
    decreases r, 0nat,
{
    let n = base + size(r) + next + 1;
    lemma_emit_shape(r, base, next, nocase, n);
    let e = emit(r, base, next, nocase);
    match r {
        Regex::Alt(a, b) => {
            let ab = base + 1;
            let bb = base + 1 + size(*a);
            lemma_emit_shape(*a, ab, next, nocase, n);
            lemma_emit_shape(*b, bb, next, nocase, n);
            if k == 0 {
                if y == entry(*a, ab, next) {
                    assert(cont(r, base, next, y) == cont(*a, ab, next, y));
                    lemma_cont_entry(*a, ab, next, nocase, v);
                } else {
                    assert(cont(r, base, next, y) == cont(*b, bb, next, y));
                    lemma_cont_entry(*b, bb, next, nocase, v);
                }
            } else if k < 1 + size(*a) {
                assert(e[k] == emit(*a, ab, next, nocase)[k - 1]);
                lemma_emit_within(*a, ab, next, nocase, k - 1);
                assert(cont(r, base, next, y) == cont(*a, ab, next, y));
                lemma_cont_split(*a, ab, next, nocase, k - 1, y, v);
            } else {
                assert(e[k] == emit(*b, bb, next, nocase)[k - 1 - size(*a)]);
                lemma_emit_within(*b, bb, next, nocase, k - 1 - size(*a));
                assert(cont(r, base, next, y) == cont(*b, bb, next, y));
                lemma_cont_split(*b, bb, next, nocase, k - 1 - size(*a), y, v);
            }
        },
        _ => {},
    }
}

proof fn lemma_split_opt(r: Regex, base: nat, next: nat, nocase: bool, k: int, y: nat, v: Seq<char>)
    requires
        outside(r, base, next),
        0 <= k < size(r),
        inst_splits_to(emit(r, base, next, nocase)[k], y),
        full_match(cont(r, base, next, y), v, nocase),
        r is Opt,
    ensures
        full_match(cont(r, base, next, (base + k) as nat), v, nocase),
    decreases r, 0nat,
{
    let n = base + size(r) + next + 1;
    lemma_emit_shape(r, base, next, nocase, n);
    let e = emit(r, base, next, nocase);
    match r {
        Regex::Opt(a) => {
            let ab = base + 1;
            lemma_emit_shape(*a, ab, next, nocase, n);
            if k == 0 {
                if y != next {
                    assert(cont(r, base, next, y) == cont(*a, ab, next, y));
                    lemma_cont_entry(*a, ab, next, nocase, v);
                }
            } else {
                assert(e[k] == emit(*a, ab, next, nocase)[k - 1]);
                lemma_emit_within(*a, ab, next, nocase, k - 1);
                assert(cont(r, base, next, y) == cont(*a, ab, next, y));
                lemma_cont_split(*a, ab, next, nocase, k - 1, y, v);
            }
        },
        _ => {},
    }
}

proof fn lemma_split_star(r: Regex, base: nat, next: nat, nocase: bool, k: int, y: nat, v: Seq<char>)
    requires
        outside(r, base, next),
        0 <= k < size(r),
        inst_splits_to(emit(r, base, next, nocase)[k], y),
        full_match(cont(r, base, next, y), v, nocase),
        r is Star,
    ensures
        full_match(cont(r, base, next, (base + k) as nat), v, nocase),
    decreases r, 0nat,
{
    let n = base + size(r) + next + 1;
    lemma_emit_shape(r, base, next, nocase, n);
    let e = emit(r, base, next, nocase);
    let x = (base + k) as nat;
    match r {
        Regex::Star(a) => {
            let ab = base + 1;
            lemma_emit_shape(*a, ab, base, nocase, n);
            let ea = entry(*a, ab, base);
            if k == 0 {
                if y == next {
                    assert(star_split(*a, v, nocase, 0));
                } else if y != base {
                    let j = lemma_concat_parts(cont(*a, ab, base, y), r, v, nocase);
                    lemma_cont_entry(*a, ab, base, nocase, v.take(j));
                    lemma_star_intro(*a, v.take(j), v.skip(j), nocase);
                    assert(v.take(j) + v.skip(j) =~= v);
                }
            } else {
                assert(e[k] == emit(*a, ab, base, nocase)[k - 1]);
                lemma_emit_within(*a, ab, base, nocase, k - 1);
                if y == base {
                    lemma_cont_split(*a, ab, base, nocase, k - 1, y, Seq::empty());
                    lemma_concat_intro(cont(*a, ab, base, x), r, Seq::empty(), v, nocase);
                    assert(Seq::<char>::empty() + v =~= v);
                } else {
                    let j = lemma_concat_parts(cont(*a, ab, base, y), r, v, nocase);
                    lemma_cont_split(*a, ab, base, nocase, k - 1, y, v.take(j));
                    lemma_concat_intro(cont(*a, ab, base, x), r, v.take(j), v.skip(j), nocase);
                    assert(v.take(j) + v.skip(j) =~= v);
                }
            }
        },
        _ => {},
    }
}

proof fn lemma_split_plus(r: Regex, base: nat, next: nat, nocase: bool, k: int, y: nat, v: Seq<char>)
    requires
        outside(r, base, next),
        0 <= k < size(r),
        inst_splits_to(emit(r, base, next, nocase)[k], y),
        full_match(cont(r, base, next, y), v, nocase),
        r is Plus,
    ensures
        full_match(cont(r, base, next, (base + k) as nat), v, nocase),
    decreases r, 0nat,
{
    let n = base + size(r) + next + 1;
    lemma_emit_shape(r, base, next, nocase, n);
    let e = emit(r, base, next, nocase);
    let x = (base + k) as nat;
    match r {
        Regex::Plus(a) => {
            let at = base + size(*a);
            let star = Regex::Star(a);
            lemma_emit_shape(*a, base, at, nocase, n);
            if k == size(*a) {
                if y == next {
                    assert(star_split(*a, v, nocase, 0));
                } else if y != at {
                    let j = lemma_concat_parts(cont(*a, base, at, y), star, v, nocase);
                    lemma_cont_entry(*a, base, at, nocase, v.take(j));
                    lemma_star_intro(*a, v.take(j), v.skip(j), nocase);
                    assert(v.take(j) + v.skip(j) =~= v);
                }
            } else {
                assert(e[k] == emit(*a, base, at, nocase)[k]);
                lemma_emit_within(*a, base, at, nocase, k);
                if y == at {
                    lemma_cont_split(*a, base, at, nocase, k, y, Seq::empty());
                    lemma_concat_intro(cont(*a, base, at, x), star, Seq::empty(), v, nocase);
                    assert(Seq::<char>::empty() + v =~= v);
                } else {
                    let j = lemma_concat_parts(cont(*a, base, at, y), star, v, nocase);
                    lemma_cont_split(*a, base, at, nocase, k, y, v.take(j));
                    lemma_concat_intro(cont(*a, base, at, x), star, v.take(j), v.skip(j), nocase);
                    assert(v.take(j) + v.skip(j) =~= v);
                }
            }
        },
        _ => {},
    }
}

/// A character test of a fragment that reads `ch` and leads to `z`: what the
/// continuation at `z` matches, after `ch`, the continuation at the test
/// matches.
pub proof fn lemma_cont_read(
    r: Regex,
    base: nat,
    next: nat,
    nocase: bool,
    k: int,
    ch: char,
    z: nat,
    v: Seq<char>,
)
    requires
        outside(r, base, next),
        0 <= k < size(r),
        inst_reads(emit(r, base, next, nocase)[k], ch, z),
        full_match(cont(r, base, next, z), v, nocase),
    ensures
        full_match(cont(r, base, next, (base + k) as nat), seq![ch] + v, nocase),
    decreases r, 1nat,
{
    match r {
        Regex::Concat(_, _) => lemma_read_concat(r, base, next, nocase, k, ch, z, v),
        Regex::Alt(_, _) => lemma_read_alt(r, base, next, nocase, k, ch, z, v),
        Regex::Star(_) => lemma_read_star(r, base, next, nocase, k, ch, z, v),
        Regex::Plus(_) => lemma_read_plus(r, base, next, nocase, k, ch, z, v),
        Regex::Opt(_) => lemma_read_opt(r, base, next, nocase, k, ch, z, v),
        Regex::Empty => {},
        _ => {
            assert(v.len() == 0);
            assert(seq![ch] + v =~= seq![ch]);
        },
    }
}

proof fn lemma_read_concat(
    r: Regex,
    base: nat,
    next: nat,
    nocase: bool,
    k: int,
    ch: char,
    z: nat,
    v: Seq<char>,
)
    requires
        outside(r, base, next),
        0 <= k < size(r),
        inst_reads(emit(r, base, next, nocase)[k], ch, z),
        full_match(cont(r, base, next, z), v, nocase),
        r is Concat,
    ensures
        full_match(cont(r, base, next, (base + k) as nat), seq![ch] + v, nocase),
    decreases r, 0nat,
{
    let n = base + size(r) + next + 1;
    lemma_emit_shape(r, base, next, nocase, n);
    let e = emit(r, base, next, nocase);
    let x = (base + k) as nat;
    let c = seq![ch];
    match r {
        Regex::Concat(a, b) => {
            let bb = base + size(*a);
            let nb = entry(*b, bb, next);
            lemma_emit_shape(*b, bb, next, nocase, n);
            lemma_emit_shape(*a, base, nb, nocase, n);
            if k < size(*a) {
                assert(e[k] == emit(*a, base, nb, nocase)[k]);
                lemma_emit_within(*a, base, nb, nocase, k);
                if z == nb {
                    assert(cont(r, base, next, z) == cont(*b, bb, next, nb));
                    lemma_cont_entry(*b, bb, next, nocase, v);
                    lemma_cont_read(*a, base, nb, nocase, k, ch, z, Seq::empty());
                    assert(c + Seq::<char>::empty() =~= c);
                    lemma_concat_intro(cont(*a, base, nb, x), *b, c, v, nocase);
                } else {
                    let j = lemma_concat_parts(cont(*a, base, nb, z), *b, v, nocase);
                    lemma_cont_read(*a, base, nb, nocase, k, ch, z, v.take(j));
                    lemma_concat_intro(cont(*a, base, nb, x), *b, c + v.take(j), v.skip(j), nocase);
                    assert(c + v.take(j) + v.skip(j) =~= c + v);
                }
            } else {
                assert(e[k] == emit(*b, bb, next, nocase)[k - size(*a)]);
                lemma_emit_within(*b, bb, next, nocase, k - size(*a));
                assert(cont(r, base, next, z) == cont(*b, bb, next, z));
                lemma_cont_read(*b, bb, next, nocase, k - size(*a), ch, z, v);
            }
        },
        _ => {},
    }
}

proof fn lemma_read_alt(
    r: Regex,
    base: nat,
    next: nat,
    nocase: bool,
    k: int,
    ch: char,
    z: nat,
    v: Seq<char>,
)
    requires
        outside(r, base, next),
        0 <= k < size(r),
        inst_reads(emit(r, base, next, nocase)[k], ch, z),
        full_match(cont(r, base, next, z), v, nocase),
        r is Alt,
    ensures
        full_match(cont(r, base, next, (base + k) as nat), seq![ch] + v, nocase),
    decreases r, 0nat,
{
    let n = base + size(r) + next + 1;
    lemma_emit_shape(r, base, next, nocase, n);
    let e = emit(r, base, next, nocase);
    match r {
        Regex::Alt(a, b) => {
            let ab = base + 1;
            let bb = base + 1 + size(*a);
            lemma_emit_shape(*a, ab, next, nocase, n);
            lemma_emit_shape(*b, bb, next, nocase, n);
            if k == 0 {
            } else if k < 1 + size(*a) {
                assert(e[k] == emit(*a, ab, next, nocase)[k - 1]);
                lemma_emit_within(*a, ab, next, nocase, k - 1);
                assert(cont(r, base, next, z) == cont(*a, ab, next, z));
                lemma_cont_read(*a, ab, next, nocase, k - 1, ch, z, v);
            } else {
                assert(e[k] == emit(*b, bb, next, nocase)[k - 1 - size(*a)]);
                lemma_emit_within(*b, bb, next, nocase, k - 1 - size(*a));
                assert(cont(r, base, next, z) == cont(*b, bb, next, z));
                lemma_cont_read(*b, bb, next, nocase, k - 1 - size(*a), ch, z, v);
            }
        },
        _ => {},
    }
}

proof fn lemma_read_opt(
    r: Regex,
    base: nat,
    next: nat,
    nocase: bool,
    k: int,
    ch: char,
    z: nat,
    v: Seq<char>,
)
    requires
        outside(r, base, next),
        0 <= k < size(r),
        inst_reads(emit(r, base, next, nocase)[k], ch, z),
        full_match(cont(r, base, next, z), v, nocase),
        r is Opt,
    ensures
        full_match(cont(r, base, next, (base + k) as nat), seq![ch] + v, nocase),
    decreases r, 0nat,
{
    let n = base + size(r) + next + 1;
    lemma_emit_shape(r, base, next, nocase, n);
    let e = emit(r, base, next, nocase);
    match r {
        Regex::Opt(a) => {
            let ab = base + 1;
            lemma_emit_shape(*a, ab, next, nocase, n);
            if k > 0 {
                assert(e[k] == emit(*a, ab, next, nocase)[k - 1]);
                lemma_emit_within(*a, ab, next, nocase, k - 1);
                assert(cont(r, base, next, z) == cont(*a, ab, next, z));
                lemma_cont_read(*a, ab, next, nocase, k - 1, ch, z, v);
            }
        },
        _ => {},
    }
}

proof fn lemma_read_star(
    r: Regex,
    base: nat,
    next: nat,
    nocase: bool,
    k: int,
    ch: char,
    z: nat,
    v: Seq<char>,
)
    requires
        outside(r, base, next),
        0 <= k < size(r),
        inst_reads(emit(r, base, next, nocase)[k], ch, z),
        full_match(cont(r, base, next, z), v, nocase),
        r is Star,
    ensures
        full_match(cont(r, base, next, (base + k) as nat), seq![ch] + v, nocase),
    decreases r, 0nat,
{
    let n = base + size(r) + next + 1;
    lemma_emit_shape(r, base, next, nocase, n);
    let e = emit(r, base, next, nocase);
    let x = (base + k) as nat;
    let c = seq![ch];
    match r {
        Regex::Star(a) => {
            let ab = base + 1;
            lemma_emit_shape(*a, ab, base, nocase, n);
            if k > 0 {
                assert(e[k] == emit(*a, ab, base, nocase)[k - 1]);
                lemma_emit_within(*a, ab, base, nocase, k - 1);
                if z == base {
                    lemma_cont_read(*a, ab, base, nocase, k - 1, ch, z, Seq::empty());
                    assert(c + Seq::<char>::empty() =~= c);
                    lemma_concat_intro(cont(*a, ab, base, x), r, c, v, nocase);
                } else {
                    let j = lemma_concat_parts(cont(*a, ab, base, z), r, v, nocase);
                    lemma_cont_read(*a, ab, base, nocase, k - 1, ch, z, v.take(j));
                    lemma_concat_intro(cont(*a, ab, base, x), r, c + v.take(j), v.skip(j), nocase);
                    assert(c + v.take(j) + v.skip(j) =~= c + v);
                }
            }
        },
        _ => {},
    }
}

proof fn lemma_read_plus(
    r: Regex,
    base: nat,
    next: nat,
    nocase: bool,
    k: int,
    ch: char,
    z: nat,
    v: Seq<char>,
)
    requires
        outside(r, base, next),
        0 <= k < size(r),
        inst_reads(emit(r, base, next, nocase)[k], ch, z),
        full_match(cont(r, base, next, z), v, nocase),
        r is Plus,
    ensures
        full_match(cont(r, base, next, (base + k) as nat), seq![ch] + v, nocase),
    decreases r, 0nat,
{
    let n = base + size(r) + next + 1;
    lemma_emit_shape(r, base, next, nocase, n);
    let e = emit(r, base, next, nocase);
    let x = (base + k) as nat;
    let c = seq![ch];
    match r {
        Regex::Plus(a) => {
            let at = base + size(*a);
            let star = Regex::Star(a);
            lemma_emit_shape(*a, base, at, nocase, n);
            if k < size(*a) {
                assert(e[k] == emit(*a, base, at, nocase)[k]);
                lemma_emit_within(*a, base, at, nocase, k);
                if z == at {
                    lemma_cont_read(*a, base, at, nocase, k, ch, z, Seq::empty());
                    assert(c + Seq::<char>::empty() =~= c);
                    lemma_concat_intro(cont(*a, base, at, x), star, c, v, nocase);
                } else {
                    let j = lemma_concat_parts(cont(*a, base, at, z), star, v, nocase);
                    lemma_cont_read(*a, base, at, nocase, k, ch, z, v.take(j));
                    lemma_concat_intro(cont(*a, base, at, x), star, c + v.take(j), v.skip(j), nocase);
                    assert(c + v.take(j) + v.skip(j) =~= c + v);
                }
            }
        },
        _ => {},
    }
}

/// A rule of a program: its expression, the address at which its code starts,
/// whether it ignores case, and its number.
pub ghost struct Rule {
    pub regex: Regex,
    pub base: nat,
    pub nocase: bool,
    pub number: usize,
}

/// The address of the rule's `Match`, right after its fragment.
pub open spec fn match_addr(rule: Rule) -> nat {
    rule.base + size(rule.regex)
}

/// The entry point of the rule.
pub open spec fn rule_entry(rule: Rule) -> nat {
    entry(rule.regex, rule.base, match_addr(rule))
}

/// The program is made of the rules `rs`: the code of each stands in it, and
/// its entry points are the rules' entries.
pub open spec fn rules_placed(p: Program, rs: Seq<Rule>) -> bool {
    &&& forall|i: int| 0 <= i < rs.len() ==> #[trigger] rule_placed(
        p,
        rs[i].regex,
        rs[i].base,
        rs[i].nocase,
        rs[i].number,
    )
    &&& forall|a: usize| #[trigger]
        p.start_set().contains(a) ==> exists|i: int| 0 <= i < rs.len() && a == rule_entry(rs[i]) as usize
}

/// Whatever the threads at `x` of the rule still read, the rule matches after
/// `u`.
pub open spec fn cont_ok(rule: Rule, u: Seq<char>, x: nat) -> bool {
    forall|v: Seq<char>| #[trigger]
        full_match(cont(rule.regex, rule.base, match_addr(rule), x), v, rule.nocase) ==> full_match(
            rule.regex,
            u + v,
            rule.nocase,
        )
}

/// The address `x` belongs to one of the rules `rs` (its fragment or its
/// `Match`), and a thread there has read `u` on a path that the rule's
/// expression can still complete.
pub open spec fn on_track(rs: Seq<Rule>, u: Seq<char>, x: usize) -> bool {
    exists|i: int|
        0 <= i < rs.len() && rs[i].base <= x <= match_addr(rs[i]) && #[trigger] cont_ok(rs[i], u, x as nat)
}

/// The addresses at which threads that have read `u` are on track.
pub open spec fn on_track_set(rs: Seq<Rule>, u: Seq<char>) -> Set<usize> {
    Set::new(|x: usize| on_track(rs, u, x))
}

/// The instruction at `base + k` of a placed rule is the `k`-th of its code,
/// and the one at its `Match` address reports the rule.
proof fn lemma_rule_inst(p: Program, rule: Rule, k: int)
    requires
        rule_placed(p, rule.regex, rule.base, rule.nocase, rule.number),
        0 <= k <= size(rule.regex),
    ensures
        k < size(rule.regex) ==> inst_model(p.insts@[rule.base + k]) == emit(
            rule.regex,
            rule.base,
            match_addr(rule),
            rule.nocase,
        )[k],
        k == size(rule.regex) ==> inst_model(p.insts@[rule.base + k]) == Inst::Match(rule.number as nat),
{
    let r = rule.regex;
    let base = rule.base;
    let m = insts_model(p.insts@);
    lemma_emit_shape(r, base, match_addr(rule), rule.nocase, match_addr(rule) + 1);
    assert(m.subrange(base as int, (base + size(r) + 1) as int)[k] == m[base + k]);
}

/// On-track threads that follow a `Split` stay on track.
proof fn lemma_on_track_closure(p: Program, rs: Seq<Rule>, u: Seq<char>, t: Set<usize>)
    requires
        rules_placed(p, rs),
        t.subset_of(on_track_set(rs, u)),
    ensures
        closure(p, t).subset_of(on_track_set(rs, u)),
{
    let s = on_track_set(rs, u);
    assert forall|x: usize, y: usize| s.contains(x) && split_edge(p, x, y) implies s.contains(y) by {
        let i = choose|i: int|
            0 <= i < rs.len() && rs[i].base <= x <= match_addr(rs[i]) && #[trigger] cont_ok(rs[i], u, x as nat);
        let rule = rs[i];
        assert(rule_placed(p, rule.regex, rule.base, rule.nocase, rule.number));
        let k = x - rule.base;
        lemma_rule_inst(p, rule, k);
        let e = emit(rule.regex, rule.base, match_addr(rule), rule.nocase);
        assert(k < size(rule.regex));
        assert(inst_splits_to(e[k], y as nat));
        lemma_emit_within(rule.regex, rule.base, match_addr(rule), rule.nocase, k);
        assert forall|v: Seq<char>| #[trigger]
            full_match(cont(rule.regex, rule.base, match_addr(rule), y as nat), v, rule.nocase) implies full_match(
            rule.regex,
            u + v,
            rule.nocase,
        ) by {
            lemma_cont_split(rule.regex, rule.base, match_addr(rule), rule.nocase, k, y as nat, v);
            assert(full_match(cont(rule.regex, rule.base, match_addr(rule), x as nat), v, rule.nocase));
        }
        assert(cont_ok(rule, u, y as nat));
    }
    lemma_closure_least(p, t, s);
}

/// On-track threads that read `ch` stay on track.
proof fn lemma_on_track_step(p: Program, rs: Seq<Rule>, u: Seq<char>, c: Set<usize>, ch: char)
    requires
        rules_placed(p, rs),
        c.subset_of(on_track_set(rs, u)),
    ensures
        step(p, c, ch).subset_of(on_track_set(rs, u.push(ch))),
{
    assert forall|z: usize| step(p, c, ch).contains(z) implies on_track(rs, u.push(ch), z) by {
        let pc = choose|pc: usize| c.contains(pc) && pc < p.insts@.len() && #[trigger] consumes(p.insts@[pc as int], ch, z);
        let i = choose|i: int|
            0 <= i < rs.len() && rs[i].base <= pc <= match_addr(rs[i]) && #[trigger] cont_ok(rs[i], u, pc as nat);
        let rule = rs[i];
        assert(rule_placed(p, rule.regex, rule.base, rule.nocase, rule.number));
        let k = pc - rule.base;
        lemma_rule_inst(p, rule, k);
        let e = emit(rule.regex, rule.base, match_addr(rule), rule.nocase);
        assert(k < size(rule.regex));
        assert(inst_reads(e[k], ch, z as nat));
        lemma_emit_within(rule.regex, rule.base, match_addr(rule), rule.nocase, k);
        assert forall|v: Seq<char>| #[trigger]
            full_match(cont(rule.regex, rule.base, match_addr(rule), z as nat), v, rule.nocase) implies full_match(
            rule.regex,
            u.push(ch) + v,
            rule.nocase,
        ) by {
            lemma_cont_read(rule.regex, rule.base, match_addr(rule), rule.nocase, k, ch, z as nat, v);
            assert(full_match(cont(rule.regex, rule.base, match_addr(rule), pc as nat), seq![ch] + v, rule.nocase));
            assert(u + (seq![ch] + v) =~= u.push(ch) + v);
        }
        assert(cont_ok(rule, u.push(ch), z as nat));
    }
}

/// Threads on track stay on track whatever they read.
proof fn lemma_on_track_run(p: Program, rs: Seq<Rule>, u: Seq<char>, t: Set<usize>, w: Seq<char>)
    requires
        rules_placed(p, rs),
        t.subset_of(on_track_set(rs, u)),
    ensures
        run(p, t, w).subset_of(on_track_set(rs, u + w)),
    decreases w.len(),
{
    lemma_on_track_closure(p, rs, u, t);
    if w.len() == 0 {
        assert(u + w =~= u);
    } else {
        let c = closure(p, t);
        lemma_on_track_step(p, rs, u, c, w[0]);
        lemma_on_track_run(p, rs, u.push(w[0]), step(p, c, w[0]), w.drop_first());
        assert(u.push(w[0]) + w.drop_first() =~= u + w);
    }
}

/// The entry points of a program made of rules are on track before anything
/// is read.
proof fn lemma_on_track_start(p: Program, rs: Seq<Rule>)
    requires
        rules_placed(p, rs),
    ensures
        p.start_set().subset_of(on_track_set(rs, Seq::empty())),
{
    assert forall|a: usize| p.start_set().contains(a) implies on_track(rs, Seq::empty(), a) by {
        let i = choose|i: int| 0 <= i < rs.len() && a == rule_entry(rs[i]) as usize;
        let rule = rs[i];
        assert(rule_placed(p, rule.regex, rule.base, rule.nocase, rule.number));
        let n = p.insts@.len();
        lemma_emit_shape(rule.regex, rule.base, match_addr(rule), rule.nocase, n);
        assert forall|v: Seq<char>| #[trigger]
            full_match(cont(rule.regex, rule.base, match_addr(rule), a as nat), v, rule.nocase) implies full_match(
            rule.regex,
            Seq::<char>::empty() + v,
            rule.nocase,
        ) by {
            lemma_cont_entry(rule.regex, rule.base, match_addr(rule), rule.nocase, v);
            assert(Seq::<char>::empty() + v =~= v);
        }
        assert(cont_ok(rule, Seq::empty(), a as nat));
    }
}

/// Soundness of the translation: a `Match` that the threads started at the
/// entry points of a program made of rules reach after reading `w` reports a
/// rule whose expression matches `w`.
pub proof fn lemma_match_sound(p: Program, rs: Seq<Rule>, w: Seq<char>, x: usize, number: usize)
    requires
        rules_placed(p, rs),
        run(p, p.start_set(), w).contains(x),
        match_at(p, x, number),
    ensures
        exists|i: int|
            0 <= i < rs.len() && rs[i].number == number && full_match(rs[i].regex, w, rs[i].nocase),
{
    lemma_on_track_start(p, rs);
    lemma_on_track_run(p, rs, Seq::empty(), p.start_set(), w);
    assert(Seq::<char>::empty() + w =~= w);
    let i = choose|i: int|
        0 <= i < rs.len() && rs[i].base <= x <= match_addr(rs[i]) && #[trigger] cont_ok(rs[i], w, x as nat);
    let rule = rs[i];
    assert(rule_placed(p, rule.regex, rule.base, rule.nocase, rule.number));
    let k = x - rule.base;
    lemma_rule_inst(p, rule, k);
    if k < size(rule.regex) {
        lemma_emit_within(rule.regex, rule.base, match_addr(rule), rule.nocase, k);
    }
    assert(full_match(cont(rule.regex, rule.base, match_addr(rule), x as nat), Seq::empty(), rule.nocase));
    assert(w + Seq::<char>::empty() =~= w);
}

/// Each match that an attempt reports is a `Match` that its threads reach
/// after reading some characters `u`, whose encoding is the text that the
/// match covers.
pub proof fn lemma_scan_sound(p: Program, s: Seq<u8>, off: nat, threads: Set<usize>, m: MatchRecord) -> (res: (
    Seq<char>,
    usize,
))
    requires
        valid_utf8(s),
        scan(p, s, off, threads) matches Some(ms) && ms.contains(m),
    ensures
        off + encode_utf8(res.0).len() == m.len,
        encode_utf8(res.0).len() <= s.len(),
        s.take(encode_utf8(res.0).len() as int) == encode_utf8(res.0),
        run(p, threads, res.0).contains(res.1),
        match_at(p, res.1, m.rule),
    decreases s.len(),
{
    let c = closure(p, threads);
    let here = records_at(p, c, off);
    if here.contains(m) {
        let pc = choose|pc: usize| c.contains(pc) && #[trigger] match_at(p, pc, m.rule);
        assert(s.take(0) =~= encode_utf8(Seq::<char>::empty()));
        (Seq::empty(), pc)
    } else {
        let w = length_of_first_scalar(s);
        let ch = decode_first_scalar(s) as char;
        let rest = s.subrange(w, s.len() as int);
        let t2 = step(p, c, ch);
        let (u2, x) = lemma_scan_sound(p, rest, off + w as nat, t2, m);
        let u = seq![ch] + u2;
        assert(u[0] == ch);
        assert(u.drop_first() =~= u2);
        decode_utf8_first_scalar(s);
        assert(encode_utf8(u) == encode_scalar(ch as u32) + encode_utf8(u2));
        assert(s.take(encode_utf8(u).len() as int) =~= encode_utf8(u));
        (u, x)
    }
}

/// The text of a token that a rule made is text that the rule matches, for
/// one of the rules `rs` with the token's rule number.
pub open spec fn token_matches_rule(rs: Seq<Rule>, bytes: Seq<u8>, t: Token) -> bool {
    match t {
        Token::Append { begin, len, rule } => {
            let text = bytes.subrange(begin as int, begin + len);
            &&& valid_utf8(text)
            &&& exists|i: int|
                0 <= i < rs.len() && rs[i].number == rule && full_match(rs[i].regex, decode_utf8(text), rs[i].nocase)
        },
        Token::Skip { .. } => true,
    }
}

/// Every token that a rule made, from `pos` on, is text that the rule
/// matches.
pub proof fn lemma_tokens_sound(p: Program, rs: Seq<Rule>, bytes: Seq<u8>, pos: nat)
    requires
        rules_placed(p, rs),
        pos <= bytes.len(),
        bytes.len() <= usize::MAX,
        valid_utf8(suffix(bytes, pos as int)),
        tokens_from(p, bytes, pos) is Some,
    ensures
        forall|i: int|
            0 <= i < tokens_from(p, bytes, pos)->Some_0.len() ==> token_matches_rule(
                rs,
                bytes,
                #[trigger] tokens_from(p, bytes, pos)->Some_0[i],
            ),
    decreases bytes.len() - pos,
{
    if pos < bytes.len() {
        let sfx = suffix(bytes, pos as int);
        let ms = scan(p, sfx, 0, p.start_set())->Some_0;
        let ts = tokens_from(p, bytes, pos)->Some_0;
        let next: nat = if ms.is_empty() {
            (pos + length_of_first_scalar(sfx)) as nat
        } else {
            (pos + best_of(ms).len) as nat
        };
        if ms.is_empty() {
            assert(suffix(bytes, next as int) =~= sfx.subrange(length_of_first_scalar(sfx), sfx.len() as int));
        } else {
            let m = ms.choose();
            assert(ms.contains(m));
            lemma_append_is_best(p, bytes, pos, m);
            let t = ts[0];
            let rec = MatchRecord { len: t->Append_len, rule: t->Append_rule };
            let (u, x) = lemma_scan_sound(p, sfx, 0, p.start_set(), rec);
            lemma_match_sound(p, rs, u, x, rec.rule);
            let text = bytes.subrange(pos as int, pos + rec.len);
            assert(text =~= sfx.take(rec.len as int));
            encode_utf8_valid_utf8(u);
            encode_utf8_decode_utf8(u);
            assert(token_matches_rule(rs, bytes, t));
            lemma_scan_ends(p, sfx, 0, p.start_set(), rec);
            assert(suffix(bytes, next as int) =~= sfx.subrange(rec.len as int, sfx.len() as int));
        }
        lemma_tokens_sound(p, rs, bytes, next);
        let rest = tokens_from(p, bytes, next)->Some_0;
        assert forall|i: int| 0 <= i < ts.len() implies token_matches_rule(rs, bytes, #[trigger] ts[i]) by {
            if i > 0 {
                assert(ts[i] == rest[i - 1]);
            }
        }
    }
}

/// Every token that a rule made of a text is text that the rule matches.
pub proof fn lemma_text_tokens_sound(p: Program, rs: Seq<Rule>, text: &str)
    requires
        rules_placed(p, rs),
        text.spec_bytes().len() <= usize::MAX,
        tokens_of(p, text) is Some,
    ensures
        forall|i: int|
            0 <= i < tokens_of(p, text)->Some_0.len() ==> token_matches_rule(
                rs,
                text.spec_bytes(),
                #[trigger] tokens_of(p, text)->Some_0[i],
            ),
{
    encode_utf8_valid_utf8(text@);
    assert(suffix(text.spec_bytes(), 0) =~= text.spec_bytes());
    lemma_tokens_sound(p, rs, text.spec_bytes(), 0);
}

} // verus!
