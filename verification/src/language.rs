//! What a regular expression matches, and the proof that the code the
//! compiler makes for a rule reaches the rule's `Match` after reading any
//! text that the expression matches.

use vstd::prelude::*;
use crate::regex::Regex;
use crate::program::{ClassItem, Program, some_item_matches};
use crate::semantics::{
    lowercase, closure, step, consumes, split_edge, scan, records_at, match_at, lemma_closure_contains,
    lemma_closure_extend, lemma_closure_least,
};
use vstd::utf8::{
    encode_utf8, encode_scalar, encode_utf8_first_scalar, char_u32_cast, valid_first_scalar, decode_first_scalar,
    length_of_first_scalar,
};
use crate::match_record::MatchRecord;
use crate::text::suffix;
use crate::reinterp::{tokens_from, token_begin, lemma_skip_unmatched, lemma_append_is_best};
use crate::compile::{emit, entry, size, rule_code, Inst, inst_model, insts_model, lemma_emit_shape};

verus! {

/// A literal `c` accepts `ch`: the same character, or, ignoring case, one
/// with the same lowercase mapping.
pub open spec fn lit_ok(c: char, ch: char, nocase: bool) -> bool {
    ch == c || (nocase && lowercase(c) == lowercase(ch))
}

/// A class with these items (negated or not) holds of `ch`.
pub open spec fn class_holds(neg: bool, items: Seq<ClassItem>, ch: char) -> bool {
    if neg {
        !some_item_matches(items, ch)
    } else {
        some_item_matches(items, ch)
    }
}

/// A class accepts `ch`: it holds of it, or, ignoring case, of the first
/// character of its lowercase mapping.
pub open spec fn class_ok(neg: bool, items: Seq<ClassItem>, nocase: bool, ch: char) -> bool {
    class_holds(neg, items, ch) || (nocase && class_holds(neg, items, lowercase(ch)[0]))
}

/// `r` matches the whole of `w` (ignoring case in its character tests when
/// `nocase`).
pub open spec fn full_match(r: Regex, w: Seq<char>, nocase: bool) -> bool
    decreases r, 3nat, w.len(), 0nat,
{
    match r {
        Regex::Empty => w.len() == 0,
        Regex::Literal(c) => w.len() == 1 && lit_ok(c, w[0], nocase),
        Regex::Any => w.len() == 1,
        Regex::Class(neg, items) => w.len() == 1 && class_ok(neg, items, nocase, w[0]),
        Regex::Concat(_, _) => concat_split(r, w, nocase, w.len()),
        Regex::Alt(a, b) => full_match(*a, w, nocase) || full_match(*b, w, nocase),
        Regex::Star(a) => star_split(*a, w, nocase, w.len()),
        Regex::Plus(a) => plus_split(*a, w, nocase, w.len()),
        Regex::Opt(a) => w.len() == 0 || full_match(*a, w, nocase),
    }
}

/// For `r` a concatenation `a b`: for some `j <= k`, `a` matches the first
/// `j` characters of `w` and `b` the rest.
pub open spec fn concat_split(r: Regex, w: Seq<char>, nocase: bool, k: nat) -> bool
    decreases r, 2nat, w.len(), k,
{
    match r {
        Regex::Concat(a, b) => if k > w.len() {
            false
        } else {
            (full_match(*a, w.take(k as int), nocase) && full_match(*b, w.skip(k as int), nocase)) || (k > 0
                && concat_split(r, w, nocase, (k - 1) as nat))
        },
        _ => false,
    }
}

/// `w` is a sequence of pieces that `a` matches: empty, or, for some
/// `1 <= j <= k`, `a` matches the first `j` characters and the rest is again
/// such a sequence.
pub open spec fn star_split(a: Regex, w: Seq<char>, nocase: bool, k: nat) -> bool
    decreases a, 4nat, w.len(), k,
{
    if w.len() == 0 {
        true
    } else if k == 0 || k > w.len() {
        false
    } else {
        (full_match(a, w.take(k as int), nocase) && star_split(a, w.skip(k as int), nocase, (w.len() - k) as nat))
            || star_split(a, w, nocase, (k - 1) as nat)
    }
}

/// For some `j <= k`, `a` matches the first `j` characters of `w` and the
/// rest is a sequence of pieces that `a` matches.
pub open spec fn plus_split(a: Regex, w: Seq<char>, nocase: bool, k: nat) -> bool
    decreases a, 5nat, w.len(), k,
{
    if k > w.len() {
        false
    } else {
        (full_match(a, w.take(k as int), nocase) && star_split(a, w.skip(k as int), nocase, (w.len() - k) as nat))
            || (k > 0 && plus_split(a, w, nocase, (k - 1) as nat))
    }
}

/// The addresses at which the threads started at `threads` stand, closed
/// under `Split`s, once they have read the characters `w`.
pub open spec fn run(p: Program, threads: Set<usize>, w: Seq<char>) -> Set<usize>
    decreases w.len(),
{
    if w.len() == 0 {
        closure(p, threads)
    } else {
        run(p, step(p, closure(p, threads), w[0]), w.drop_first())
    }
}

/// More threads reach at least as much through `Split`s.
pub proof fn lemma_closure_mono(p: Program, t1: Set<usize>, t2: Set<usize>)
    requires
        t1.subset_of(t2),
    ensures
        closure(p, t1).subset_of(closure(p, t2)),
{
    assert forall|a: usize| t1.contains(a) implies closure(p, t2).contains(a) by {
        lemma_closure_contains(p, t2, a);
    }
    assert forall|a: usize, b: usize| closure(p, t2).contains(a) && split_edge(p, a, b) implies closure(
        p,
        t2,
    ).contains(b) by {
        lemma_closure_extend(p, t2, a, b);
    }
    lemma_closure_least(p, t1, closure(p, t2));
}

/// Taking the closure twice gives nothing more.
pub proof fn lemma_closure_idem(p: Program, t: Set<usize>)
    ensures
        closure(p, closure(p, t)) == closure(p, t),
{
    let c = closure(p, t);
    assert forall|a: usize, b: usize| c.contains(a) && split_edge(p, a, b) implies c.contains(b) by {
        lemma_closure_extend(p, t, a, b);
    }
    lemma_closure_least(p, c, c);
    assert forall|a: usize| c.contains(a) implies closure(p, c).contains(a) by {
        lemma_closure_contains(p, c, a);
    }
    assert(closure(p, c) =~= c);
}

/// More threads go on to at least as many addresses.
pub proof fn lemma_step_mono(p: Program, c1: Set<usize>, c2: Set<usize>, ch: char)
    requires
        c1.subset_of(c2),
    ensures
        step(p, c1, ch).subset_of(step(p, c2, ch)),
{
    assert forall|t: usize| step(p, c1, ch).contains(t) implies step(p, c2, ch).contains(t) by {
        let pc = choose|pc: usize| c1.contains(pc) && pc < p.insts@.len() && #[trigger] consumes(p.insts@[pc as int], ch, t);
        assert(c2.contains(pc));
    }
}

/// More threads end up at least at as many addresses.
pub proof fn lemma_run_mono(p: Program, t1: Set<usize>, t2: Set<usize>, w: Seq<char>)
    requires
        t1.subset_of(t2),
    ensures
        run(p, t1, w).subset_of(run(p, t2, w)),
    decreases w.len(),
{
    lemma_closure_mono(p, t1, t2);
    if w.len() > 0 {
        lemma_step_mono(p, closure(p, t1), closure(p, t2), w[0]);
        lemma_run_mono(p, step(p, closure(p, t1), w[0]), step(p, closure(p, t2), w[0]), w.drop_first());
    }
}

/// Starting from the closure of the threads is the same as starting from them.
pub proof fn lemma_run_closure(p: Program, t: Set<usize>, w: Seq<char>)
    ensures
        run(p, closure(p, t), w) == run(p, t, w),
{
    lemma_closure_idem(p, t);
}

/// Reading `u` and then `v` ends up where reading `u + v` does.
pub proof fn lemma_run_cat(p: Program, t: Set<usize>, u: Seq<char>, v: Seq<char>)
    ensures
        run(p, run(p, t, u), v).subset_of(run(p, t, u + v)),
    decreases u.len(),
{
    if u.len() == 0 {
        lemma_run_closure(p, t, v);
        assert(u + v =~= v);
    } else {
        let t2 = step(p, closure(p, t), u[0]);
        lemma_run_cat(p, t2, u.drop_first(), v);
        assert((u + v)[0] == u[0]);
        assert((u + v).drop_first() =~= u.drop_first() + v);
    }
}

/// A thread that the others reach through `Split`s ends up nowhere they do
/// not.
pub proof fn lemma_run_eps(p: Program, t: Set<usize>, y: usize, w: Seq<char>)
    requires
        closure(p, t).contains(y),
    ensures
        run(p, set![y], w).subset_of(run(p, t, w)),
{
    lemma_run_mono(p, set![y], closure(p, t), w);
    lemma_run_closure(p, t, w);
}

/// The fragment of `r`, placed at `base` and going on at `next`, stands in
/// the program `p`.
pub open spec fn placed(p: Program, r: Regex, base: nat, next: nat, nocase: bool) -> bool {
    &&& p.insts@.len() <= usize::MAX
    &&& base + size(r) <= p.insts@.len()
    &&& next < p.insts@.len()
    &&& insts_model(p.insts@).subrange(base as int, (base + size(r)) as int) == emit(r, base, next, nocase)
}

/// A concatenation's match splits into a match of each part.
pub(crate) proof fn lemma_concat_split(r: Regex, w: Seq<char>, nocase: bool, k: nat) -> (j: int)
    requires
        concat_split(r, w, nocase, k),
    ensures
        r matches Regex::Concat(a, b) && 0 <= j <= w.len() && full_match(*a, w.take(j), nocase) && full_match(
            *b,
            w.skip(j),
            nocase,
        ),
    decreases k,
{
    match r {
        Regex::Concat(a, b) => {
            if full_match(*a, w.take(k as int), nocase) && full_match(*b, w.skip(k as int), nocase) {
                k as int
            } else {
                lemma_concat_split(r, w, nocase, (k - 1) as nat)
            }
        },
        _ => 0,
    }
}

/// A nonempty sequence of pieces starts with a nonempty piece.
pub(crate) proof fn lemma_star_split(a: Regex, w: Seq<char>, nocase: bool, k: nat) -> (j: int)
    requires
        star_split(a, w, nocase, k),
        w.len() > 0,
    ensures
        1 <= j <= w.len(),
        full_match(a, w.take(j), nocase),
        star_split(a, w.skip(j), nocase, (w.len() - j) as nat),
    decreases k,
{
    if full_match(a, w.take(k as int), nocase) && star_split(a, w.skip(k as int), nocase, (w.len() - k) as nat) {
        k as int
    } else {
        lemma_star_split(a, w, nocase, (k - 1) as nat)
    }
}

/// A match of `+` is a piece followed by a sequence of pieces.
pub(crate) proof fn lemma_plus_split(a: Regex, w: Seq<char>, nocase: bool, k: nat) -> (j: int)
    requires
        plus_split(a, w, nocase, k),
    ensures
        0 <= j <= w.len(),
        full_match(a, w.take(j), nocase),
        star_split(a, w.skip(j), nocase, (w.len() - j) as nat),
    decreases k,
{
    if full_match(a, w.take(k as int), nocase) && star_split(a, w.skip(k as int), nocase, (w.len() - k) as nat) {
        k as int
    } else {
        lemma_plus_split(a, w, nocase, (k - 1) as nat)
    }
}

/// A thread at `pc` reading `ch` and going on at `t`: `t` is where the
/// threads at `pc` stand after reading `ch`.
proof fn lemma_run_one(p: Program, pc: usize, ch: char, t: usize)
    requires
        pc < p.insts@.len(),
        consumes(p.insts@[pc as int], ch, t),
    ensures
        run(p, set![pc], seq![ch]).contains(t),
{
    lemma_closure_contains(p, set![pc], pc);
    let c = closure(p, set![pc]);
    assert(step(p, c, ch).contains(t));
    lemma_closure_contains(p, step(p, c, ch), t);
    assert(seq![ch].drop_first() =~= Seq::<char>::empty());
    assert(run(p, step(p, c, ch), Seq::<char>::empty()) == closure(p, step(p, c, ch)));
}

/// A `Split` at `at` that leads to `t`: threads at `t` end up nowhere the
/// threads at `at` do not.
proof fn lemma_run_split(p: Program, at: usize, t: usize, w: Seq<char>)
    requires
        split_edge(p, at, t),
    ensures
        run(p, set![t], w).subset_of(run(p, set![at], w)),
{
    lemma_closure_contains(p, set![at], at);
    lemma_closure_extend(p, set![at], at, t);
    lemma_run_eps(p, set![at], t, w);
}

/// The instruction at `base + k` of a placed fragment is the `k`-th of its
/// code.
proof fn lemma_placed_at(p: Program, r: Regex, base: nat, next: nat, nocase: bool, k: int)
    requires
        placed(p, r, base, next, nocase),
        0 <= k < size(r),
    ensures
        inst_model(p.insts@[base + k]) == emit(r, base, next, nocase)[k],
{
    let m = insts_model(p.insts@);
    assert(m.subrange(base as int, (base + size(r)) as int)[k] == m[base + k]);
}

/// A part of a placed fragment's code, at `off` within it, is placed too.
proof fn lemma_placed_part(
    p: Program,
    r: Regex,
    base: nat,
    next: nat,
    nocase: bool,
    a: Regex,
    off: nat,
    anext: nat,
)
    requires
        placed(p, r, base, next, nocase),
        off + size(a) <= size(r),
        anext < p.insts@.len(),
        emit(r, base, next, nocase).subrange(off as int, (off + size(a)) as int) == emit(a, base + off, anext, nocase),
    ensures
        placed(p, a, base + off, anext, nocase),
{
    let m = insts_model(p.insts@);
    let e = emit(r, base, next, nocase);
    assert(m.subrange((base + off) as int, (base + off + size(a)) as int) =~= e.subrange(
        off as int,
        (off + size(a)) as int,
    ));
}

/// Completeness of the translation: the threads started at the entry of a
/// placed fragment of `r` reach the fragment's `next` after reading any text
/// that `r` matches.
pub proof fn lemma_emit_complete(p: Program, r: Regex, base: nat, next: nat, nocase: bool, w: Seq<char>)
    requires
        placed(p, r, base, next, nocase),
        full_match(r, w, nocase),
    ensures
        run(p, set![entry(r, base, next) as usize], w).contains(next as usize),
    decreases r, 2nat, w.len(),
{
    match r {
        Regex::Empty => {
            lemma_closure_contains(p, set![next as usize], next as usize);
        },
        Regex::Concat(_, _) => lemma_concat_complete(p, r, base, next, nocase, w),
        Regex::Alt(_, _) => lemma_alt_complete(p, r, base, next, nocase, w),
        Regex::Star(_) => lemma_star_complete(p, r, base, next, nocase, w),
        Regex::Plus(_) => lemma_plus_complete(p, r, base, next, nocase, w),
        Regex::Opt(_) => lemma_opt_complete(p, r, base, next, nocase, w),
        _ => lemma_char_complete(p, r, base, next, nocase, w),
    }
}

/// A single-character fragment reads the one character it matches.
proof fn lemma_char_complete(p: Program, r: Regex, base: nat, next: nat, nocase: bool, w: Seq<char>)
    requires
        placed(p, r, base, next, nocase),
        full_match(r, w, nocase),
        r is Literal || r is Any || r is Class,
    ensures
        run(p, set![entry(r, base, next) as usize], w).contains(next as usize),
{
    lemma_placed_at(p, r, base, next, nocase, 0);
    assert(consumes(p.insts@[base as int], w[0], next as usize));
    lemma_run_one(p, base as usize, w[0], next as usize);
    assert(w =~= seq![w[0]]);
}

proof fn lemma_concat_complete(p: Program, r: Regex, base: nat, next: nat, nocase: bool, w: Seq<char>)
    requires
        placed(p, r, base, next, nocase),
        full_match(r, w, nocase),
        r is Concat,
    ensures
        run(p, set![entry(r, base, next) as usize], w).contains(next as usize),
    decreases r, 1nat, w.len(),
{
    let n = p.insts@.len();
    lemma_emit_shape(r, base, next, nocase, n);
    let e = emit(r, base, next, nocase);
    match r {
        Regex::Concat(a, b) => {
            let j = lemma_concat_split(r, w, nocase, w.len());
            let u = w.take(j);
            let v = w.skip(j);
            let nb = entry(*b, base + size(*a), next);
            lemma_emit_shape(*b, base + size(*a), next, nocase, n);
            lemma_emit_shape(*a, base, nb, nocase, n);
            assert(e.subrange(0, size(*a) as int) =~= emit(*a, base, nb, nocase));
            assert(e.subrange(size(*a) as int, (size(*a) + size(*b)) as int) =~= emit(
                *b,
                base + size(*a),
                next,
                nocase,
            ));
            lemma_placed_part(p, r, base, next, nocase, *a, 0, nb);
            lemma_placed_part(p, r, base, next, nocase, *b, size(*a), next);
            let ea = entry(*a, base, nb);
            lemma_emit_complete(p, *a, base, nb, nocase, u);
            lemma_emit_complete(p, *b, base + size(*a), next, nocase, v);
            lemma_run_mono(p, set![nb as usize], run(p, set![ea as usize], u), v);
            lemma_run_cat(p, set![ea as usize], u, v);
            assert(u + v =~= w);
        },
        _ => {},
    }
}

proof fn lemma_alt_complete(p: Program, r: Regex, base: nat, next: nat, nocase: bool, w: Seq<char>)
    requires
        placed(p, r, base, next, nocase),
        full_match(r, w, nocase),
        r is Alt,
    ensures
        run(p, set![entry(r, base, next) as usize], w).contains(next as usize),
    decreases r, 1nat, w.len(),
{
    let n = p.insts@.len();
    lemma_emit_shape(r, base, next, nocase, n);
    let e = emit(r, base, next, nocase);
    match r {
        Regex::Alt(a, b) => {
            let ea = entry(*a, base + 1, next);
            let eb = entry(*b, base + 1 + size(*a), next);
            lemma_emit_shape(*a, base + 1, next, nocase, n);
            lemma_emit_shape(*b, base + 1 + size(*a), next, nocase, n);
            lemma_placed_at(p, r, base, next, nocase, 0);
            if full_match(*a, w, nocase) {
                assert(e.subrange(1, (1 + size(*a)) as int) =~= emit(*a, base + 1, next, nocase));
                lemma_placed_part(p, r, base, next, nocase, *a, 1, next);
                lemma_emit_complete(p, *a, base + 1, next, nocase, w);
                assert(split_edge(p, base as usize, ea as usize));
                lemma_run_split(p, base as usize, ea as usize, w);
            } else {
                assert(e.subrange((1 + size(*a)) as int, (1 + size(*a) + size(*b)) as int) =~= emit(
                    *b,
                    base + 1 + size(*a),
                    next,
                    nocase,
                ));
                lemma_placed_part(p, r, base, next, nocase, *b, 1 + size(*a), next);
                lemma_emit_complete(p, *b, base + 1 + size(*a), next, nocase, w);
                assert(split_edge(p, base as usize, eb as usize));
                lemma_run_split(p, base as usize, eb as usize, w);
            }
        },
        _ => {},
    }
}

proof fn lemma_star_complete(p: Program, r: Regex, base: nat, next: nat, nocase: bool, w: Seq<char>)
    requires
        placed(p, r, base, next, nocase),
        full_match(r, w, nocase),
        r is Star,
    ensures
        run(p, set![entry(r, base, next) as usize], w).contains(next as usize),
    decreases r, 1nat, w.len(),
{
    let n = p.insts@.len();
    lemma_emit_shape(r, base, next, nocase, n);
    let e = emit(r, base, next, nocase);
    match r {
        Regex::Star(a) => {
            lemma_emit_shape(*a, base + 1, base, nocase, n);
            assert(e.subrange(1, (1 + size(*a)) as int) =~= emit(*a, base + 1, base, nocase));
            lemma_placed_part(p, r, base, next, nocase, *a, 1, base);
            lemma_placed_at(p, r, base, next, nocase, 0);
            lemma_loop_complete(p, r, *a, base + 1, base, next, nocase, w);
        },
        _ => {},
    }
}

proof fn lemma_plus_complete(p: Program, r: Regex, base: nat, next: nat, nocase: bool, w: Seq<char>)
    requires
        placed(p, r, base, next, nocase),
        full_match(r, w, nocase),
        r is Plus,
    ensures
        run(p, set![entry(r, base, next) as usize], w).contains(next as usize),
    decreases r, 1nat, w.len(),
{
    let n = p.insts@.len();
    lemma_emit_shape(r, base, next, nocase, n);
    let e = emit(r, base, next, nocase);
    match r {
        Regex::Plus(a) => {
            let at = base + size(*a);
            lemma_emit_shape(*a, base, at, nocase, n);
            assert(e.subrange(0, size(*a) as int) =~= emit(*a, base, at, nocase));
            lemma_placed_part(p, r, base, next, nocase, *a, 0, at);
            lemma_placed_at(p, r, base, next, nocase, size(*a) as int);
            let j = lemma_plus_split(*a, w, nocase, w.len());
            let u = w.take(j);
            let v = w.skip(j);
            let ea = entry(*a, base, at);
            lemma_emit_complete(p, *a, base, at, nocase, u);
            lemma_loop_complete(p, r, *a, base, at, next, nocase, v);
            lemma_run_mono(p, set![at as usize], run(p, set![ea as usize], u), v);
            lemma_run_cat(p, set![ea as usize], u, v);
            assert(u + v =~= w);
        },
        _ => {},
    }
}

proof fn lemma_opt_complete(p: Program, r: Regex, base: nat, next: nat, nocase: bool, w: Seq<char>)
    requires
        placed(p, r, base, next, nocase),
        full_match(r, w, nocase),
        r is Opt,
    ensures
        run(p, set![entry(r, base, next) as usize], w).contains(next as usize),
    decreases r, 1nat, w.len(),
{
    let n = p.insts@.len();
    lemma_emit_shape(r, base, next, nocase, n);
    let e = emit(r, base, next, nocase);
    match r {
        Regex::Opt(a) => {
            let ea = entry(*a, base + 1, next);
            lemma_emit_shape(*a, base + 1, next, nocase, n);
            lemma_placed_at(p, r, base, next, nocase, 0);
            if w.len() == 0 {
                assert(split_edge(p, base as usize, next as usize));
                lemma_closure_contains(p, set![base as usize], base as usize);
                lemma_closure_extend(p, set![base as usize], base as usize, next as usize);
            } else {
                assert(e.subrange(1, (1 + size(*a)) as int) =~= emit(*a, base + 1, next, nocase));
                lemma_placed_part(p, r, base, next, nocase, *a, 1, next);
                lemma_emit_complete(p, *a, base + 1, next, nocase, w);
                assert(split_edge(p, base as usize, ea as usize));
                lemma_run_split(p, base as usize, ea as usize, w);
            }
        },
        _ => {},
    }
}

/// The loop of `*` and `+`: a `Split` at `at` that leads into the fragment of
/// `a`, which goes on at `at` again, and out to `next`. Its threads reach
/// `next` after reading any sequence of pieces that `a` matches.
proof fn lemma_loop_complete(
    p: Program,
    outer: Regex,
    a: Regex,
    abase: nat,
    at: nat,
    next: nat,
    nocase: bool,
    w: Seq<char>,
)
    requires
        outer == Regex::Star(Box::new(a)) || outer == Regex::Plus(Box::new(a)),
        placed(p, a, abase, at, nocase),
        at < p.insts@.len(),
        inst_model(p.insts@[at as int]) == Inst::Split(entry(a, abase, at), next),
        star_split(a, w, nocase, w.len()),
    ensures
        run(p, set![at as usize], w).contains(next as usize),
    decreases outer, 0nat, w.len(),
{
    let n = p.insts@.len();
    lemma_emit_shape(a, abase, at, nocase, n);
    let ea = entry(a, abase, at);
    assert(split_edge(p, at as usize, ea as usize));
    assert(split_edge(p, at as usize, next as usize));
    if w.len() == 0 {
        lemma_closure_contains(p, set![at as usize], at as usize);
        lemma_closure_extend(p, set![at as usize], at as usize, next as usize);
    } else {
        let j = lemma_star_split(a, w, nocase, w.len());
        let u = w.take(j);
        let v = w.skip(j);
        match outer {
            Regex::Star(inner) => {
                lemma_emit_complete(p, *inner, abase, at, nocase, u);
            },
            Regex::Plus(inner) => {
                lemma_emit_complete(p, *inner, abase, at, nocase, u);
            },
            _ => {},
        }
        lemma_loop_complete(p, outer, a, abase, at, next, nocase, v);
        lemma_run_mono(p, set![at as usize], run(p, set![ea as usize], u), v);
        lemma_run_cat(p, set![ea as usize], u, v);
        assert(u + v =~= w);
        lemma_run_split(p, at as usize, ea as usize, w);
    }
}

/// No threads end up nowhere.
proof fn lemma_run_empty(p: Program, w: Seq<char>)
    ensures
        run(p, Set::empty(), w) == Set::<usize>::empty(),
    decreases w.len(),
{
    assert(closure(p, Set::empty()) =~= Set::<usize>::empty());
    if w.len() > 0 {
        assert(step(p, Set::empty(), w[0]) =~= Set::<usize>::empty());
        lemma_run_empty(p, w.drop_first());
    }
}

/// Text that starts with the encoding of `w` starts with the encoding of
/// `w[0]`, and the rest is the encoding of the rest of `w` followed by what
/// came after.
proof fn lemma_first_scalar_of(w: Seq<char>, rest: Seq<u8>)
    requires
        w.len() > 0,
    ensures
        valid_first_scalar(encode_utf8(w) + rest),
        decode_first_scalar(encode_utf8(w) + rest) as char == w[0],
        length_of_first_scalar(encode_utf8(w) + rest) == encode_scalar(w[0] as u32).len(),
        (encode_utf8(w) + rest).subrange(
            encode_scalar(w[0] as u32).len() as int,
            (encode_utf8(w) + rest).len() as int,
        ) == encode_utf8(w.drop_first()) + rest,
{
    encode_utf8_first_scalar(w);
    let e = encode_utf8(w);
    let s = e + rest;
    let head = encode_scalar(w[0] as u32);
    assert(e == head + encode_utf8(w.drop_first()));
    assert(1 <= head.len() <= 4);
    assert forall|i: int| 0 <= i < e.len() implies s[i] == e[i] by {}
    assert(s[0] == e[0]);
    if e.len() > 1 {
        assert(s[1] == e[1]);
    }
    if e.len() > 2 {
        assert(s[2] == e[2]);
    }
    if e.len() > 3 {
        assert(s[3] == e[3]);
    }
    char_u32_cast(w[0], decode_first_scalar(e));
    assert(s.subrange(head.len() as int, s.len() as int) =~= encode_utf8(w.drop_first()) + rest);
}

/// A match attempt reports every rule whose `Match` its threads reach after
/// reading the characters `w`, with the length of their encoding.
pub proof fn lemma_scan_run(
    p: Program,
    w: Seq<char>,
    rest: Seq<u8>,
    off: nat,
    threads: Set<usize>,
    pc: usize,
    m: MatchRecord,
)
    requires
        scan(p, encode_utf8(w) + rest, off, threads) is Some,
        run(p, threads, w).contains(pc),
        match_at(p, pc, m.rule),
        m.len == off + encode_utf8(w).len(),
    ensures
        scan(p, encode_utf8(w) + rest, off, threads)->Some_0.contains(m),
    decreases w.len(),
{
    let s = encode_utf8(w) + rest;
    if threads.is_empty() {
        assert(threads =~= Set::<usize>::empty());
        lemma_run_empty(p, w);
    } else {
        let c = closure(p, threads);
        if w.len() == 0 {
            assert(s =~= rest);
            assert(records_at(p, c, off).contains(m));
        } else {
            lemma_first_scalar_of(w, rest);
            let len = encode_scalar(w[0] as u32).len();
            assert(encode_utf8(w).len() == len + encode_utf8(w.drop_first()).len());
            lemma_scan_run(p, w.drop_first(), rest, off + len, step(p, c, w[0]), pc, m);
        }
    }
}

/// The code of rule number `rule`, the expression `r`, stands in the program
/// `p` at `base`, and its entry is one of the program's entry points.
pub open spec fn rule_placed(p: Program, r: Regex, base: nat, nocase: bool, rule: usize) -> bool {
    &&& p.insts@.len() <= usize::MAX
    &&& base + size(r) + 1 <= p.insts@.len()
    &&& insts_model(p.insts@).subrange(base as int, (base + size(r) + 1) as int) == rule_code(
        r,
        base,
        nocase,
        rule as nat,
    )
    &&& p.start_set().contains(entry(r, base, base + size(r)) as usize)
}

/// Every rule has its say: where rule `rule`, the expression `r`, matches the
/// characters `w` and the text at byte `pos` starts with their encoding, the
/// tokenizer makes a token at `pos` (it does not skip the character), and
/// that token is at least as long as the match, and made by a rule numbered
/// no higher than `rule` where it is just as long.
pub proof fn lemma_rule_match_has_token(
    p: Program,
    r: Regex,
    base: nat,
    nocase: bool,
    rule: usize,
    bytes: Seq<u8>,
    pos: nat,
    w: Seq<char>,
)
    requires
        rule_placed(p, r, base, nocase, rule),
        full_match(r, w, nocase),
        bytes.len() <= usize::MAX,
        pos < bytes.len(),
        pos + encode_utf8(w).len() <= bytes.len(),
        bytes.subrange(pos as int, (pos + encode_utf8(w).len()) as int) == encode_utf8(w),
        tokens_from(p, bytes, pos) is Some,
    ensures
        ({
            let t = tokens_from(p, bytes, pos)->Some_0[0];
            &&& tokens_from(p, bytes, pos)->Some_0.len() > 0
            &&& t is Append
            &&& token_begin(t) == pos
            &&& t->Append_len >= encode_utf8(w).len()
            &&& t->Append_len == encode_utf8(w).len() ==> t->Append_rule <= rule
        }),
{
    let n = p.insts@.len();
    let len = encode_utf8(w).len();
    let next = base + size(r);
    let code = rule_code(r, base, nocase, rule as nat);
    let m = insts_model(p.insts@);
    lemma_emit_shape(r, base, next, nocase, n);
    assert(m.subrange(base as int, next as int) =~= code.subrange(0, size(r) as int));
    assert(code.subrange(0, size(r) as int) =~= emit(r, base, next, nocase));
    assert(placed(p, r, base, next, nocase));
    assert(m.subrange(base as int, (next + 1) as int)[size(r) as int] == m[next as int]);
    assert(match_at(p, next as usize, rule));
    let e = entry(r, base, next) as usize;
    lemma_emit_complete(p, r, base, next, nocase, w);
    assert(set![e].subset_of(p.start_set()));
    lemma_run_mono(p, set![e], p.start_set(), w);
    let sfx = suffix(bytes, pos as int);
    let rest = sfx.subrange(len as int, sfx.len() as int);
    assert(sfx =~= encode_utf8(w) + rest);
    let ts = tokens_from(p, bytes, pos)->Some_0;
    let ms = scan(p, sfx, 0, p.start_set())->Some_0;
    let rec = MatchRecord { len: len as usize, rule: rule };
    lemma_scan_run(p, w, rest, 0, p.start_set(), next as usize, rec);
    assert(ms.contains(rec));
    if ts[0] is Skip {
        lemma_skip_unmatched(p, bytes, pos);
    }
    lemma_append_is_best(p, bytes, pos, rec);
}

/// Appending code and entry points to a program keeps the rules already
/// placed in it.
pub proof fn lemma_rule_placed_kept(
    p: Program,
    q: Program,
    extra: Seq<Inst>,
    r: Regex,
    base: nat,
    nocase: bool,
    rule: usize,
)
    requires
        rule_placed(p, r, base, nocase, rule),
        q.insts@.len() <= usize::MAX,
        insts_model(q.insts@) == insts_model(p.insts@) + extra,
        p.start_set().subset_of(q.start_set()),
    ensures
        rule_placed(q, r, base, nocase, rule),
{
    let end = base + size(r) + 1;
    assert(insts_model(q.insts@).len() == q.insts@.len());
    assert(insts_model(p.insts@).len() == p.insts@.len());
    assert(insts_model(q.insts@).subrange(base as int, end as int) =~= insts_model(p.insts@).subrange(
        base as int,
        end as int,
    ));
}

} // verus!
