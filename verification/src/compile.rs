//! Translating parsed regular expressions into virtual machine code.
//!
//! Each expression becomes a fragment of code placed at a known address
//! (`base`) whose threads go on at a given address (`next`) once the
//! expression has matched; a rule is its fragment followed by a `Match`.

use vstd::prelude::*;
use crate::program::{
    ClassItem, CharClassData, CharClassInst, CharData, AnyCharData, MatchData, Instruction, Program,
    inst_targets_below,
};
use crate::regex::{Regex, Term};

verus! {

/// An instruction, as a mathematical value.
pub ghost enum Inst {
    Char(char, bool, nat),
    AnyChar(nat),
    CharClass(bool, Seq<ClassItem>, bool, nat),
    Match(nat),
    Split(nat, nat),
}

/// The mathematical value of an instruction.
pub open spec fn inst_model(i: Instruction) -> Inst {
    match i {
        Instruction::Char(d) => Inst::Char(d.ch, d.nocase, d.goto as nat),
        Instruction::AnyChar(d) => Inst::AnyChar(d.goto as nat),
        Instruction::CharClass(d) => Inst::CharClass(d.data.negated, d.data.items@, d.nocase, d.goto as nat),
        Instruction::Match(d) => Inst::Match(d.rule_id as nat),
        Instruction::Split(a, b) => Inst::Split(a as nat, b as nat),
    }
}

/// The mathematical value of a list of instructions.
pub open spec fn insts_model(insts: Seq<Instruction>) -> Seq<Inst> {
    insts.map_values(|i: Instruction| inst_model(i))
}

/// Number of instructions in the fragment of `r`.
pub open spec fn size(r: Regex) -> nat
    decreases r,
{
    match r {
        Regex::Empty => 0,
        Regex::Literal(_) => 1,
        Regex::Any => 1,
        Regex::Class(_, _) => 1,
        Regex::Concat(a, b) => size(*a) + size(*b),
        Regex::Alt(a, b) => 1 + size(*a) + size(*b),
        Regex::Star(a) => 1 + size(*a),
        Regex::Plus(a) => size(*a) + 1,
        Regex::Opt(a) => 1 + size(*a),
    }
}

/// Where the threads of the fragment of `r`, placed at `base` and going on at
/// `next`, start.
pub open spec fn entry(r: Regex, base: nat, next: nat) -> nat
    decreases r,
{
    match r {
        Regex::Empty => next,
        Regex::Concat(a, b) => entry(*a, base, entry(*b, base + size(*a), next)),
        Regex::Plus(a) => entry(*a, base, base + size(*a)),
        _ => base,
    }
}

/// The code of the fragment of `r`, placed at `base` and going on at `next`;
/// `nocase` makes its character tests ignore case.
///
/// Concatenation chains the fragments; alternation and `?` split into their
/// choices; `*` splits between its body, which loops back, and `next`; `+`
/// runs its body, then splits between running it again and `next`.
pub open spec fn emit(r: Regex, base: nat, next: nat, nocase: bool) -> Seq<Inst>
    decreases r,
{
    match r {
        Regex::Empty => Seq::empty(),
        Regex::Literal(c) => seq![Inst::Char(c, nocase, next)],
        Regex::Any => seq![Inst::AnyChar(next)],
        Regex::Class(neg, items) => seq![Inst::CharClass(neg, items, nocase, next)],
        Regex::Concat(a, b) => emit(*a, base, entry(*b, base + size(*a), next), nocase) + emit(
            *b,
            base + size(*a),
            next,
            nocase,
        ),
        Regex::Alt(a, b) => seq![
            Inst::Split(entry(*a, base + 1, next), entry(*b, base + 1 + size(*a), next)),
        ] + emit(*a, base + 1, next, nocase) + emit(*b, base + 1 + size(*a), next, nocase),
        Regex::Star(a) => seq![Inst::Split(entry(*a, base + 1, base), next)] + emit(
            *a,
            base + 1,
            base,
            nocase,
        ),
        Regex::Plus(a) => emit(*a, base, base + size(*a), nocase) + seq![
            Inst::Split(entry(*a, base, base + size(*a)), next),
        ],
        Regex::Opt(a) => seq![Inst::Split(entry(*a, base + 1, next), next)] + emit(*a, base + 1, next, nocase),
    }
}

/// The code of a rule: the fragment of `r` at `base`, then a `Match` of rule
/// `rule` right after it.
pub open spec fn rule_code(r: Regex, base: nat, nocase: bool, rule: nat) -> Seq<Inst> {
    emit(r, base, base + size(r), nocase) + seq![Inst::Match(rule)]
}

/// Every address that an instruction can hand control to lies below `n`.
pub open spec fn targets_below(i: Inst, n: nat) -> bool {
    match i {
        Inst::Char(_, _, g) => g < n,
        Inst::AnyChar(g) => g < n,
        Inst::CharClass(_, _, _, g) => g < n,
        Inst::Match(_) => true,
        Inst::Split(a, b) => a < n && b < n,
    }
}

/// The fragment has `size(r)` instructions, its entry is `next` or inside it,
/// and its instructions hand control only to addresses inside it or to
/// `next`.
pub proof fn lemma_emit_shape(r: Regex, base: nat, next: nat, nocase: bool, n: nat)
    requires
        base + size(r) <= n,
        next < n,
    ensures
        emit(r, base, next, nocase).len() == size(r),
        entry(r, base, next) == next || base <= entry(r, base, next) < base + size(r),
        forall|k: int| 0 <= k < size(r) ==> targets_below(#[trigger] emit(r, base, next, nocase)[k], n),
    decreases r,
{
    match r {
        Regex::Concat(a, b) => {
            lemma_emit_shape(*b, base + size(*a), next, nocase, n);
            let nb = entry(*b, base + size(*a), next);
            lemma_emit_shape(*a, base, nb, nocase, n);
            let ea = emit(*a, base, nb, nocase);
            let eb = emit(*b, base + size(*a), next, nocase);
            assert forall|k: int| 0 <= k < size(r) implies targets_below(#[trigger] emit(r, base, next, nocase)[k], n) by {
                if k < size(*a) {
                    assert(emit(r, base, next, nocase)[k] == ea[k]);
                } else {
                    assert(emit(r, base, next, nocase)[k] == eb[k - size(*a)]);
                }
            }
        },
        Regex::Alt(a, b) => {
            lemma_emit_shape(*a, base + 1, next, nocase, n);
            lemma_emit_shape(*b, base + 1 + size(*a), next, nocase, n);
            let ea = emit(*a, base + 1, next, nocase);
            let eb = emit(*b, base + 1 + size(*a), next, nocase);
            let head = seq![Inst::Split(entry(*a, base + 1, next), entry(*b, base + 1 + size(*a), next))];
            assert forall|k: int| 0 <= k < size(r) implies targets_below(#[trigger] emit(r, base, next, nocase)[k], n) by {
                if k == 0 {
                } else if k < 1 + size(*a) {
                    assert(emit(r, base, next, nocase)[k] == ea[k - 1]);
                } else {
                    assert(emit(r, base, next, nocase)[k] == eb[k - 1 - size(*a)]);
                }
            }
        },
        Regex::Star(a) => {
            lemma_emit_shape(*a, base + 1, base, nocase, n);
            let ea = emit(*a, base + 1, base, nocase);
            assert forall|k: int| 0 <= k < size(r) implies targets_below(#[trigger] emit(r, base, next, nocase)[k], n) by {
                if k > 0 {
                    assert(emit(r, base, next, nocase)[k] == ea[k - 1]);
                }
            }
        },
        Regex::Plus(a) => {
            lemma_emit_shape(*a, base, base + size(*a), nocase, n);
            let ea = emit(*a, base, base + size(*a), nocase);
            assert forall|k: int| 0 <= k < size(r) implies targets_below(#[trigger] emit(r, base, next, nocase)[k], n) by {
                if k < size(*a) {
                    assert(emit(r, base, next, nocase)[k] == ea[k]);
                }
            }
        },
        Regex::Opt(a) => {
            lemma_emit_shape(*a, base + 1, next, nocase, n);
            let ea = emit(*a, base + 1, next, nocase);
            assert forall|k: int| 0 <= k < size(r) implies targets_below(#[trigger] emit(r, base, next, nocase)[k], n) by {
                if k > 0 {
                    assert(emit(r, base, next, nocase)[k] == ea[k - 1]);
                }
            }
        },
        _ => {},
    }
}

/// Whether an instruction hands control only below `n` is read off its model.
proof fn lemma_targets_model(i: Instruction, n: nat)
    ensures
        inst_targets_below(i, n) == targets_below(inst_model(i), n),
{
}

/// Models of a list with one more instruction.
proof fn lemma_insts_model_push(insts: Seq<Instruction>, i: Instruction)
    ensures
        insts_model(insts.push(i)) == insts_model(insts).push(inst_model(i)),
{
    assert(insts_model(insts.push(i)) =~= insts_model(insts).push(inst_model(i)));
}

/// Number of instructions of the fragment of `t`, or `None` when that is not
/// below `usize::MAX`.
pub fn term_size(t: &Term) -> (r: Option<usize>)
    ensures
        r matches Some(n) ==> n == size(t.model()) && n < usize::MAX,
        r is None ==> size(t.model()) >= usize::MAX,
    decreases t,
{
    match t {
        Term::Empty => Some(0),
        Term::Literal(_) => Some(1),
        Term::Any => Some(1),
        Term::Class(_) => Some(1),
        Term::Concat(a, b) => match (term_size(a), term_size(b)) {
            (Some(na), Some(nb)) => if na < usize::MAX - nb {
                Some(na + nb)
            } else {
                None
            },
            _ => None,
        },
        Term::Alt(a, b) => match (term_size(a), term_size(b)) {
            (Some(na), Some(nb)) => if nb < usize::MAX - 1 && na < usize::MAX - 1 - nb {
                Some(1 + na + nb)
            } else {
                None
            },
            _ => None,
        },
        Term::Star(a) | Term::Plus(a) | Term::Opt(a) => match term_size(a) {
            Some(na) => if na < usize::MAX - 1 {
                Some(na + 1)
            } else {
                None
            },
            None => None,
        },
    }
}

/// The size of a term known to be below `usize::MAX`.
fn known_size(t: &Term) -> (n: usize)
    requires
        size(t.model()) < usize::MAX,
    ensures
        n == size(t.model()),
{
    match term_size(t) {
        Some(n) => n,
        None => 0,
    }
}

/// Where the threads of the fragment of `t` at `base`, going on at `next`,
/// start.
fn term_entry(t: &Term, base: usize, next: usize) -> (e: usize)
    requires
        base + size(t.model()) < usize::MAX,
        next < usize::MAX,
    ensures
        e == entry(t.model(), base as nat, next as nat),
    decreases t,
{
    match t {
        Term::Empty => next,
        Term::Concat(a, b) => {
            let sa = known_size(a);
            let nb = term_entry(b, base + sa, next);
            proof {
                lemma_emit_shape(b.model(), (base + sa) as nat, next as nat, false, usize::MAX as nat);
            }
            term_entry(a, base, nb)
        },
        Term::Plus(a) => {
            let sa = known_size(a);
            term_entry(a, base, base + sa)
        },
        _ => base,
    }
}

/// A copy of a character class.
fn copy_class(d: &CharClassData) -> (c: CharClassData)
    ensures
        c.negated == d.negated,
        c.items@ == d.items@,
{
    let mut items: Vec<ClassItem> = Vec::new();
    let mut k: usize = 0;
    while k < d.items.len()
        invariant
            k <= d.items@.len(),
            items@ == d.items@.take(k as int),
        decreases d.items@.len() - k,
    {
        items.push(d.items[k]);
        proof {
            assert(d.items@.take(k + 1) =~= d.items@.take(k as int).push(d.items@[k as int]));
        }
        k += 1;
    }
    proof {
        assert(d.items@.take(d.items@.len() as int) =~= d.items@);
    }
    CharClassData { negated: d.negated, items }
}

/// Appends the fragment of `t` to `insts`, going on at `next`.
#[verifier::spinoff_prover]
#[verifier::rlimit(60)]
fn emit_code(insts: &mut Vec<Instruction>, t: &Term, nocase: bool, next: usize)
    requires
        old(insts)@.len() + size(t.model()) < usize::MAX,
        next < usize::MAX,
    ensures
        insts_model(final(insts)@) == insts_model(old(insts)@) + emit(
            t.model(),
            old(insts)@.len(),
            next as nat,
            nocase,
        ),
    decreases t,
{
    let ghost before = insts@;
    let base = insts.len();
    match t {
        Term::Empty => {
            assert(insts_model(before) + Seq::<Inst>::empty() =~= insts_model(before));
        },
        Term::Literal(c) => {
            let i = Instruction::Char(CharData { ch: *c, nocase, goto: next });
            insts.push(i);
            proof { lemma_insts_model_push(before, i); }
        },
        Term::Any => {
            let i = Instruction::AnyChar(AnyCharData { goto: next });
            insts.push(i);
            proof { lemma_insts_model_push(before, i); }
        },
        Term::Class(d) => {
            let data = copy_class(d);
            let i = Instruction::CharClass(CharClassInst { data, nocase, goto: next });
            insts.push(i);
            proof { lemma_insts_model_push(before, i); }
        },
        Term::Concat(a, b) => {
            let sa = known_size(a);
            let nb = term_entry(b, base + sa, next);
            proof {
                lemma_emit_shape(b.model(), (base + sa) as nat, next as nat, nocase, usize::MAX as nat);
            }
            emit_code(insts, a, nocase, nb);
            proof {
                lemma_emit_shape(a.model(), base as nat, nb as nat, nocase, usize::MAX as nat);
                assert(insts_model(insts@).len() == insts@.len());
            }
            emit_code(insts, b, nocase, next);
            proof {
                assert(insts_model(insts@) =~= insts_model(before) + emit(t.model(), base as nat, next as nat, nocase));
            }
        },
        Term::Alt(a, b) => {
            let sa = known_size(a);
            let ea = term_entry(a, base + 1, next);
            let eb = term_entry(b, base + 1 + sa, next);
            let i = Instruction::Split(ea, eb);
            insts.push(i);
            proof {
                lemma_insts_model_push(before, i);
                lemma_emit_shape(a.model(), (base + 1) as nat, next as nat, nocase, usize::MAX as nat);
            }
            emit_code(insts, a, nocase, next);
            assert(insts_model(insts@).len() == insts@.len());
            emit_code(insts, b, nocase, next);
            proof {
                assert(insts_model(insts@) =~= insts_model(before) + emit(t.model(), base as nat, next as nat, nocase));
            }
        },
        Term::Star(a) => {
            let ea = term_entry(a, base + 1, base);
            let i = Instruction::Split(ea, next);
            insts.push(i);
            proof { lemma_insts_model_push(before, i); }
            emit_code(insts, a, nocase, base);
            proof {
                assert(insts_model(insts@) =~= insts_model(before) + emit(t.model(), base as nat, next as nat, nocase));
            }
        },
        Term::Plus(a) => {
            let sa = known_size(a);
            emit_code(insts, a, nocase, base + sa);
            let ea = term_entry(a, base, base + sa);
            let i = Instruction::Split(ea, next);
            let ghost mid = insts@;
            proof {
                lemma_emit_shape(a.model(), base as nat, (base + sa) as nat, nocase, usize::MAX as nat);
            }
            insts.push(i);
            proof {
                lemma_insts_model_push(mid, i);
                assert(insts_model(insts@) =~= insts_model(before) + emit(t.model(), base as nat, next as nat, nocase));
            }
        },
        Term::Opt(a) => {
            let ea = term_entry(a, base + 1, next);
            let i = Instruction::Split(ea, next);
            insts.push(i);
            proof { lemma_insts_model_push(before, i); }
            emit_code(insts, a, nocase, next);
            proof {
                assert(insts_model(insts@) =~= insts_model(before) + emit(t.model(), base as nat, next as nat, nocase));
            }
        },
    }
}

/// Compiles rules, one after another, into one program.
pub struct RegexTranslator {
    pub prog: Program,
}

impl RegexTranslator {
    /// A translator with an empty program.
    pub fn new() -> (r: RegexTranslator)
        ensures
            r.prog.insts@.len() == 0,
            r.prog.starts@.len() == 0,
            r.prog.wf(),
    {
        RegexTranslator { prog: Program::new() }
    }

    /// Appends the code of the rule number `rule` for the expression `t`, and
    /// makes its entry an entry point of the program.
    pub fn compile(&mut self, nocase: bool, t: &Term, rule: usize)
        requires
            old(self).prog.wf(),
            old(self).prog.insts@.len() + size(t.model()) + 1 < usize::MAX,
        ensures
            final(self).prog.wf(),
            insts_model(final(self).prog.insts@) == insts_model(old(self).prog.insts@) + rule_code(
                t.model(),
                old(self).prog.insts@.len(),
                nocase,
                rule as nat,
            ),
            final(self).prog.starts@ == old(self).prog.starts@.push(
                entry(
                    t.model(),
                    old(self).prog.insts@.len(),
                    old(self).prog.insts@.len() + size(t.model()),
                ) as usize,
            ),
    {
        let ghost before = self.prog.insts@;
        let base = self.prog.insts.len();
        let sz = known_size(t);
        emit_code(&mut self.prog.insts, t, nocase, base + sz);
        let ghost mid = self.prog.insts@;
        let m = Instruction::Match(MatchData { rule_id: rule });
        self.prog.insts.push(m);
        let e = term_entry(t, base, base + sz);
        self.prog.starts.push(e);
        proof {
            let n = (base + sz + 1) as nat;
            lemma_insts_model_push(mid, m);
            assert(insts_model(self.prog.insts@) =~= insts_model(before) + rule_code(t.model(), base as nat, nocase, rule as nat));
            lemma_emit_shape(t.model(), base as nat, (base + sz) as nat, nocase, n);
            let code = emit(t.model(), base as nat, (base + sz) as nat, nocase);
            let all = self.prog.insts@;
            assert(all.len() == n);
            assert forall|i: int| 0 <= i < all.len() implies inst_targets_below(#[trigger] all[i], all.len()) by {
                lemma_targets_model(all[i], all.len());
                if i < base {
                    assert(insts_model(all)[i] == insts_model(before)[i]);
                    assert(inst_targets_below(before[i], before.len()));
                    lemma_targets_model(before[i], before.len());
                    lemma_targets_model(before[i], all.len());
                } else if i < base + sz {
                    assert(insts_model(all)[i] == inst_model(all[i]));
                    assert(insts_model(all)[i] == code[i - base]);
                }
            }
        }
    }
}

} // verus!
