//! Thompson style "breadth first" NFA interpreter: runs all the threads of a
//! program in lock step over the text, and turns the best match at each
//! position into a token.

use vstd::prelude::*;
use vstd::string::StringSliceAdditionalSpecFns;
use crate::sparse::SparseSet;
use crate::program::{Instruction, Program, inst_targets_below};
use crate::match_record::{MatchRecord, better, lemma_better_total, lemma_better_transitive};
use crate::text::{char_at, suffix};
use vstd::utf8::{
    valid_utf8, valid_first_scalar, length_of_first_scalar, decode_first_scalar, is_char_boundary,
    encode_utf8_valid_utf8, valid_utf8_split, is_char_boundary_start_end_of_seq,
    is_char_boundary_iff_is_leading_byte,
};
use crate::semantics::{
    closure, step, records_at, scan, consumes, split_edge, match_at, to_lowercase, char_accepts,
    class_accepts, lemma_closure_contains, lemma_closure_extend, lemma_closure_least,
};

verus! {

/// Every task of `l` is below `n`.
pub open spec fn tasks_below(l: Seq<usize>, n: nat) -> bool {
    forall|k: int| 0 <= k < l.len() ==> #[trigger] l[k] < n
}

/// The addresses of the threads of one step, without repetition, in the order
/// in which they were added.
pub struct TaskList {
    t: SparseSet,
}

impl View for TaskList {
    type V = Seq<usize>;

    closed spec fn view(&self) -> Seq<usize> {
        self.t@
    }
}

impl TaskList {
    /// Well-formed, for addresses below `n`.
    pub closed spec fn wf_for(&self, n: nat) -> bool {
        self.t.wf() && self.t.capacity() == n
    }

    /// An empty list for a program of `len` instructions.
    pub fn new(len: usize) -> (l: TaskList)
        ensures
            l.wf_for(len as nat),
            l@ == Seq::<usize>::empty(),
    {
        TaskList { t: SparseSet::new(len) }
    }

    /// Removes every task.
    pub fn clear(&mut self)
        requires
            old(self).wf_for(old(self).cap()),
        ensures
            final(self).wf_for(old(self).cap()),
            final(self).cap() == old(self).cap(),
            final(self)@ == Seq::<usize>::empty(),
    {
        self.t.clear();
    }

    /// The bound on addresses that the list was made for.
    pub closed spec fn cap(&self) -> nat {
        self.t.capacity()
    }

    /// Number of tasks.
    pub fn len(&self) -> (n: usize)
        ensures
            n == self@.len(),
    {
        self.t.len()
    }

    /// Whether there is no task.
    pub fn is_empty(&self) -> (b: bool)
        ensures
            b == (self@.len() == 0),
    {
        self.t.is_empty()
    }

    /// The `i`-th task.
    fn at(&self, i: usize) -> (pc: usize)
        requires
            i < self@.len(),
        ensures
            pc == self@[i as int],
    {
        self.t.at(i)
    }

    /// The tasks are distinct addresses below the bound.
    pub proof fn lemma_tasks(&self)
        requires
            self.wf_for(self.cap()),
        ensures
            forall|i: int| 0 <= i < self@.len() ==> #[trigger] self@[i] < self.cap(),
            self@.no_duplicates(),
            self@.len() <= self.cap(),
    {
        self.t.lemma_members();
    }

    /// A list whose tasks are all below `n` has at most `n` of them.
    pub proof fn lemma_len_below(&self, n: nat)
        requires
            self.wf_for(self.cap()),
            tasks_below(self@, n),
        ensures
            self@.len() <= n,
    {
        self.lemma_tasks();
        crate::sparse::lemma_distinct_below_bound(self@, n);
    }

    /// Adds a task at `pc` unless there is one already.
    pub fn add_task(&mut self, pc: usize)
        requires
            old(self).wf_for(old(self).cap()),
            pc < old(self).cap(),
        ensures
            final(self).wf_for(old(self).cap()),
            final(self).cap() == old(self).cap(),
            final(self)@ == if old(self)@.contains(pc) {
                old(self)@
            } else {
                old(self)@.push(pc)
            },
    {
        if !self.t.contains(pc) {
            self.t.insert(pc);
        }
    }
}

/// `l` with the task `x` added at the end, unless it is there already.
pub open spec fn with_task(l: Seq<usize>, x: usize) -> Seq<usize> {
    if l.contains(x) {
        l
    } else {
        l.push(x)
    }
}

/// `l` after running the task `pc`: a `Split` adds its two targets, in order.
pub open spec fn split_adds(p: Program, l: Seq<usize>, pc: usize) -> Seq<usize> {
    if pc < p.insts@.len() {
        match p.insts@[pc as int] {
            Instruction::Split(a, b) => with_task(with_task(l, a), b),
            _ => l,
        }
    } else {
        l
    }
}

/// The task list that running the tasks of `l` from the `i`-th on makes:
/// each task runs in turn, and the targets of `Split`s join at the end.
pub open spec fn closure_list(p: Program, l: Seq<usize>, i: nat) -> Seq<usize>
    decreases p.insts@.len() - i,
{
    if i >= l.len() || i >= p.insts@.len() {
        l
    } else {
        closure_list(p, split_adds(p, l, l[i as int]), i + 1)
    }
}

/// Where a thread at `pc` goes on after reading `ch`, if it reads it.
pub open spec fn target(p: Program, pc: usize, ch: char) -> Option<usize> {
    if pc < p.insts@.len() {
        match p.insts@[pc as int] {
            Instruction::Char(d) => if char_accepts(d, ch) {
                Some(d.goto)
            } else {
                None
            },
            Instruction::AnyChar(d) => Some(d.goto),
            Instruction::CharClass(d) => if class_accepts(d, ch) {
                Some(d.goto)
            } else {
                None
            },
            _ => None,
        }
    } else {
        None
    }
}

/// The next task list `nl` after the tasks `cl` have read `ch`, in order.
pub open spec fn step_list(p: Program, cl: Seq<usize>, ch: char, nl: Seq<usize>) -> Seq<usize>
    decreases cl.len(),
{
    if cl.len() == 0 {
        nl
    } else {
        let prev = step_list(p, cl.drop_last(), ch, nl);
        match target(p, cl.last(), ch) {
            Some(t) => with_task(prev, t),
            None => prev,
        }
    }
}

/// The task list of the entry points `starts`, in order, without repeats.
pub open spec fn start_tasks(starts: Seq<usize>) -> Seq<usize>
    decreases starts.len(),
{
    if starts.len() == 0 {
        Seq::empty()
    } else {
        with_task(start_tasks(starts.drop_last()), starts.last())
    }
}

/// The records that the tasks `l` report, in order, when `len` bytes have
/// been read: one for each task at a `Match` instruction.
pub open spec fn match_records(p: Program, l: Seq<usize>, len: nat) -> Seq<MatchRecord>
    decreases l.len(),
{
    if l.len() == 0 {
        Seq::empty()
    } else {
        let rest = match_records(p, l.drop_last(), len);
        let pc = l.last();
        if pc < p.insts@.len() && p.insts@[pc as int] is Match {
            rest.push(MatchRecord { len: len as usize, rule: p.insts@[pc as int]->Match_0.rule_id })
        } else {
            rest
        }
    }
}

/// The records of `l` followed by `pc` are those of `l`, then that of `pc`.
pub proof fn lemma_match_records_push(p: Program, l: Seq<usize>, pc: usize, len: nat)
    ensures
        match_records(p, l.push(pc), len) == match_records(p, l, len) + match_records(p, seq![pc], len),
{
    assert(l.push(pc).drop_last() =~= l);
    assert(seq![pc].drop_last() =~= Seq::<usize>::empty());
    assert(match_records(p, Seq::<usize>::empty(), len) == Seq::<MatchRecord>::empty());
    assert(match_records(p, l, len) + Seq::<MatchRecord>::empty() =~= match_records(p, l, len));
    let r = match_records(p, l, len);
    if pc < p.insts@.len() && p.insts@[pc as int] is Match {
        let m = MatchRecord { len: len as usize, rule: p.insts@[pc as int]->Match_0.rule_id };
        assert(r.push(m) =~= r + seq![m]);
        assert(Seq::<MatchRecord>::empty().push(m) =~= seq![m]);
    }
}

/// A virtual machine loaded with one program, and the matches that its last
/// match attempt found.
pub struct ThompsonInterpreter {
    pub matches: Vec<MatchRecord>,
    prog: Program,
}

impl ThompsonInterpreter {
    /// The program that the interpreter runs.
    pub closed spec fn program(&self) -> Program {
        self.prog
    }

    /// The matches found by the last match attempt.
    pub closed spec fn found(&self) -> Seq<MatchRecord> {
        self.matches@
    }

    /// Make a new ThompsonInterpreter, with program `p` and no matches.
    pub fn new(p: Program) -> (t: ThompsonInterpreter)
        ensures
            t.program() == p,
            t.found() == Seq::<MatchRecord>::empty(),
    {
        ThompsonInterpreter { matches: Vec::new(), prog: p }
    }

    /// Execute the task at `pc` on the character `ch`, read after `str_pos`
    /// bytes: a `Split` adds its targets to `clist`, a `Match` reports a match,
    /// and a character test that accepts `ch` adds its target to `nlist`.
    #[verifier::spinoff_prover]
    fn run_task(&mut self, str_pos: usize, ch: char, pc: usize, clist: &mut TaskList, nlist: &mut TaskList)
        requires
            old(self).prog.jumps_ok(),
            pc < old(self).prog.insts@.len(),
            old(clist).wf_for(old(clist).cap()),
            old(clist).cap() >= old(self).prog.insts@.len(),
            tasks_below(old(clist)@, old(self).prog.insts@.len()),
            old(nlist).wf_for(old(nlist).cap()),
            old(nlist).cap() >= old(self).prog.insts@.len(),
            tasks_below(old(nlist)@, old(self).prog.insts@.len()),
        ensures
            final(self).prog == old(self).prog,
            final(clist).wf_for(old(clist).cap()),
            final(clist).cap() == old(clist).cap(),
            tasks_below(final(clist)@, old(self).prog.insts@.len()),
            final(nlist).wf_for(old(nlist).cap()),
            final(nlist).cap() == old(nlist).cap(),
            tasks_below(final(nlist)@, old(self).prog.insts@.len()),
            final(clist)@.len() >= old(clist)@.len(),
            forall|k: int| 0 <= k < old(clist)@.len() ==> final(clist)@[k] == old(clist)@[k],
            forall|k: int| old(clist)@.len() <= k < final(clist)@.len() ==> split_edge(old(self).prog, pc, #[trigger] final(clist)@[k]),
            forall|b: usize| split_edge(old(self).prog, pc, b) ==> final(clist)@.contains(b),
            forall|t: usize| final(nlist)@.contains(t) <==> (old(nlist)@.contains(t) || consumes(old(self).prog.insts@[pc as int], ch, t)),
            forall|m: MatchRecord| final(self).matches@.contains(m) <==> (old(self).matches@.contains(m) || (m.len == str_pos && match_at(old(self).prog, pc, m.rule))),
            final(nlist)@.len() >= old(nlist)@.len(),
            final(nlist)@.subrange(0, old(nlist)@.len() as int) == old(nlist)@,
            final(self).matches@ == old(self).matches@ + match_records(old(self).prog, seq![pc], str_pos as nat),
            final(clist)@ == split_adds(old(self).prog, old(clist)@, pc),
            final(nlist)@ == (match target(old(self).prog, pc, ch) {
                Some(t) => with_task(old(nlist)@, t),
                None => old(nlist)@,
            }),
    {
        let ghost p = self.prog;
        let ghost n = p.insts@.len();
        let ghost nbefore = nlist@;
        let ghost mbefore = self.matches@;
        let ghost cbefore = clist@;
        assert(inst_targets_below(p.insts@[pc as int], n));
        match &self.prog.insts[pc] {
            Instruction::Char(data) => {
                if data.ch == ch {
                    nlist.add_task(data.goto);
                } else if data.nocase {
                    if to_lowercase(data.ch) == to_lowercase(ch) {
                        nlist.add_task(data.goto);
                    }
                }
            },
            Instruction::AnyChar(data) => {
                nlist.add_task(data.goto);
            },
            Instruction::CharClass(ccd) => {
                if ccd.data.matches(ch) {
                    nlist.add_task(ccd.goto);
                } else if ccd.nocase {
                    let lower = to_lowercase(ch);
                    let first = lower.as_str().get_char(0);
                    if ccd.data.matches(first) {
                        nlist.add_task(ccd.goto);
                    }
                }
            },
            Instruction::Match(data) => {
                self.matches.push(MatchRecord::new(str_pos, data.rule_id));
            },
            Instruction::Split(l1, l2) => {
                clist.add_task(*l1);
                let ghost mid = clist@;
                clist.add_task(*l2);
                proof {
                    lemma_push_contains(cbefore, mid, *l1);
                    lemma_push_contains(mid, clist@, *l1);
                    lemma_push_contains(mid, clist@, *l2);
                }
            },
        }
        proof {
            assert(nlist@.subrange(0, nbefore.len() as int) =~= nbefore);
            assert(seq![pc].drop_last() =~= Seq::<usize>::empty());
            assert(match_records(p, Seq::<usize>::empty(), str_pos as nat) == Seq::<MatchRecord>::empty());
            assert(self.matches@ =~= mbefore + match_records(p, seq![pc], str_pos as nat));
            assert forall|t: usize| nlist@.contains(t) <==> (nbefore.contains(t) || consumes(p.insts@[pc as int], ch, t)) by {
                lemma_push_contains(nbefore, nlist@, t);
            }
            assert forall|m: MatchRecord| self.matches@.contains(m) <==> (mbefore.contains(m) || (m.len == str_pos && match_at(p, pc, m.rule))) by {
                lemma_push_contains(mbefore, self.matches@, m);
            }
        }
    }

    /// Execute the tasks in `clist` on the character `ch`, read after
    /// `str_pos` bytes.
    ///
    /// `Split`s add tasks to `clist`, so this computes the epsilon closure of
    /// the tasks it starts with; `Match`es report a match of `str_pos` bytes;
    /// the character tests that accept `ch` add their targets to `nlist`.
    #[verifier::spinoff_prover]
    #[verifier::rlimit(60)]
    fn advance(&mut self, str_pos: usize, ch: char, clist: &mut TaskList, nlist: &mut TaskList)
        requires
            old(self).prog.jumps_ok(),
            old(clist).wf_for(old(clist).cap()),
            old(clist).cap() >= old(self).prog.insts@.len(),
            tasks_below(old(clist)@, old(self).prog.insts@.len()),
            old(nlist).wf_for(old(nlist).cap()),
            old(nlist).cap() >= old(self).prog.insts@.len(),
            tasks_below(old(nlist)@, old(self).prog.insts@.len()),
        ensures
            final(self).prog == old(self).prog,
            final(clist).wf_for(old(clist).cap()),
            final(clist).cap() == old(clist).cap(),
            tasks_below(final(clist)@, old(self).prog.insts@.len()),
            final(clist)@.len() <= old(self).prog.insts@.len(),
            final(nlist).wf_for(old(nlist).cap()),
            final(nlist).cap() == old(nlist).cap(),
            tasks_below(final(nlist)@, old(self).prog.insts@.len()),
            final(nlist)@.len() <= old(self).prog.insts@.len(),
            final(clist)@.to_set() == closure(old(self).prog, old(clist)@.to_set()),
            final(nlist)@.to_set() == old(nlist)@.to_set().union(
                step(old(self).prog, closure(old(self).prog, old(clist)@.to_set()), ch),
            ),
            final(self).matches@.to_set() == old(self).matches@.to_set().union(
                records_at(old(self).prog, closure(old(self).prog, old(clist)@.to_set()), str_pos as nat),
            ),
            final(clist)@.len() >= old(clist)@.len(),
            final(clist)@.subrange(0, old(clist)@.len() as int) == old(clist)@,
            final(nlist)@.len() >= old(nlist)@.len(),
            final(nlist)@.subrange(0, old(nlist)@.len() as int) == old(nlist)@,
            final(self).matches@ == old(self).matches@ + match_records(old(self).prog, final(clist)@, str_pos as nat),
            final(clist)@ == closure_list(old(self).prog, old(clist)@, 0),
            final(nlist)@ == step_list(old(self).prog, final(clist)@, ch, old(nlist)@),
    {
        let ghost p = self.prog;
        let ghost n = p.insts@.len();
        let ghost threads = clist@.to_set();
        let ghost nlist0 = nlist@.to_set();
        let ghost matches0 = self.matches@.to_set();
        let ghost clist_start = clist@;
        let ghost ccap = clist.cap();
        let ghost ncap = nlist.cap();
        let ghost nlist_start = nlist@;
        let ghost mseq0 = self.matches@;
        let mut i: usize = 0;
        proof {
            clist.lemma_tasks();
            assert forall|k: int| 0 <= k < clist@.len() implies closure(p, threads).contains(#[trigger] clist@[k]) by {
                lemma_closure_contains(p, threads, clist@[k]);
            }
        }
        while i < clist.len()
            invariant
                self.prog == p,
                p.jumps_ok(),
                n == p.insts@.len(),
                clist.wf_for(ccap),
                clist.cap() == ccap,
                ccap >= n,
                tasks_below(clist@, n),
                nlist.wf_for(ncap),
                nlist.cap() == ncap,
                ncap >= n,
                tasks_below(nlist@, n),
                i <= clist@.len(),
                forall|a: usize| threads.contains(a) ==> clist@.contains(a),
                forall|k: int| 0 <= k < clist@.len() ==> closure(p, threads).contains(#[trigger] clist@[k]),
                forall|k: int, b: usize|
                    0 <= k < i && #[trigger] split_edge(p, clist@[k], b) ==> clist@.contains(b),
                forall|t: usize|
                    nlist@.contains(t) <==> (nlist0.contains(t) || exists|k: int|
                        0 <= k < i && #[trigger] consumes(p.insts@[clist@[k] as int], ch, t)),
                forall|m: MatchRecord|
                    self.matches@.contains(m) <==> (matches0.contains(m) || (m.len == str_pos
                        && exists|k: int| 0 <= k < i && #[trigger] match_at(p, clist@[k], m.rule))),
                clist@.len() >= clist_start.len(),
                clist@.subrange(0, clist_start.len() as int) == clist_start,
                nlist@.len() >= nlist_start.len(),
                nlist@.subrange(0, nlist_start.len() as int) == nlist_start,
                self.matches@ == mseq0 + match_records(p, clist@.take(i as int), str_pos as nat),
                closure_list(p, clist@, i as nat) == closure_list(p, clist_start, 0),
                nlist@ == step_list(p, clist@.take(i as int), ch, nlist_start),
            decreases n - i,
        {
            proof {
                clist.lemma_tasks();
                nlist.lemma_tasks();
                clist.lemma_len_below(n);
            }
            let pc = clist.at(i);
            let ghost before = clist@;
            assert(before.take(i as int).len() == i);
            let ghost nbefore = nlist@;
            let ghost mbefore = self.matches@;
            let ghost k0 = i as int;
            assert(pc < n);
            assert(inst_targets_below(p.insts@[pc as int], n));
            i += 1;
            self.run_task(str_pos, ch, pc, clist, nlist);
            proof {
                assert(clist@.take(i as int) =~= before.take(k0).push(pc));
                assert(clist@.take(i as int).drop_last() =~= before.take(k0));
                assert(before.len() <= n);
                assert(closure_list(p, before, k0 as nat) == closure_list(p, clist@, i as nat));
                lemma_match_records_push(p, before.take(k0), pc, str_pos as nat);
                assert(self.matches@ =~= mseq0 + match_records(p, clist@.take(i as int), str_pos as nat));
                assert(clist@.subrange(0, clist_start.len() as int) =~= clist_start);
                assert(nlist@.subrange(0, nlist_start.len() as int) =~= nlist_start);
                assert forall|k: int, b: usize| 0 <= k < i && #[trigger] split_edge(p, clist@[k], b) implies clist@.contains(b) by {
                    if k < k0 {
                        assert(split_edge(p, before[k], b));
                        let j = choose|j: int| 0 <= j < before.len() && before[j] == b;
                        assert(clist@[j] == b);
                    }
                }
                assert forall|k: int| 0 <= k < clist@.len() implies closure(p, threads).contains(#[trigger] clist@[k]) by {
                    if k >= before.len() {
                        lemma_closure_extend(p, threads, pc, clist@[k]);
                    }
                }
                // earlier tasks keep their places
                assert(forall|k: int| 0 <= k < before.len() ==> clist@[k] == before[k]);
                assert(clist@[k0] == pc);
                assert forall|t: usize| nlist@.contains(t) implies (nlist0.contains(t) || exists|k: int|
                        0 <= k < i && #[trigger] consumes(p.insts@[clist@[k] as int], ch, t)) by {
                    if nbefore.contains(t) {
                        if !nlist0.contains(t) {
                            let k = choose|k: int| 0 <= k < k0 && #[trigger] consumes(p.insts@[before[k] as int], ch, t);
                            assert(consumes(p.insts@[clist@[k] as int], ch, t));
                        }
                    } else {
                        assert(consumes(p.insts@[clist@[k0] as int], ch, t));
                    }
                }
                assert forall|t: usize| (nlist0.contains(t) || exists|k: int|
                        0 <= k < i && #[trigger] consumes(p.insts@[clist@[k] as int], ch, t)) implies nlist@.contains(t) by {
                    if !nlist0.contains(t) {
                        let k = choose|k: int| 0 <= k < i && #[trigger] consumes(p.insts@[clist@[k] as int], ch, t);
                        if k < k0 {
                            assert(consumes(p.insts@[before[k] as int], ch, t));
                            assert(nbefore.contains(t));
                        }
                    } else {
                        assert(nbefore.contains(t));
                    }
                }
                assert forall|m: MatchRecord| self.matches@.contains(m) implies (matches0.contains(m) || (m.len == str_pos
                        && exists|k: int| 0 <= k < i && #[trigger] match_at(p, clist@[k], m.rule))) by {
                    if mbefore.contains(m) {
                        if !matches0.contains(m) {
                            let k = choose|k: int| 0 <= k < k0 && #[trigger] match_at(p, before[k], m.rule);
                            assert(match_at(p, clist@[k], m.rule));
                        }
                    } else {
                        assert(match_at(p, clist@[k0], m.rule));
                    }
                }
                assert forall|m: MatchRecord| (matches0.contains(m) || (m.len == str_pos
                        && exists|k: int| 0 <= k < i && #[trigger] match_at(p, clist@[k], m.rule))) implies self.matches@.contains(m) by {
                    if !matches0.contains(m) {
                        let k = choose|k: int| 0 <= k < i && #[trigger] match_at(p, clist@[k], m.rule);
                        if k < k0 {
                            assert(match_at(p, before[k], m.rule));
                            assert(mbefore.contains(m));
                        }
                    } else {
                        assert(mbefore.contains(m));
                    }
                }
                assert forall|a: usize| threads.contains(a) implies clist@.contains(a) by {
                    let j = choose|j: int| 0 <= j < before.len() && before[j] == a;
                    assert(clist@[j] == a);
                }
            }
        }
        proof {
            assert(clist@.take(i as int) =~= clist@);
            clist.lemma_len_below(n);
            nlist.lemma_len_below(n);
            assert(i == clist@.len());
            lemma_advance_sets(p, threads, clist@, nlist@, nlist0, self.matches@, matches0, ch, str_pos);
        }
    }
}

/// What `advance` makes, as sets: the tasks are the closure of the threads,
/// the next tasks are the old ones and the step over the closure, and the
/// matches are the old ones and those reported by the closure.
proof fn lemma_advance_sets(
    p: Program,
    threads: Set<usize>,
    cl: Seq<usize>,
    nl: Seq<usize>,
    nlist0: Set<usize>,
    ms: Seq<MatchRecord>,
    matches0: Set<MatchRecord>,
    ch: char,
    str_pos: usize,
)
    requires
        tasks_below(cl, p.insts@.len()),
        forall|a: usize| threads.contains(a) ==> cl.contains(a),
        forall|k: int| 0 <= k < cl.len() ==> closure(p, threads).contains(#[trigger] cl[k]),
        forall|k: int, b: usize| 0 <= k < cl.len() && #[trigger] split_edge(p, cl[k], b) ==> cl.contains(b),
        forall|t: usize|
            nl.contains(t) <==> (nlist0.contains(t) || exists|k: int|
                0 <= k < cl.len() && #[trigger] consumes(p.insts@[cl[k] as int], ch, t)),
        forall|m: MatchRecord|
            ms.contains(m) <==> (matches0.contains(m) || (m.len == str_pos && exists|k: int|
                0 <= k < cl.len() && #[trigger] match_at(p, cl[k], m.rule))),
    ensures
        cl.to_set() == closure(p, threads),
        nl.to_set() == nlist0.union(step(p, closure(p, threads), ch)),
        ms.to_set() == matches0.union(records_at(p, closure(p, threads), str_pos as nat)),
{
    let cset = cl.to_set();
    assert forall|a: usize| threads.contains(a) implies cset.contains(a) by {}
    assert forall|a: usize, b: usize| cset.contains(a) && split_edge(p, a, b) implies cset.contains(b) by {
        let k = choose|k: int| 0 <= k < cl.len() && cl[k] == a;
        assert(split_edge(p, cl[k], b));
    }
    lemma_closure_least(p, threads, cset);
    assert(cset =~= closure(p, threads));
    let c = closure(p, threads);
    assert forall|t: usize| nl.contains(t) implies nlist0.union(step(p, c, ch)).contains(t) by {
        if !nlist0.contains(t) {
            let k = choose|k: int| 0 <= k < cl.len() && #[trigger] consumes(p.insts@[cl[k] as int], ch, t);
            let pc = cl[k];
            assert(c.contains(pc));
            assert(pc < p.insts@.len());
            assert(step(p, c, ch).contains(t));
        }
    }
    assert forall|t: usize| nlist0.union(step(p, c, ch)).contains(t) implies nl.contains(t) by {
        if !nlist0.contains(t) {
            assert(step(p, c, ch).contains(t));
            let pc = choose|pc: usize| c.contains(pc) && pc < p.insts@.len() && #[trigger] consumes(p.insts@[pc as int], ch, t);
            assert(cset.contains(pc));
            let k = choose|k: int| 0 <= k < cl.len() && cl[k] == pc;
            assert(consumes(p.insts@[cl[k] as int], ch, t));
        }
    }
    assert(nl.to_set() =~= nlist0.union(step(p, c, ch)));
    assert forall|m: MatchRecord| ms.contains(m) implies matches0.union(records_at(p, c, str_pos as nat)).contains(m) by {
        if !matches0.contains(m) {
            let k = choose|k: int| 0 <= k < cl.len() && #[trigger] match_at(p, cl[k], m.rule);
            assert(c.contains(cl[k]));
            assert(records_at(p, c, str_pos as nat).contains(m));
        }
    }
    assert forall|m: MatchRecord| matches0.union(records_at(p, c, str_pos as nat)).contains(m) implies ms.contains(m) by {
        if !matches0.contains(m) {
            assert(records_at(p, c, str_pos as nat).contains(m));
            let pc = choose|pc: usize| c.contains(pc) && #[trigger] match_at(p, pc, m.rule);
            assert(cset.contains(pc));
            let k = choose|k: int| 0 <= k < cl.len() && cl[k] == pc;
            assert(match_at(p, cl[k], m.rule));
        }
    }
    assert(ms.to_set() =~= matches0.union(records_at(p, c, str_pos as nat)));
}

/// What a sequence that is either `s` or `s` with one more element at the
/// end contains.
proof fn lemma_push_contains<A>(s: Seq<A>, s2: Seq<A>, t: A)
    requires
        s2 =~= s || (s2.len() == s.len() + 1 && forall|i: int| 0 <= i < s.len() ==> s2[i] == s[i]),
    ensures
        s2.contains(t) <==> (s.contains(t) || (s2.len() > s.len() && s2.last() == t)),
{
    if s.contains(t) {
        let j = choose|j: int| 0 <= j < s.len() && s[j] == t;
        assert(s2[j] == t);
    }
    if s2.contains(t) && !(s2.len() > s.len() && s2.last() == t) {
        let j = choose|j: int| 0 <= j < s2.len() && s2[j] == t;
        assert(s[j] == t);
    }
}

/// `m` is in `ms` and no record of `ms` is better.
pub open spec fn is_best_in(m: MatchRecord, ms: Set<MatchRecord>) -> bool {
    ms.contains(m) && forall|x: MatchRecord| ms.contains(x) ==> !better(x, m)
}

/// The best of the matches `ms`: the longest, and of the longest the one of
/// the lowest-numbered rule.
pub open spec fn best_of(ms: Set<MatchRecord>) -> MatchRecord {
    choose|m: MatchRecord| is_best_in(m, ms)
}

/// A set has at most one best record.
pub proof fn lemma_best_unique(a: MatchRecord, b: MatchRecord, ms: Set<MatchRecord>)
    requires
        is_best_in(a, ms),
        is_best_in(b, ms),
    ensures
        a == b,
{
    lemma_better_total(a, b);
}

/// Combines the matches found so far with those that the rest of an attempt
/// finds, if it finishes.
pub open spec fn combine(acc: Set<MatchRecord>, rest: Option<Set<MatchRecord>>) -> Option<Set<MatchRecord>> {
    match rest {
        Some(r) => Some(acc.union(r)),
        None => None,
    }
}

/// A sequence is empty exactly when the set of its elements is.
proof fn lemma_to_set_empty<A>(s: Seq<A>)
    ensures
        (s.len() == 0) <==> s.to_set().is_empty(),
{
    if s.len() == 0 {
        assert(s.to_set() =~= Set::<A>::empty());
    } else {
        assert(s.to_set().contains(s[0]));
    }
}

/// The matches of a match attempt as a list, when its threads stand at
/// `threads` with `off` bytes read and the bytes `s` still to read, and
/// `lists` holds the tasks run at each position, in the order in which they
/// were run: at each position, in increasing order of position, one record
/// for each task at a `Match` instruction. Each list runs the closure of the
/// threads there once each; `None` where `lists` does not fit the attempt.
pub open spec fn attempt_records(
    p: Program,
    s: Seq<u8>,
    off: nat,
    threads: Set<usize>,
    lists: Seq<Seq<usize>>,
) -> Option<Seq<MatchRecord>>
    decreases s.len(),
{
    if threads.is_empty() {
        if lists.len() == 0 {
            Some(Seq::empty())
        } else {
            None
        }
    } else if lists.len() == 0 || !lists[0].no_duplicates() || lists[0].to_set() != closure(p, threads) {
        None
    } else {
        let here = match_records(p, lists[0], off);
        if s.len() == 0 {
            if lists.len() == 1 {
                Some(here)
            } else {
                None
            }
        } else if !valid_first_scalar(s) {
            None
        } else {
            let w = length_of_first_scalar(s);
            let ch = decode_first_scalar(s) as char;
            match attempt_records(
                p,
                s.subrange(w, s.len() as int),
                off + w as nat,
                step(p, closure(p, threads), ch),
                lists.drop_first(),
            ) {
                Some(r) => Some(here + r),
                None => None,
            }
        }
    }
}

/// Every record of the tasks `l` has length `len`.
proof fn lemma_match_records_len(p: Program, l: Seq<usize>, len: nat)
    ensures
        forall|i: int| 0 <= i < match_records(p, l, len).len() ==> #[trigger] match_records(p, l, len)[i].len == len as usize,
    decreases l.len(),
{
    if l.len() > 0 {
        let rest = match_records(p, l.drop_last(), len);
        lemma_match_records_len(p, l.drop_last(), len);
        assert forall|i: int| 0 <= i < match_records(p, l, len).len() implies #[trigger] match_records(p, l, len)[i].len
            == len as usize by {
            if i < rest.len() {
                assert(match_records(p, l, len)[i] == rest[i]);
            }
        }
    }
}

/// The list of a match attempt comes in increasing order of length, from
/// `off` up to the end of the text.
pub proof fn lemma_attempt_sorted(p: Program, s: Seq<u8>, off: nat, threads: Set<usize>, lists: Seq<Seq<usize>>)
    requires
        attempt_records(p, s, off, threads, lists) is Some,
        off + s.len() <= usize::MAX,
    ensures
        ({
            let ms = attempt_records(p, s, off, threads, lists)->Some_0;
            &&& forall|i: int| 0 <= i < ms.len() ==> off <= #[trigger] ms[i].len <= off + s.len()
            &&& forall|i: int, j: int| 0 <= i <= j < ms.len() ==> #[trigger] ms[i].len <= #[trigger] ms[j].len
        }),
    decreases s.len(),
{
    if !threads.is_empty() {
        let here = match_records(p, lists[0], off);
        lemma_match_records_len(p, lists[0], off);
        if s.len() > 0 {
            let w = length_of_first_scalar(s);
            let ch = decode_first_scalar(s) as char;
            let rs = s.subrange(w, s.len() as int);
            lemma_attempt_sorted(p, rs, off + w as nat, step(p, closure(p, threads), ch), lists.drop_first());
            let r = attempt_records(p, rs, off + w as nat, step(p, closure(p, threads), ch), lists.drop_first())->Some_0;
            let ms = here + r;
            assert forall|i: int| 0 <= i < ms.len() implies off <= #[trigger] ms[i].len <= off + s.len() by {
                if i >= here.len() {
                    assert(ms[i] == r[i - here.len()]);
                }
            }
            assert forall|i: int, j: int| 0 <= i <= j < ms.len() implies #[trigger] ms[i].len <= #[trigger] ms[j].len by {
                if j >= here.len() {
                    assert(ms[j] == r[j - here.len()]);
                    if i >= here.len() {
                        assert(ms[i] == r[i - here.len()]);
                    }
                }
            }
        }
    }
}

proof fn lemma_matches_sorted(a: Seq<MatchRecord>, b: Seq<MatchRecord>, n: nat)
    requires
        a == b,
        forall|i: int| 0 <= i < b.len() ==> #[trigger] b[i].len <= n,
        forall|i: int, j: int| 0 <= i <= j < b.len() ==> #[trigger] b[i].len <= #[trigger] b[j].len,
    ensures
        forall|i: int| 0 <= i < a.len() ==> #[trigger] a[i].len <= n,
        forall|i: int, j: int| 0 <= i <= j < a.len() ==> #[trigger] a[i].len <= #[trigger] a[j].len,
{
}

/// `m` in front of the list `r`, if there is one.
pub open spec fn after(m: Seq<MatchRecord>, r: Option<Seq<MatchRecord>>) -> Option<Seq<MatchRecord>> {
    match r {
        Some(x) => Some(m + x),
        None => None,
    }
}

/// The list of matches that a match attempt finds, when the tasks `tasks`
/// are to run with `off` bytes read and the bytes `s` still to read: at each
/// position the tasks run (see `closure_list`), the records of their
/// `Match`es follow in the order in which they ran, and the tasks that read
/// the next character make the tasks of the next position; the attempt ends
/// when no task is left or the text runs out.
pub open spec fn attempt_list(p: Program, s: Seq<u8>, off: nat, tasks: Seq<usize>) -> Seq<MatchRecord>
    decreases s.len(),
{
    if tasks.len() == 0 {
        Seq::empty()
    } else {
        let cl = closure_list(p, tasks, 0);
        let here = match_records(p, cl, off);
        if s.len() == 0 || !valid_first_scalar(s) {
            here
        } else {
            let w = length_of_first_scalar(s);
            let ch = decode_first_scalar(s) as char;
            here + attempt_list(p, s.subrange(w, s.len() as int), off + w as nat, step_list(p, cl, ch, Seq::empty()))
        }
    }
}

/// The bytes of `s` after its first `w`.
pub open spec fn rest_bytes_of(s: Seq<u8>, w: int) -> Seq<u8> {
    s.subrange(w, s.len() as int)
}

impl ThompsonInterpreter {
    /// Runs one match attempt on the text `bytes[start..]`, collecting in
    /// `self.matches` every match that a rule makes of a prefix of it. The
    /// attempt ends when no thread is left or the text runs out.
    fn all_matches_at(&mut self, bytes: &[u8], start: usize)
        requires
            old(self).prog.wf(),
            start <= bytes@.len(),
            valid_utf8(suffix(bytes@, start as int)),
        ensures
            final(self).prog == old(self).prog,
            scan(old(self).prog, suffix(bytes@, start as int), 0, old(self).prog.start_set()) is Some,
            final(self).matches@.to_set() == scan(
                old(self).prog,
                suffix(bytes@, start as int),
                0,
                old(self).prog.start_set(),
            )->Some_0,
            exists|lists: Seq<Seq<usize>>|
                attempt_records(old(self).prog, suffix(bytes@, start as int), 0, old(self).prog.start_set(), lists)
                    == Some(final(self).matches@),
            final(self).matches@ == attempt_list(
                old(self).prog,
                suffix(bytes@, start as int),
                0,
                start_tasks(old(self).prog.starts@),
            ),
            forall|i: int, j: int|
                0 <= i <= j < final(self).matches@.len() ==> #[trigger] final(self).matches@[i].len
                    <= #[trigger] final(self).matches@[j].len,
            forall|i: int|
                0 <= i < final(self).matches@.len() ==> #[trigger] final(self).matches@[i].len <= bytes@.len() - start,
    {
        let ghost p = self.prog;
        let ghost s0 = suffix(bytes@, start as int);
        let blen = bytes.len();
        let ghost total = scan(p, suffix(bytes@, start as int), 0, p.start_set());
        let plen = self.prog.len();
        let mut clist = TaskList::new(plen);
        let mut nlist = TaskList::new(plen);
        self.matches.clear();
        let mut k: usize = 0;
        while k < self.prog.starts.len()
            invariant
                self.prog == p,
                p == old(self).prog,
                p.wf(),
                plen == p.insts@.len(),
                k <= p.starts@.len(),
                clist.wf_for(plen as nat),
                clist.cap() == plen,
                tasks_below(clist@, plen as nat),
                forall|x: usize| clist@.contains(x) <==> exists|j: int| 0 <= j < k && p.starts@[j] == x,
                clist@ == start_tasks(p.starts@.take(k as int)),
            decreases p.starts@.len() - k,
        {
            let s0 = self.prog.starts[k];
            let ghost before = clist@;
            clist.add_task(s0);
            proof {
                assert(p.starts@.take(k + 1).drop_last() =~= p.starts@.take(k as int));
                assert(p.starts@[k as int] == s0);
                assert forall|x: usize| clist@.contains(x) <==> exists|j: int| 0 <= j < k + 1 && p.starts@[j] == x by {
                    lemma_push_contains(before, clist@, x);
                    if x == s0 {
                        assert(p.starts@[k as int] == x);
                        if before.contains(x) {
                            assert(clist@.contains(x));
                        }
                    } else if exists|j: int| 0 <= j < k + 1 && p.starts@[j] == x {
                        let j = choose|j: int| 0 <= j < k + 1 && p.starts@[j] == x;
                        assert(j < k);
                        assert(before.contains(x));
                    }
                }
            }
            k += 1;
        }
        let ghost mut done: Seq<Seq<usize>> = Seq::empty();
        proof {
            assert(p.starts@.take(k as int) =~= p.starts@);
            assert(attempt_list(p, s0, 0, clist@) == self.matches@ + attempt_list(p, s0, 0, clist@)) by {
                assert(self.matches@ + attempt_list(p, s0, 0, clist@) =~= attempt_list(p, s0, 0, clist@));
            }
            assert(clist@.to_set() =~= p.start_set());
            assert(self.matches@.to_set() =~= Set::<MatchRecord>::empty());
            assert(Set::<MatchRecord>::empty().union(total->Some_0) =~= total->Some_0);
            assert forall|rest: Seq<Seq<usize>>| #[trigger] attempt_records(p, s0, 0, p.start_set(), done + rest)
                == after(self.matches@, attempt_records(p, s0, 0, clist@.to_set(), rest)) by {
                assert(done + rest =~= rest);
                match attempt_records(p, s0, 0, clist@.to_set(), rest) {
                    Some(x) => {
                        assert(self.matches@ + x =~= x);
                    },
                    None => {},
                }
            }
        }
        let mut pos: usize = start;
        loop
            invariant
                self.prog == p,
                p == old(self).prog,
                p.wf(),
                plen == p.insts@.len(),
                start <= pos <= bytes@.len(),
                valid_utf8(suffix(bytes@, pos as int)),
                clist.wf_for(plen as nat),
                clist.cap() == plen,
                tasks_below(clist@, plen as nat),
                nlist.wf_for(plen as nat),
                nlist.cap() == plen,
                nlist@.len() == 0,
                total == scan(p, suffix(bytes@, start as int), 0, p.start_set()),
                total == combine(self.matches@.to_set(), scan(p, suffix(bytes@, pos as int), (pos - start) as nat, clist@.to_set())),
                s0 == suffix(bytes@, start as int),
                blen == bytes@.len(),
                attempt_list(p, s0, 0, start_tasks(p.starts@)) == self.matches@ + attempt_list(
                    p,
                    suffix(bytes@, pos as int),
                    (pos - start) as nat,
                    clist@,
                ),
                forall|rest: Seq<Seq<usize>>| #[trigger] attempt_records(p, s0, 0, p.start_set(), done + rest)
                    == after(self.matches@, attempt_records(p, suffix(bytes@, pos as int), (pos - start) as nat, clist@.to_set(), rest)),
            decreases bytes@.len() - pos,
        {
            proof {
                lemma_to_set_empty(clist@);
                lemma_to_set_empty(nlist@);
            }
            if clist.is_empty() {
                proof {
                    assert(clist@.to_set().is_empty());
                    assert(scan(p, suffix(bytes@, pos as int), (pos - start) as nat, clist@.to_set()) == Some(Set::<MatchRecord>::empty()));
                    assert(self.matches@.to_set().union(Set::empty()) =~= self.matches@.to_set());
                    assert(total == Some(self.matches@.to_set()));
                    let e = Seq::<Seq<usize>>::empty();
                    assert(attempt_records(p, s0, 0, p.start_set(), done + e) == after(self.matches@, attempt_records(p, suffix(bytes@, pos as int), (pos - start) as nat, clist@.to_set(), e)));
                    assert(done + e =~= done);
                    assert(self.matches@ + Seq::<MatchRecord>::empty() =~= self.matches@);
                    assert(attempt_records(p, s0, 0, p.start_set(), done) == Some(self.matches@));
                    assert(clist@.len() == 0);
                    assert(self.matches@ + Seq::<MatchRecord>::empty() =~= self.matches@);
                    lemma_attempt_sorted(p, s0, 0, p.start_set(), done);
                    lemma_matches_sorted(self.matches@, attempt_records(p, s0, 0, p.start_set(), done)->Some_0, s0.len());
                }
                return;
            }
            let ghost m0 = self.matches@.to_set();
            let ghost mseq = self.matches@;
            let ghost threads = clist@.to_set();
            let ghost s = suffix(bytes@, pos as int);
            let ghost off = (pos - start) as nat;
            match char_at(bytes, pos) {
                None => {
                    let ghost cl_old = clist@;
                    self.advance(pos - start, '\0', &mut clist, &mut nlist);
                    proof {
                        assert(cl_old.len() > 0);
                        assert(attempt_list(p, s, off, cl_old) == match_records(p, clist@, off));
                        clist.lemma_tasks();
                        let l0 = clist@;
                        let one = seq![l0];
                        assert(attempt_records(p, s0, 0, p.start_set(), done + one) == after(mseq, attempt_records(p, s, off, threads, one)));
                        assert(s.len() == 0);
                        assert(one[0] == l0);
                        assert(attempt_records(p, s, off, threads, one) == Some(match_records(p, l0, off)));
                        assert(done + one =~= done.push(l0));
                        assert(exists|lists: Seq<Seq<usize>>| attempt_records(p, s0, 0, p.start_set(), lists) == Some(self.matches@));
                        assert(attempt_records(p, s0, 0, p.start_set(), done + one) == Some(self.matches@));
                        lemma_attempt_sorted(p, s0, 0, p.start_set(), done + one);
                        lemma_matches_sorted(self.matches@, attempt_records(p, s0, 0, p.start_set(), done + one)->Some_0, s0.len());
                    }
                    return;
                },
                Some((c, w)) => {
                    let ghost cl_old = clist@;
                    assert(nlist@ =~= Seq::<usize>::empty());
                    self.advance(pos - start, c, &mut clist, &mut nlist);
                    let ghost l0 = clist@;
                    proof {
                        assert(cl_old.len() > 0);
                        assert(attempt_list(p, s, off, cl_old) == match_records(p, l0, off) + attempt_list(
                            p,
                            s.subrange(w as int, s.len() as int),
                            off + w as nat,
                            step_list(p, l0, c, Seq::empty()),
                        ));
                        assert(nlist@ =~= step_list(p, l0, c, Seq::empty()));
                    }
                    proof {
                        clist.lemma_tasks();
                    }
                    std::mem::swap(&mut clist, &mut nlist);
                    nlist.clear();
                    assert(s.len() == bytes@.len() - pos);
                    assert(w <= s.len());
                    assert(pos + w <= bytes.len());
                    proof {
                        let rest = s.subrange(w as int, s.len() as int);
                        assert(rest =~= suffix(bytes@, pos + w));
                        assert(clist@.to_set() =~= step(p, closure(p, threads), c));
                        let here = records_at(p, closure(p, threads), (pos - start) as nat);
                        match scan(p, rest, (pos + w - start) as nat, clist@.to_set()) {
                            Some(r) => {
                                assert(m0.union(here.union(r)) =~= m0.union(here).union(r));
                            },
                            None => {},
                        }
                        let ms1 = self.matches@;
                        let t1 = clist@.to_set();
                        assert(mseq + (match_records(p, l0, off) + attempt_list(p, rest, off + w as nat, clist@))
                            =~= ms1 + attempt_list(p, rest, off + w as nat, clist@));
                        assert forall|rest: Seq<Seq<usize>>| #[trigger] attempt_records(p, s0, 0, p.start_set(), done.push(l0) + rest)
                            == after(ms1, attempt_records(p, rest_bytes_of(s, w as int), off + w as nat, t1, rest)) by {
                            let r0 = seq![l0] + rest;
                            assert(attempt_records(p, s0, 0, p.start_set(), done + r0) == after(mseq, attempt_records(p, s, off, threads, r0)));
                            assert(done.push(l0) + rest =~= done + r0);
                            assert(r0[0] == l0);
                            assert(r0.drop_first() =~= rest);
                            assert(rest_bytes_of(s, w as int) == s.subrange(w as int, s.len() as int));
                            match attempt_records(p, rest_bytes_of(s, w as int), off + w as nat, t1, rest) {
                                Some(x) => {
                                    assert(mseq + (match_records(p, l0, off) + x) =~= ms1 + x);
                                },
                                None => {},
                            }
                        }
                        done = done.push(l0);
                    }
                    pos = pos + w;
                },
            }
        }
    }

    /// Return the best match at our current position.
    ///
    /// Where "best" means "longest". Ties are broken according to the order
    /// of rules: earlier (lower-numbered) rules win. `None` when there is no
    /// match at all.
    fn best_match(&self) -> (r: Option<MatchRecord>)
        ensures
            r is None <==> self.matches@.len() == 0,
            r matches Some(b) ==> b == best_of(self.matches@.to_set()),
            r matches Some(b) ==> is_best_in(b, self.matches@.to_set()),
    {
        if self.matches.len() == 0 {
            return None;
        }
        let ghost ms = self.matches@;
        let mut best = self.matches[0];
        let mut k: usize = 1;
        proof {
            assert(ms.take(1).to_set() =~= set![ms[0]]) by {
                assert forall|x: MatchRecord| ms.take(1).contains(x) <==> x == ms[0] by {
                    if x == ms[0] {
                        assert(ms.take(1)[0] == x);
                    }
                }
            }
            lemma_better_total(best, best);
        }
        while k < self.matches.len()
            invariant
                ms == self.matches@,
                1 <= k <= ms.len(),
                is_best_in(best, ms.take(k as int).to_set()),
            decreases ms.len() - k,
        {
            let m = self.matches[k];
            let ghost old_best = best;
            let ghost prev = ms.take(k as int).to_set();
            if m > best {
                best = m;
            }
            proof {
                let all = ms.take(k + 1).to_set();
                let a1 = ms.take(k + 1);
                let a0 = ms.take(k as int);
                assert(all =~= prev.insert(m)) by {
                    assert forall|x: MatchRecord| a1.contains(x) <==> (a0.contains(x) || x == m) by {
                        if a1.contains(x) {
                            let j = choose|j: int| 0 <= j < a1.len() && a1[j] == x;
                            if j < k {
                                assert(a0[j] == x);
                            }
                        }
                        if a0.contains(x) {
                            let j = choose|j: int| 0 <= j < a0.len() && a0[j] == x;
                            assert(a1[j] == x);
                        }
                        if x == m {
                            assert(a1[k as int] == x);
                        }
                    }
                }
                assert forall|x: MatchRecord| all.contains(x) implies !better(x, best) by {
                    lemma_better_total(x, best);
                    lemma_better_total(x, old_best);
                    lemma_better_total(m, old_best);
                    if better(x, best) && better(best, old_best) {
                        lemma_better_transitive(x, best, old_best);
                    }
                }
            }
            k += 1;
        }
        proof {
            assert(ms.take(ms.len() as int) =~= ms);
            let target = ms.to_set();
            assert(is_best_in(best, target));
            lemma_best_unique(best, best_of(target), target);
        }
        Some(best)
    }
}

/// One step of the tokenizer's walk over a text.
#[derive(Debug, Clone, Copy, PartialEq, Eq, Structural)]
pub enum Token {
    /// Rule `rule` matched the `len` bytes that start at byte `begin`, and
    /// that was the best match there.
    Append { begin: usize, len: usize, rule: usize },
    /// No rule matched at byte `begin`, and the character there, of `len`
    /// bytes, was passed over.
    Skip { begin: usize, len: usize },
}

/// `t` followed by the tokens of `rest`, if `rest` has any result.
pub open spec fn prepend(t: Token, rest: Option<Seq<Token>>) -> Option<Seq<Token>> {
    match rest {
        Some(r) => Some(seq![t] + r),
        None => None,
    }
}

/// `prefix` followed by the tokens of `rest`, if `rest` has any result.
pub open spec fn prepend_all(prefix: Seq<Token>, rest: Option<Seq<Token>>) -> Option<Seq<Token>> {
    match rest {
        Some(r) => Some(prefix + r),
        None => None,
    }
}

/// The tokens that the program `p` makes of the UTF-8 text `bytes` from byte
/// `pos` on.
///
/// At each position the best match becomes a token and the walk goes on after
/// it; where nothing matches, the whole character there is skipped. There is
/// no result (`None`) where the walk cannot go on: the best match is empty
/// (the walk would stand still), or the text is not valid UTF-8.
pub open spec fn tokens_from(p: Program, bytes: Seq<u8>, pos: nat) -> Option<Seq<Token>>
    decreases bytes.len() - pos,
{
    if pos >= bytes.len() {
        Some(Seq::empty())
    } else {
        match scan(p, suffix(bytes, pos as int), 0, p.start_set()) {
            None => None,
            Some(ms) => if ms.is_empty() {
                let sfx = suffix(bytes, pos as int);
                if valid_first_scalar(sfx) {
                    let w = length_of_first_scalar(sfx);
                    prepend(Token::Skip { begin: pos as usize, len: w as usize }, tokens_from(p, bytes, (pos + w) as nat))
                } else {
                    None
                }
            } else {
                let b = best_of(ms);
                if 0 < b.len && pos + b.len <= bytes.len() {
                    prepend(
                        Token::Append { begin: pos as usize, len: b.len, rule: b.rule },
                        tokens_from(p, bytes, (pos + b.len) as nat),
                    )
                } else {
                    None
                }
            },
        }
    }
}

/// The tokens that the program `p` makes of the whole text `text`.
pub open spec fn tokens_of(p: Program, text: &str) -> Option<Seq<Token>> {
    tokens_from(p, text.spec_bytes(), 0)
}

/// Every match that an attempt reports ends inside the text, at a position
/// from which the rest of the text is again valid UTF-8.
pub proof fn lemma_scan_ends(p: Program, s: Seq<u8>, off: nat, threads: Set<usize>, m: MatchRecord)
    requires
        valid_utf8(s),
        scan(p, s, off, threads) matches Some(ms) && ms.contains(m),
    ensures
        off <= m.len <= off + s.len(),
        valid_utf8(s.subrange(m.len - off, s.len() as int)),
    decreases s.len(),
{
    let c = closure(p, threads);
    let here = records_at(p, c, off);
    if here.contains(m) {
        assert(s.subrange(0, s.len() as int) =~= s);
    } else if s.len() > 0 {
        let w = length_of_first_scalar(s);
        let rest = s.subrange(w, s.len() as int);
        let ch = decode_first_scalar(s) as char;
        assert(valid_utf8(rest));
        lemma_scan_ends(p, rest, off + w as nat, step(p, c, ch), m);
        assert(rest.subrange(m.len - off - w, rest.len() as int) =~= s.subrange(m.len - off, s.len() as int));
    }
}

/// In valid UTF-8, a position from which the rest is valid UTF-8 is a
/// character boundary.
pub proof fn lemma_valid_suffix_boundary(bytes: Seq<u8>, q: int)
    requires
        valid_utf8(bytes),
        0 <= q <= bytes.len(),
        valid_utf8(suffix(bytes, q)),
    ensures
        is_char_boundary(bytes, q),
{
    is_char_boundary_start_end_of_seq(bytes);
    if q < bytes.len() {
        let s = suffix(bytes, q);
        assert(valid_first_scalar(s));
        assert(s[0] == bytes[q]);
        is_char_boundary_iff_is_leading_byte(bytes, q);
    }
}

/// The part of `text` between the byte positions `a` and `b`, which must be
/// character boundaries.
pub fn str_slice(text: &str, a: usize, b: usize) -> (r: &str)
    requires
        a <= b <= text.spec_bytes().len(),
        is_char_boundary(text.spec_bytes(), a as int),
        is_char_boundary(text.spec_bytes(), b as int),
    ensures
        r.spec_bytes() == text.spec_bytes().subrange(a as int, b as int),
{
    proof {
        encode_utf8_valid_utf8(text@);
    }
    let ghost bytes = text.spec_bytes();
    let (left, _right) = text.split_at(b);
    proof {
        let lb = bytes.subrange(0, b as int);
        valid_utf8_split(bytes, b as int);
        assert(left.spec_bytes() == lb);
        is_char_boundary_start_end_of_seq(lb);
        if a < b {
            is_char_boundary_iff_is_leading_byte(bytes, a as int);
            is_char_boundary_iff_is_leading_byte(lb, a as int);
        }
    }
    let (_head, mid) = left.split_at(a);
    proof {
        assert(mid.spec_bytes() =~= bytes.subrange(a as int, b as int));
    }
    mid
}

/// Receives the tokens of a text.
///
/// `received` is what a sink has been handed so far, in order: each token
/// with the bytes of its text. A sink whose methods are verified defines it
/// and shows that `append` and `skip` add to it as their `ensures` say.
pub trait TokenSink {
    /// The tokens handed to the sink so far, each with its text.
    ///
    /// The default is only there so that sinks outside verified code (which
    /// cannot define a specification function) still compile; a verified
    /// sink defines it, since the constant default cannot meet the `ensures`
    /// of `append` and `skip`.
    closed spec fn received(&self) -> Seq<(Token, Seq<u8>)> {
        Seq::empty()
    }

    /// Append a token
    ///
    /// Append a token starting at `begin` with text `text`, that matched rule
    /// #`rule_id`.
    fn append(&mut self, begin: usize, text: &str, rule_id: usize)
        ensures
            final(self).received() == old(self).received().push(
                (Token::Append { begin, len: text.spec_bytes().len() as usize, rule: rule_id }, text.spec_bytes()),
            ),
    ;

    /// Skip an unhandled character
    ///
    /// The character at `begin` is not the first character of any pattern
    /// that this tokenizer knows about. For symmetry with `append()`, the
    /// text is passed in as a &str, but in general it should only be one
    /// character long.
    fn skip(&mut self, begin: usize, text: &str)
        ensures
            final(self).received() == old(self).received().push(
                (Token::Skip { begin, len: text.spec_bytes().len() as usize }, text.spec_bytes()),
            ),
    ;
}

/// The tokens `ts` of the text `bytes`, each with the bytes of its text, as
/// they are handed to a sink.
pub open spec fn handed(ts: Seq<Token>, bytes: Seq<u8>) -> Seq<(Token, Seq<u8>)> {
    ts.map_values(|t: Token| (t, bytes.subrange(token_begin(t) as int, token_end(t) as int)))
}

/// The token covers bytes of `bytes` that start and end at character
/// boundaries.
pub open spec fn token_in(t: Token, bytes: Seq<u8>) -> bool {
    match t {
        Token::Append { begin, len, rule } => {
            &&& 0 < len
            &&& begin + len <= bytes.len()
            &&& is_char_boundary(bytes, begin as int)
            &&& is_char_boundary(bytes, begin + len)
        },
        Token::Skip { begin, len } => {
            &&& 0 < len
            &&& begin + len <= bytes.len()
            &&& is_char_boundary(bytes, begin as int)
            &&& is_char_boundary(bytes, begin + len)
        },
    }
}

/// The byte where a token starts.
pub open spec fn token_begin(t: Token) -> nat {
    match t {
        Token::Append { begin, len, rule } => begin as nat,
        Token::Skip { begin, len } => begin as nat,
    }
}

/// The byte just after a token.
pub open spec fn token_end(t: Token) -> nat {
    match t {
        Token::Append { begin, len, rule } => (begin + len) as nat,
        Token::Skip { begin, len } => (begin + len) as nat,
    }
}

/// The tokens cover the bytes from `pos` to `n` without gap or overlap, each
/// one at least one byte long, in order.
pub open spec fn tiles(ts: Seq<Token>, pos: nat, n: nat) -> bool {
    &&& ts.len() == 0 <==> pos >= n
    &&& ts.len() > 0 ==> token_begin(ts[0]) == pos && token_end(ts[ts.len() - 1]) == n
    &&& forall|i: int| 0 <= i < ts.len() ==> token_begin(#[trigger] ts[i]) < token_end(ts[i])
    &&& forall|i: int| 0 <= i < ts.len() - 1 ==> token_end(#[trigger] ts[i]) == token_begin(ts[i + 1])
}

/// The tokens of a text from `pos` on tile the rest of the text: the first
/// starts at `pos`, each starts where the one before ends, the last ends at
/// the end of the text, and none is empty.
pub proof fn lemma_tokens_tile(p: Program, bytes: Seq<u8>, pos: nat)
    requires
        pos <= bytes.len(),
        bytes.len() <= usize::MAX,
        tokens_from(p, bytes, pos) is Some,
    ensures
        tiles(tokens_from(p, bytes, pos)->Some_0, pos, bytes.len()),
        tokens_from(p, bytes, pos)->Some_0.len() <= bytes.len() - pos,
    decreases bytes.len() - pos,
{
    if pos < bytes.len() {
        let ms = scan(p, suffix(bytes, pos as int), 0, p.start_set())->Some_0;
        let next: nat = if ms.is_empty() {
            (pos + length_of_first_scalar(suffix(bytes, pos as int))) as nat
        } else {
            (pos + best_of(ms).len) as nat
        };
        lemma_tokens_tile(p, bytes, next);
        let rest = tokens_from(p, bytes, next)->Some_0;
        let ts = tokens_from(p, bytes, pos)->Some_0;
        assert(ts.drop_first() =~= rest);
        assert forall|i: int| 0 <= i < ts.len() - 1 implies token_end(#[trigger] ts[i]) == token_begin(ts[i + 1]) by {
            if i > 0 {
                assert(ts[i] == rest[i - 1]);
                assert(ts[i + 1] == rest[i]);
            }
        }
        assert forall|i: int| 0 <= i < ts.len() implies token_begin(#[trigger] ts[i]) < token_end(ts[i]) by {
            if i > 0 {
                assert(ts[i] == rest[i - 1]);
            }
        }
    }
}

/// The rule reported by the instruction at `pc`, if it is a `Match`.
pub open spec fn rule_at(p: Program, pc: int) -> usize {
    match p.insts@[pc] {
        Instruction::Match(d) => d.rule_id,
        _ => 0,
    }
}

/// The matches reported at one position are finitely many.
proof fn lemma_records_finite(p: Program, c: Set<usize>, off: nat)
    ensures
        records_at(p, c, off).finite(),
{
    let all = Seq::new(p.insts@.len(), |pc: int| MatchRecord { len: off as usize, rule: rule_at(p, pc) }).to_set();
    assert forall|m: MatchRecord| records_at(p, c, off).contains(m) implies all.contains(m) by {
        let pc = choose|pc: usize| c.contains(pc) && #[trigger] match_at(p, pc, m.rule);
        let sq = Seq::new(p.insts@.len(), |pc: int| MatchRecord { len: off as usize, rule: rule_at(p, pc) });
        assert(sq[pc as int] == m);
    }
    vstd::seq_lib::seq_to_set_is_finite(
        Seq::new(p.insts@.len(), |pc: int| MatchRecord { len: off as usize, rule: rule_at(p, pc) }),
    );
    vstd::set_lib::lemma_set_subset_finite(all, records_at(p, c, off));
}

/// A match attempt reports finitely many matches.
pub proof fn lemma_scan_finite(p: Program, s: Seq<u8>, off: nat, threads: Set<usize>)
    requires
        scan(p, s, off, threads) is Some,
    ensures
        scan(p, s, off, threads)->Some_0.finite(),
    decreases s.len(),
{
    if !threads.is_empty() {
        let c = closure(p, threads);
        lemma_records_finite(p, c, off);
        if s.len() > 0 {
            let w = length_of_first_scalar(s);
            lemma_scan_finite(p, s.subrange(w, s.len() as int), off + w as nat, step(p, c, decode_first_scalar(s) as char));
        }
    }
}

/// A finite, nonempty set of matches has a best one.
pub proof fn lemma_best_exists(ms: Set<MatchRecord>)
    requires
        ms.finite(),
        !ms.is_empty(),
    ensures
        exists|m: MatchRecord| is_best_in(m, ms),
    decreases ms.len(),
{
    let x = ms.choose();
    assert(ms.contains(x)) by {
        assert(exists|y: MatchRecord| ms.contains(y));
    }
    let rest = ms.remove(x);
    if rest.is_empty() {
        assert forall|y: MatchRecord| ms.contains(y) implies !better(y, x) by {
            if y != x {
                assert(rest.contains(y));
            }
            lemma_better_total(y, x);
        }
        assert(is_best_in(x, ms));
    } else {
        assert(rest.len() < ms.len()) by {
            assert(ms.len() == rest.len() + 1);
        }
        lemma_best_exists(rest);
        let b = choose|m: MatchRecord| is_best_in(m, rest);
        if better(x, b) {
            assert forall|y: MatchRecord| ms.contains(y) implies !better(y, x) by {
                lemma_better_total(y, x);
                if y != x {
                    assert(rest.contains(y));
                    if better(y, x) {
                        lemma_better_transitive(y, x, b);
                    }
                }
            }
            assert(is_best_in(x, ms));
        } else {
            assert forall|y: MatchRecord| ms.contains(y) implies !better(y, b) by {
                if y != x {
                    assert(rest.contains(y));
                }
            }
            assert(is_best_in(b, ms));
        }
    }
}

/// Longest match: a token made by a rule at position `pos` is a match found
/// there, and no match found there is better, i.e. longer, or as long and made
/// by a lower-numbered rule.
pub proof fn lemma_append_is_best(p: Program, bytes: Seq<u8>, pos: nat, m: MatchRecord)
    requires
        pos < bytes.len(),
        bytes.len() <= usize::MAX,
        tokens_from(p, bytes, pos) matches Some(ts) && ts.len() > 0 && ts[0] is Append,
        scan(p, suffix(bytes, pos as int), 0, p.start_set()) matches Some(ms) && ms.contains(m),
    ensures
        ({
            let t = tokens_from(p, bytes, pos)->Some_0[0];
            let ms = scan(p, suffix(bytes, pos as int), 0, p.start_set())->Some_0;
            let rec = MatchRecord { len: t->Append_len, rule: t->Append_rule };
            &&& token_begin(t) == pos
            &&& ms.contains(rec)
            &&& !better(m, rec)
        }),
{
    let ms = scan(p, suffix(bytes, pos as int), 0, p.start_set())->Some_0;
    lemma_scan_finite(p, suffix(bytes, pos as int), 0, p.start_set());
    assert(!ms.is_empty()) by {
        assert(ms.contains(m));
    }
    lemma_best_exists(ms);
    let b = best_of(ms);
    assert(is_best_in(b, ms));
    assert(b.len > 0);
    let rest = tokens_from(p, bytes, (pos + b.len) as nat)->Some_0;
    let t = Token::Append { begin: pos as usize, len: b.len, rule: b.rule };
    assert((seq![t] + rest)[0] == t);
}

/// A character is skipped only where no rule matches.
pub proof fn lemma_skip_unmatched(p: Program, bytes: Seq<u8>, pos: nat)
    requires
        pos < bytes.len(),
        bytes.len() <= usize::MAX,
        tokens_from(p, bytes, pos) matches Some(ts) && ts.len() > 0 && ts[0] is Skip,
    ensures
        token_begin(tokens_from(p, bytes, pos)->Some_0[0]) == pos,
        token_end(tokens_from(p, bytes, pos)->Some_0[0]) == pos + length_of_first_scalar(suffix(bytes, pos as int)),
        valid_first_scalar(suffix(bytes, pos as int)),
        scan(p, suffix(bytes, pos as int), 0, p.start_set()) == Some(Set::<MatchRecord>::empty()),
{
    let ms = scan(p, suffix(bytes, pos as int), 0, p.start_set())->Some_0;
    if !ms.is_empty() {
        let b = best_of(ms);
        assert(tokens_from(p, bytes, pos)->Some_0[0] is Append);
    }
    assert(ms =~= Set::<MatchRecord>::empty());
    let w = length_of_first_scalar(suffix(bytes, pos as int));
    let rest = tokens_from(p, bytes, (pos + w) as nat)->Some_0;
    let t = Token::Skip { begin: pos as usize, len: w as usize };
    assert((seq![t] + rest)[0] == t);
}

impl ThompsonInterpreter {
    /// Well-formed: the loaded program is.
    pub open spec fn wf(&self) -> bool {
        self.program().wf()
    }

    /// The tokens that the loaded program makes of `text`: the best match at
    /// each position, or a skipped character where nothing matches; `None`
    /// where the walk cannot go on (see `tokens_from`).
    pub fn tokenize(&mut self, text: &str) -> (r: Option<Vec<Token>>)
        requires
            old(self).wf(),
        ensures
            final(self).program() == old(self).program(),
            r is Some <==> tokens_of(old(self).program(), text) is Some,
            r matches Some(v) ==> v@ == tokens_of(old(self).program(), text)->Some_0,
            r matches Some(v) ==> forall|i: int| 0 <= i < v@.len() ==> token_in(#[trigger] v@[i], text.spec_bytes()),
    {
        let ghost p = self.prog;
        let bytes = text.as_bytes();
        let ghost bs = bytes@;
        proof {
            encode_utf8_valid_utf8(text@);
            assert(suffix(bs, 0) =~= bs);
        }
        let mut out: Vec<Token> = Vec::new();
        let mut pos: usize = 0;
        while pos < bytes.len()
            invariant
                self.prog == p,
                p == old(self).prog,
                p.wf(),
                bs == bytes@,
                bs == text.spec_bytes(),
                valid_utf8(bs),
                pos <= bs.len(),
                valid_utf8(suffix(bs, pos as int)),
                tokens_from(p, bs, 0) == prepend_all(out@, tokens_from(p, bs, pos as nat)),
                forall|i: int| 0 <= i < out@.len() ==> token_in(#[trigger] out@[i], bs),
            decreases bs.len() - pos,
        {
            self.all_matches_at(bytes, pos);
            let ghost ms = self.matches@.to_set();
            proof {
                lemma_to_set_empty(self.matches@);
                lemma_valid_suffix_boundary(bs, pos as int);
            }
            match self.best_match() {
                None => {
                    let w = match char_at(bytes, pos) {
                        Some((_c, w)) => w,
                        None => {
                            return None;
                        },
                    };
                    let t = Token::Skip { begin: pos, len: w };
                    proof {
                        let s = suffix(bs, pos as int);
                        assert(valid_first_scalar(s));
                        assert(suffix(bs, pos + w) =~= s.subrange(w as int, s.len() as int));
                        lemma_valid_suffix_boundary(bs, pos + w);
                        match tokens_from(p, bs, (pos + w) as nat) {
                            Some(r) => {
                                assert(out@ + (seq![t] + r) =~= out@.push(t) + r);
                            },
                            None => {},
                        }
                    }
                    out.push(t);
                    pos = pos + w;
                },
                Some(m) => {
                    if m.len == 0 {
                        return None;
                    }
                    proof {
                        assert(ms.contains(m));
                        lemma_scan_ends(p, suffix(bs, pos as int), 0, p.start_set(), m);
                        assert(suffix(bs, pos as int).subrange(m.len as int, bs.len() - pos) =~= suffix(bs, pos + m.len));
                        lemma_valid_suffix_boundary(bs, pos + m.len);
                    }
                    let t = Token::Append { begin: pos, len: m.len, rule: m.rule };
                    proof {
                        match tokens_from(p, bs, (pos + m.len) as nat) {
                            Some(r) => {
                                assert(out@ + (seq![t] + r) =~= out@.push(t) + r);
                            },
                            None => {},
                        }
                    }
                    out.push(t);
                    pos = pos + m.len;
                },
            }
        }
        proof {
            assert(out@ + Seq::<Token>::empty() =~= out@);
        }
        Some(out)
    }

    /// Apply our program repeatedly over an input string, handing each token
    /// that `tokenize` finds, in order, to `sink`: a match as `append` with
    /// its text and rule, a skipped character as `skip` with its text.
    pub fn apply<S: TokenSink>(&mut self, text: &str, sink: &mut S)
        requires
            old(self).wf(),
        ensures
            final(self).program() == old(self).program(),
            tokens_of(old(self).program(), text) is Some ==> final(sink).received() == old(sink).received()
                + handed(tokens_of(old(self).program(), text)->Some_0, text.spec_bytes()),
            tokens_of(old(self).program(), text) is None ==> final(sink).received() == old(sink).received(),
    {
        let ghost start = sink.received();
        let ghost bytes = text.spec_bytes();
        match self.tokenize(text) {
            None => {},
            Some(toks) => {
                let total_len = text.as_bytes().len();
                let mut i: usize = 0;
                while i < toks.len()
                    invariant
                        total_len == text.spec_bytes().len(),
                        bytes == text.spec_bytes(),
                        i <= toks@.len(),
                        forall|k: int| 0 <= k < toks@.len() ==> token_in(#[trigger] toks@[k], text.spec_bytes()),
                        sink.received() == start + handed(toks@.take(i as int), bytes),
                    decreases toks@.len() - i,
                {
                    let t = toks[i];
                    match t {
                        Token::Append { begin, len, rule } => {
                            sink.append(begin, str_slice(text, begin, begin + len), rule);
                        },
                        Token::Skip { begin, len } => {
                            sink.skip(begin, str_slice(text, begin, begin + len));
                        },
                    }
                    proof {
                        assert(toks@.take(i + 1) =~= toks@.take(i as int).push(t));
                        assert(handed(toks@.take(i + 1), bytes) =~= handed(toks@.take(i as int), bytes).push(
                            (t, bytes.subrange(token_begin(t) as int, token_end(t) as int)),
                        ));
                        assert(sink.received() =~= start + handed(toks@.take(i + 1), bytes));
                    }
                    i += 1;
                }
                proof {
                    assert(toks@.take(toks@.len() as int) =~= toks@);
                }
            },
        }
    }
}

} // verus!
