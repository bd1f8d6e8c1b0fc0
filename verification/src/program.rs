//! The instruction set of the regular-expression virtual machine, and the
//! programs made of it.

use vstd::prelude::*;

verus! {

/// One predicate of a character class: a single character, or an inclusive
/// range of characters.
#[derive(Debug, Clone, Copy, PartialEq, Eq, Structural)]
pub enum ClassItem {
    Single(char),
    Range(char, char),
}

/// A character class: a list of predicates, possibly negated.
#[derive(Debug, Clone)]
pub struct CharClassData {
    pub negated: bool,
    pub items: Vec<ClassItem>,
}

/// Whether the predicate `item` holds of `ch`.
pub open spec fn item_matches(item: ClassItem, ch: char) -> bool {
    match item {
        ClassItem::Single(c) => c == ch,
        ClassItem::Range(lo, hi) => lo <= ch && ch <= hi,
    }
}

/// Whether one of the predicates in `items` holds of `ch`.
pub open spec fn some_item_matches(items: Seq<ClassItem>, ch: char) -> bool {
    exists|i: int| 0 <= i < items.len() && item_matches(#[trigger] items[i], ch)
}

/// Whether the class accepts `ch`: some predicate holds, or, for a negated
/// class, none does.
pub open spec fn class_matches(class: CharClassData, ch: char) -> bool {
    if class.negated {
        !some_item_matches(class.items@, ch)
    } else {
        some_item_matches(class.items@, ch)
    }
}

impl CharClassData {
    /// Tests the class against one character.
    pub fn matches(&self, ch: char) -> (b: bool)
        ensures
            b == class_matches(*self, ch),
    {
        let mut found = false;
        let mut i: usize = 0;
        while i < self.items.len()
            invariant
                i <= self.items@.len(),
                found == exists|k: int| 0 <= k < i && item_matches(#[trigger] self.items@[k], ch),
            decreases self.items@.len() - i,
        {
            let hit = match self.items[i] {
                ClassItem::Single(c) => c == ch,
                ClassItem::Range(lo, hi) => lo <= ch && ch <= hi,
            };
            if hit {
                found = true;
            }
            i = i + 1;
        }
        if self.negated {
            !found
        } else {
            found
        }
    }
}

/// Match one literal character (ignoring case when `nocase`), then go on at
/// `goto`.
#[derive(Debug, Clone, Copy)]
pub struct CharData {
    pub ch: char,
    pub nocase: bool,
    pub goto: usize,
}

/// Match any one character, then go on at `goto`.
#[derive(Debug, Clone, Copy)]
pub struct AnyCharData {
    pub goto: usize,
}

/// Match one character of a class (ignoring case when `nocase`), then go on
/// at `goto`.
#[derive(Debug, Clone)]
pub struct CharClassInst {
    pub data: CharClassData,
    pub nocase: bool,
    pub goto: usize,
}

/// Report a match of rule `rule_id`.
#[derive(Debug, Clone, Copy)]
pub struct MatchData {
    pub rule_id: usize,
}

/// One instruction of the virtual machine.
#[derive(Debug, Clone)]
pub enum Instruction {
    Char(CharData),
    AnyChar(AnyCharData),
    CharClass(CharClassInst),
    Match(MatchData),
    Split(usize, usize),
}

/// A program: instructions addressed by their position, and the entry points
/// at which the threads of a match attempt start.
#[derive(Debug, Clone)]
pub struct Program {
    pub insts: Vec<Instruction>,
    pub starts: Vec<usize>,
}

/// Every address that `inst` can hand control to lies below `n`.
pub open spec fn inst_targets_below(inst: Instruction, n: nat) -> bool {
    match inst {
        Instruction::Char(d) => d.goto < n,
        Instruction::AnyChar(d) => d.goto < n,
        Instruction::CharClass(d) => d.goto < n,
        Instruction::Match(_) => true,
        Instruction::Split(a, b) => a < n && b < n,
    }
}

impl Program {
    /// Well-formed: every jump target and every entry point is the address of
    /// an instruction.
    pub open spec fn wf(&self) -> bool {
        &&& self.jumps_ok()
        &&& forall|i: int| 0 <= i < self.starts@.len() ==> #[trigger] self.starts@[i]
            < self.insts@.len()
    }

    /// Every jump target is the address of an instruction.
    pub open spec fn jumps_ok(&self) -> bool {
        forall|i: int| 0 <= i < self.insts@.len() ==> inst_targets_below(
            #[trigger] self.insts@[i],
            self.insts@.len(),
        )
    }

    /// The set of entry points.
    pub open spec fn start_set(&self) -> Set<usize> {
        self.starts@.to_set()
    }

    /// Creates an empty program.
    pub fn new() -> (p: Program)
        ensures
            p.insts@.len() == 0,
            p.starts@.len() == 0,
            p.wf(),
    {
        Program { insts: Vec::new(), starts: Vec::new() }
    }

    /// Number of instructions.
    pub fn len(&self) -> (n: usize)
        ensures
            n == self.insts@.len(),
    {
        self.insts.len()
    }
}

} // verus!
