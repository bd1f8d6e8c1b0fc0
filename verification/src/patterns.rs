//! What patterns mean: laws that tie the pattern language's surface syntax to
//! the texts its expressions match. `.` stands for any one character, `?`
//! makes the item before it optional, and inside a class `\` makes the next
//! character an item of its own.

use vstd::prelude::*;
use crate::regex::{Regex, parse_spec, alt, alt_rest, concat, concat_rest, repeat, postfix, atom, class_body, class_items, class_char};
use crate::program::ClassItem;
use crate::language::{full_match, star_split};
use crate::soundness::{lemma_concat_parts, lemma_concat_intro};

verus! {

/// A character that stands for itself in a pattern.
pub open spec fn plain_char(c: char) -> bool {
    !(c == '(' || c == ')' || c == '[' || c == '.' || c == '\\' || c == '*' || c == '+' || c == '?' || c == '|')
}

/// A pattern made of characters that stand for themselves and `.`s.
pub open spec fn dot_pattern(s: Seq<char>) -> bool {
    forall|i: int| 0 <= i < s.len() ==> plain_char(#[trigger] s[i]) || s[i] == '.'
}

/// The text `w` fits the dot pattern `s`: it is as long, and has the
/// pattern's character wherever the pattern has no `.`.
pub open spec fn fits(s: Seq<char>, w: Seq<char>) -> bool {
    &&& w.len() == s.len()
    &&& forall|i: int| 0 <= i < s.len() ==> #[trigger] s[i] == '.' || w[i] == s[i]
}

/// The expression of one character of a dot pattern.
spec fn item(c: char) -> Regex {
    if c == '.' {
        Regex::Any
    } else {
        Regex::Literal(c)
    }
}

/// The expression of the `k` dot-pattern characters of `s` from `a` on,
/// grouped to the left.
spec fn flat(s: Seq<char>, a: nat, k: nat) -> Regex
    decreases k,
{
    if k == 0 {
        Regex::Empty
    } else {
        let acc = flat(s, a, (k - 1) as nat);
        match acc {
            Regex::Empty => item(s[a + k - 1]),
            _ => Regex::Concat(Box::new(acc), Box::new(item(s[a + k - 1]))),
        }
    }
}

/// A repetition operator.
spec fn postfix_op(c: char) -> bool {
    c == '*' || c == '+' || c == '?'
}

/// Reading the dot-pattern characters from `a + k` up to `a + m` adds their
/// items to the expression.
proof fn lemma_flat_run(s: Seq<char>, a: nat, k: nat, m: nat)
    requires
        k <= m,
        a + m <= s.len(),
        forall|i: int| a <= i < a + m ==> plain_char(#[trigger] s[i]) || s[i] == '.',
        a + m < s.len() ==> !postfix_op(s[(a + m) as int]),
    ensures
        concat_rest(s, a + k, flat(s, a, k)) == concat_rest(s, a + m, flat(s, a, m)),
    decreases m - k,
{
    if k < m {
        let p = a + k;
        let c = s[p as int];
        assert(plain_char(c) || c == '.');
        assert(atom(s, p) == Some((item(c), p + 1)));
        if p + 1 < s.len() {
            if k + 1 < m {
                assert(plain_char(s[(p + 1) as int]) || s[(p + 1) as int] == '.');
            }
            assert(!postfix_op(s[(p + 1) as int]));
        }
        assert(postfix(s, p + 1, item(c)) == (item(c), p + 1));
        assert(repeat(s, p) == Some((item(c), p + 1)));
        assert(flat(s, a, k + 1) == crate::regex::join(flat(s, a, k), item(c)));
        lemma_flat_run(s, a, k + 1, m);
    }
}

/// The `k` dot-pattern characters of `s` from `a` on match exactly the texts
/// that fit them.
proof fn lemma_flat_matches(s: Seq<char>, a: nat, k: nat, w: Seq<char>)
    requires
        a + k <= s.len(),
        forall|i: int| a <= i < a + k ==> plain_char(#[trigger] s[i]) || s[i] == '.',
    ensures
        full_match(flat(s, a, k), w, false) <==> fits(s.subrange(a as int, (a + k) as int), w),
        k > 0 ==> flat(s, a, k) != Regex::Empty,
    decreases k,
{
    let cur = s.subrange(a as int, (a + k) as int);
    if k == 0 {
        if fits(cur, w) {
            assert(w.len() == 0);
        }
    } else {
        let pre = s.subrange(a as int, (a + k - 1) as int);
        let c = s[a + k - 1];
        assert(cur[k - 1] == c);
        lemma_flat_matches(s, a, (k - 1) as nat, w);
        let acc = flat(s, a, (k - 1) as nat);
        if k == 1 {
            assert(acc == Regex::Empty);
            assert(fits(cur, w) <==> (w.len() == 1 && (c == '.' || w[0] == c))) by {
                if w.len() == 1 && (c == '.' || w[0] == c) {
                    assert forall|i: int| 0 <= i < cur.len() implies #[trigger] cur[i] == '.' || w[i] == cur[i] by {
                        assert(i == 0);
                    }
                }
            }
        } else {
            assert forall|v: Seq<char>| full_match(acc, v, false) <==> fits(pre, v) by {
                lemma_flat_matches(s, a, (k - 1) as nat, v);
            }
            let whole = Regex::Concat(Box::new(acc), Box::new(item(c)));
            assert(flat(s, a, k) == whole);
            if full_match(whole, w, false) {
                let j = lemma_concat_parts(acc, item(c), w, false);
                assert(fits(pre, w.take(j)));
                assert forall|i: int| 0 <= i < k implies #[trigger] cur[i] == '.' || w[i] == cur[i] by {
                    if i < k - 1 {
                        assert(pre[i] == cur[i]);
                        assert(w.take(j)[i] == w[i]);
                    } else {
                        assert(w.skip(j)[0] == w[i]);
                    }
                }
            }
            if fits(cur, w) {
                let u = w.take(k - 1);
                let v = w.skip(k - 1);
                assert forall|i: int| 0 <= i < pre.len() implies #[trigger] pre[i] == '.' || u[i] == pre[i] by {
                    assert(cur[i] == pre[i]);
                }
                assert(fits(pre, u));
                assert(v.len() == 1 && v[0] == w[k - 1]);
                assert(full_match(item(c), v, false));
                lemma_concat_intro(acc, item(c), u, v, false);
                assert(u + v =~= w);
            }
        }
    }
}

/// `.` stands for any one character: a pattern of characters that stand for
/// themselves and `.`s is well formed, does not ignore case, and matches
/// exactly the texts that are as long as it and have its character wherever
/// it has no `.`.
pub proof fn lemma_dot_pattern(s: Seq<char>, w: Seq<char>)
    requires
        dot_pattern(s),
    ensures
        parse_spec(s) is Some,
        !parse_spec(s)->Some_0.0,
        full_match(parse_spec(s)->Some_0.1, w, false) <==> fits(s, w),
{
    let n = s.len();
    if n > 0 {
        assert(plain_char(s[0]) || s[0] == '.');
    }
    lemma_flat_run(s, 0, 0, n);
    assert(concat_rest(s, n, flat(s, 0, n)) == Some((flat(s, 0, n), n)));
    assert(alt(s, 0) == Some((flat(s, 0, n), n)));
    lemma_flat_matches(s, 0, n, w);
    assert(s.subrange(0, n as int) =~= s);
}

/// `?` makes the item before it optional, at most once: the pattern `u x?`,
/// for a dot pattern `u` and a character `x` that stands for itself or is
/// `.`, is well formed, does not ignore case, and matches exactly the texts
/// that `u` matches and those that `u x` matches.
pub proof fn lemma_optional_last(u: Seq<char>, x: char, w: Seq<char>)
    requires
        dot_pattern(u),
        plain_char(x) || x == '.',
    ensures
        parse_spec(u + seq![x, '?']) is Some,
        !parse_spec(u + seq![x, '?'])->Some_0.0,
        full_match(parse_spec(u + seq![x, '?'])->Some_0.1, w, false) <==> (fits(u, w) || fits(u.push(x), w)),
{
    let s = u + seq![x, '?'];
    let m = u.len();
    assert(s.len() == m + 2);
    assert(s[m as int] == x);
    assert(s[(m + 1) as int] == '?');
    assert forall|i: int| 0 <= i < m implies plain_char(#[trigger] s[i]) || s[i] == '.' by {
        assert(s[i] == u[i]);
    }
    if m > 0 {
        assert(plain_char(s[0]) || s[0] == '.');
    } else {
        assert(s[0] == x);
    }
    lemma_flat_run(s, 0, 0, m);
    let a = flat(s, 0, m);
    let o = Regex::Opt(Box::new(item(x)));
    assert(atom(s, m) == Some((item(x), m + 1)));
    assert(postfix(s, m + 2, o) == (o, m + 2));
    assert(postfix(s, m + 1, item(x)) == (o, m + 2));
    assert(repeat(s, m) == Some((o, m + 2)));
    let r = crate::regex::join(a, o);
    assert(concat_rest(s, m + 2, r) == Some((r, m + 2)));
    assert(concat_rest(s, m, a) == Some((r, m + 2)));
    assert(alt(s, 0) == Some((r, m + 2)));
    assert(parse_spec(s) == Some((false, r)));
    assert(s.subrange(0, m as int) =~= u);
    assert forall|v: Seq<char>| full_match(a, v, false) <==> fits(u, v) by {
        lemma_flat_matches(s, 0, m, v);
    }
    let ux = u.push(x);
    if m == 0 {
        assert(ux.len() == 1 && ux[0] == x);
        assert(r == o);
        assert(fits(u, w) <==> w.len() == 0);
        assert(fits(ux, w) <==> (w.len() == 1 && (x == '.' || w[0] == x))) by {
            if w.len() == 1 && (x == '.' || w[0] == x) {
                assert forall|i: int| 0 <= i < ux.len() implies #[trigger] ux[i] == '.' || w[i] == ux[i] by {
                    assert(i == 0);
                }
            }
        }
        assert(full_match(item(x), w, false) <==> (w.len() == 1 && (x == '.' || w[0] == x)));
        assert(full_match(r, w, false) <==> (w.len() == 0 || full_match(item(x), w, false)));
    } else {
        lemma_flat_matches(s, 0, m, w);
        assert(r == Regex::Concat(Box::new(a), Box::new(o)));
        if full_match(r, w, false) {
            let j = lemma_concat_parts(a, o, w, false);
            assert(fits(u, w.take(j)));
            assert(j == m);
            if w.skip(j).len() == 0 {
                assert(w.take(j) =~= w);
            } else {
                assert(full_match(item(x), w.skip(j), false));
                assert(w.len() == m + 1);
                assert(ux[m as int] == x);
                assert forall|i: int| 0 <= i < ux.len() implies #[trigger] ux[i] == '.' || w[i] == ux[i] by {
                    if i < m {
                        assert(ux[i] == u[i]);
                        assert(w.take(j)[i] == w[i]);
                    } else {
                        assert(w.skip(j)[0] == w[i]);
                    }
                }
            }
        }
        if fits(u, w) {
            assert(full_match(o, Seq::<char>::empty(), false));
            lemma_concat_intro(a, o, w, Seq::empty(), false);
            assert(w + Seq::<char>::empty() =~= w);
        } else if fits(ux, w) {
            let p1 = w.take(m as int);
            let p2 = w.skip(m as int);
            assert forall|i: int| 0 <= i < m implies #[trigger] u[i] == '.' || p1[i] == u[i] by {
                assert(ux[i] == u[i]);
            }
            assert(fits(u, p1));
            assert(ux[m as int] == x);
            assert(p2.len() == 1 && p2[0] == w[m as int]);
            assert(full_match(item(x), p2, false));
            assert(full_match(o, p2, false));
            lemma_concat_intro(a, o, p1, p2, false);
            assert(p1 + p2 =~= w);
        }
    }
}

/// The characters `cs`, each written with a `\` in front.
#[verifier::opaque]
pub open spec fn escaped(cs: Seq<char>) -> Seq<char> {
    Seq::new(2 * cs.len(), |i: int| if i % 2 == 0 { '\\' } else { cs[i / 2] })
}

/// The class pattern `[\c1\c2...]` (with `^` after the `[` when `negated`)
/// whose items are the characters `cs`, each escaped.
pub open spec fn escaped_class_of(negated: bool, cs: Seq<char>) -> Seq<char> {
    (if negated {
        seq!['[', '^']
    } else {
        seq!['[']
    }) + escaped(cs) + seq![']']
}

/// The class pattern `[\c1\c2...]` whose items are the characters `cs`,
/// each escaped.
pub open spec fn escaped_class(cs: Seq<char>) -> Seq<char> {
    escaped_class_of(false, cs)
}

/// Where the escaped items start in the class pattern.
spec fn items_start(negated: bool) -> nat {
    if negated {
        2
    } else {
        1
    }
}

proof fn lemma_escaped_class_at(negated: bool, cs: Seq<char>, k: int)
    requires
        0 <= k <= cs.len(),
    ensures
        escaped_class_of(negated, cs).len() == 2 * cs.len() + items_start(negated) + 1,
        k < cs.len() ==> escaped_class_of(negated, cs)[items_start(negated) + 2 * k] == '\\',
        k < cs.len() ==> escaped_class_of(negated, cs)[items_start(negated) + 2 * k + 1] == cs[k],
        escaped_class_of(negated, cs)[0] == '[',
        negated ==> escaped_class_of(negated, cs)[1] == '^',
        escaped_class_of(negated, cs)[(2 * cs.len() + items_start(negated)) as int] == ']',
{
    reveal(escaped);
    let e = escaped(cs);
    let o = items_start(negated);
    let s = escaped_class_of(negated, cs);
    assert(e.len() == 2 * cs.len());
    assert(s[(2 * cs.len() + o) as int] == ']');
    if k < cs.len() {
        assert((2 * k) % 2 == 0) by (nonlinear_arith);
        assert((2 * k + 1) % 2 == 1 && (2 * k + 1) / 2 == k) by (nonlinear_arith);
        assert(e[2 * k] == '\\');
        assert(e[2 * k + 1] == cs[k]);
        assert(s[o + 2 * k] == e[2 * k]);
        assert(s[o + 2 * k + 1] == e[2 * k + 1]);
    }
}

/// Reading the escaped items from the `k`-th on, after the items `acc`,
/// adds one single-character item per escaped character, up to and past the
/// closing `]`.
proof fn lemma_escaped_items(negated: bool, cs: Seq<char>, k: nat, acc: Seq<ClassItem>)
    requires
        k <= cs.len(),
        acc.len() + cs.len() - k > 0,
    ensures
        class_items(escaped_class_of(negated, cs), items_start(negated) + 2 * k, acc) matches Some((items, j)) && {
            &&& j == 2 * cs.len() + items_start(negated) + 1
            &&& items.len() == acc.len() + cs.len() - k
            &&& forall|i: int| 0 <= i < acc.len() ==> items[i] == acc[i]
            &&& forall|t: int| k <= t < cs.len() ==> items[acc.len() + t - k] == ClassItem::Single(cs[t])
        },
    decreases cs.len() - k,
{
    let s = escaped_class_of(negated, cs);
    let n = cs.len();
    let o = items_start(negated);
    let i = o + 2 * k;
    lemma_escaped_class_at(negated, cs, k as int);
    if k < n {
        let c = cs[k as int];
        assert(i + 2 < s.len() && s[i as int] == '\\' && s[(i + 1) as int] == c && (s[(i + 2) as int] == '\\'
            || s[(i + 2) as int] == ']')) by {
            lemma_escaped_class_at(negated, cs, (k + 1) as int);
        }
        lemma_class_step(s, i, acc, c);
        let acc2 = with_single(acc, c);
        assert(acc2.len() == acc.len() + 1);
        lemma_escaped_items(negated, cs, (k + 1) as nat, acc2);
        let items = class_items(s, i + 2, acc2)->Some_0.0;
        assert forall|t: int| k <= t < cs.len() implies items[acc.len() + t - k] == ClassItem::Single(cs[t]) by {
            if t == k {
                assert(items[acc.len() as int] == acc2[acc.len() as int]);
            }
        }
    }
}

/// The items `acc` and then the single character `c`.
pub open spec fn with_single(acc: Seq<ClassItem>, c: char) -> Seq<ClassItem> {
    acc.push(ClassItem::Single(c))
}

/// An escaped character inside a class, followed by another one or by the
/// end of the class, is an item of its own.
proof fn lemma_class_step(s: Seq<char>, i: nat, acc: Seq<ClassItem>, c: char)
    requires
        i + 2 < s.len(),
        s[i as int] == '\\',
        s[(i + 1) as int] == c,
        s[(i + 2) as int] == '\\' || s[(i + 2) as int] == ']',
    ensures
        class_items(s, i, acc) == class_items(s, i + 2, with_single(acc, c)),
        with_single(acc, c).len() == acc.len() + 1,
        with_single(acc, c)[acc.len() as int] == ClassItem::Single(c),
        forall|t: int| 0 <= t < acc.len() ==> with_single(acc, c)[t] == acc[t],
{
    assert(class_char(s, i) == Some((c, i + 2)));
}

/// Inside a class, `\` makes the character after it an item of its own: the
/// class of escaped characters `cs` is well formed, does not ignore case,
/// and matches exactly the one-character texts whose character is one of
/// `cs`, whatever those characters are (`-`, `]`, `^` and `\` among them).
pub proof fn lemma_escaped_class(cs: Seq<char>, w: Seq<char>)
    requires
        cs.len() > 0,
    ensures
        parse_spec(escaped_class(cs)) is Some,
        !parse_spec(escaped_class(cs))->Some_0.0,
        full_match(parse_spec(escaped_class(cs))->Some_0.1, w, false) <==> (w.len() == 1 && cs.contains(w[0])),
{
    let s = escaped_class(cs);
    lemma_escaped_class_parse(false, cs, w);
}

/// `|` separates alternatives: the pattern `u|v`, for dot patterns `u` and
/// `v`, is well formed, does not ignore case, and matches exactly the texts
/// that fit `u` and those that fit `v`.
pub proof fn lemma_alternation(u: Seq<char>, v: Seq<char>, w: Seq<char>)
    requires
        dot_pattern(u),
        dot_pattern(v),
    ensures
        parse_spec(u + seq!['|'] + v) is Some,
        !parse_spec(u + seq!['|'] + v)->Some_0.0,
        full_match(parse_spec(u + seq!['|'] + v)->Some_0.1, w, false) <==> (fits(u, w) || fits(v, w)),
{
    let s = u + seq!['|'] + v;
    let m = u.len();
    let n = v.len();
    assert(s.len() == m + 1 + n);
    assert(s[m as int] == '|');
    assert forall|i: int| 0 <= i < m implies plain_char(#[trigger] s[i]) || s[i] == '.' by {
        assert(s[i] == u[i]);
    }
    assert forall|i: int| m + 1 <= i < m + 1 + n implies plain_char(#[trigger] s[i]) || s[i] == '.' by {
        assert(s[i] == v[i - m - 1]);
    }
    if m > 0 {
        assert(plain_char(s[0]) || s[0] == '.');
    }
    lemma_flat_run(s, 0, 0, m);
    let a = flat(s, 0, m);
    assert(concat_rest(s, m, a) == Some((a, m)));
    assert(concat(s, 0) == Some((a, m)));
    lemma_flat_run(s, m + 1, 0, n);
    let b = flat(s, m + 1, n);
    assert(concat_rest(s, m + 1 + n, b) == Some((b, m + 1 + n)));
    assert(concat(s, m + 1) == Some((b, m + 1 + n)));
    let r = Regex::Alt(Box::new(a), Box::new(b));
    assert(alt_rest(s, m + 1 + n, r) == Some((r, m + 1 + n)));
    assert(alt_rest(s, m, a) == Some((r, m + 1 + n)));
    assert(alt(s, 0) == Some((r, m + 1 + n)));
    assert(parse_spec(s) == Some((false, r)));
    lemma_flat_matches(s, 0, m, w);
    lemma_flat_matches(s, m + 1, n, w);
    assert(s.subrange(0, m as int) =~= u);
    assert(s.subrange((m + 1) as int, (m + 1 + n) as int) =~= v);
}

/// The expression `u x` followed by the repetition operator `op`, as the
/// parser reads the pattern `u x op`.
proof fn lemma_last_item_parse(u: Seq<char>, x: char, op: char) -> (r: Regex)
    requires
        dot_pattern(u),
        plain_char(x) || x == '.',
        postfix_op(op),
    ensures
        parse_spec(u + seq![x, op]) == Some((false, r)),
        r == crate::regex::join(
            flat(u + seq![x, op], 0, u.len()),
            if op == '*' {
                Regex::Star(Box::new(item(x)))
            } else if op == '+' {
                Regex::Plus(Box::new(item(x)))
            } else {
                Regex::Opt(Box::new(item(x)))
            },
        ),
        forall|v: Seq<char>| full_match(flat(u + seq![x, op], 0, u.len()), v, false) <==> fits(u, v),
        u.len() > 0 ==> flat(u + seq![x, op], 0, u.len()) != Regex::Empty,
{
    let s = u + seq![x, op];
    let m = u.len();
    assert(s.len() == m + 2);
    assert(s[m as int] == x);
    assert(s[(m + 1) as int] == op);
    assert forall|i: int| 0 <= i < m implies plain_char(#[trigger] s[i]) || s[i] == '.' by {
        assert(s[i] == u[i]);
    }
    if m > 0 {
        assert(plain_char(s[0]) || s[0] == '.');
    } else {
        assert(s[0] == x);
    }
    lemma_flat_run(s, 0, 0, m);
    let a = flat(s, 0, m);
    let o = if op == '*' {
        Regex::Star(Box::new(item(x)))
    } else if op == '+' {
        Regex::Plus(Box::new(item(x)))
    } else {
        Regex::Opt(Box::new(item(x)))
    };
    assert(atom(s, m) == Some((item(x), m + 1)));
    assert(postfix(s, m + 2, o) == (o, m + 2));
    assert(postfix(s, m + 1, item(x)) == (o, m + 2));
    assert(repeat(s, m) == Some((o, m + 2)));
    let r = crate::regex::join(a, o);
    assert(concat_rest(s, m + 2, r) == Some((r, m + 2)));
    assert(concat_rest(s, m, a) == Some((r, m + 2)));
    assert(alt(s, 0) == Some((r, m + 2)));
    assert(s.subrange(0, m as int) =~= u);
    assert forall|v: Seq<char>| full_match(a, v, false) <==> fits(u, v) by {
        lemma_flat_matches(s, 0, m, v);
    }
    lemma_flat_matches(s, 0, m, Seq::empty());
    r
}

/// Every character of `v` is one that `x` (a character or `.`) stands for.
pub open spec fn all_fit(x: char, v: Seq<char>) -> bool {
    forall|i: int| 0 <= i < v.len() ==> x == '.' || #[trigger] v[i] == x
}

/// A sequence of pieces that the item of `x` matches is a text each of whose
/// characters `x` stands for.
proof fn lemma_item_star(x: char, v: Seq<char>)
    requires
        plain_char(x) || x == '.',
    ensures
        star_split(item(x), v, false, v.len()) <==> all_fit(x, v),
    decreases v.len(),
{
    if v.len() > 0 {
        let rest = v.drop_first();
        lemma_item_star(x, rest);
        if star_split(item(x), v, false, v.len()) {
            let j = crate::language::lemma_star_split(item(x), v, false, v.len());
            assert(j == 1);
            assert(v.skip(1) =~= rest);
            assert forall|i: int| 0 <= i < v.len() implies x == '.' || #[trigger] v[i] == x by {
                if i > 0 {
                    assert(rest[i - 1] == v[i]);
                } else {
                    assert(v.take(1)[0] == v[0]);
                }
            }
        }
        if all_fit(x, v) {
            assert(all_fit(x, rest)) by {
                assert forall|i: int| 0 <= i < rest.len() implies x == '.' || #[trigger] rest[i] == x by {
                    assert(rest[i] == v[i + 1]);
                }
            }
            let first = seq![v[0]];
            assert(full_match(item(x), first, false));
            crate::soundness::lemma_star_intro(item(x), first, rest, false);
            assert(first + rest =~= v);
        }
    }
}

/// `*` repeats the item before it any number of times: the pattern `u x*`,
/// for a dot pattern `u` and a character `x` that stands for itself or is
/// `.`, is well formed, does not ignore case, and matches exactly the texts
/// that start with a text fitting `u` and go on with characters that `x`
/// stands for.
pub proof fn lemma_star_last(u: Seq<char>, x: char, w: Seq<char>)
    requires
        dot_pattern(u),
        plain_char(x) || x == '.',
    ensures
        parse_spec(u + seq![x, '*']) is Some,
        !parse_spec(u + seq![x, '*'])->Some_0.0,
        full_match(parse_spec(u + seq![x, '*'])->Some_0.1, w, false) <==> (u.len() <= w.len() && fits(
            u,
            w.take(u.len() as int),
        ) && all_fit(x, w.skip(u.len() as int))),
{
    let r = lemma_last_item_parse(u, x, '*');
    let m = u.len();
    let a = flat(u + seq![x, '*'], 0, m);
    let o = Regex::Star(Box::new(item(x)));
    lemma_item_star(x, w);
    if m == 0 {
        assert(w.take(0) =~= Seq::<char>::empty());
        assert(w.skip(0) =~= w);
    } else {
        assert(r == Regex::Concat(Box::new(a), Box::new(o)));
        if full_match(r, w, false) {
            let j = lemma_concat_parts(a, o, w, false);
            assert(fits(u, w.take(j)));
            assert(j == m);
            lemma_item_star(x, w.skip(j));
        }
        if m <= w.len() && fits(u, w.take(m as int)) && all_fit(x, w.skip(m as int)) {
            lemma_item_star(x, w.skip(m as int));
            lemma_concat_intro(a, o, w.take(m as int), w.skip(m as int), false);
            assert(w.take(m as int) + w.skip(m as int) =~= w);
        }
    }
}

/// `+` repeats the item before it at least once: the pattern `u x+`, for a
/// dot pattern `u` and a character `x` that stands for itself or is `.`, is
/// well formed, does not ignore case, and matches exactly the texts that
/// start with a text fitting `u` and go on with one or more characters that
/// `x` stands for.
pub proof fn lemma_plus_last(u: Seq<char>, x: char, w: Seq<char>)
    requires
        dot_pattern(u),
        plain_char(x) || x == '.',
    ensures
        parse_spec(u + seq![x, '+']) is Some,
        !parse_spec(u + seq![x, '+'])->Some_0.0,
        full_match(parse_spec(u + seq![x, '+'])->Some_0.1, w, false) <==> (u.len() < w.len() && fits(
            u,
            w.take(u.len() as int),
        ) && all_fit(x, w.skip(u.len() as int))),
{
    let r = lemma_last_item_parse(u, x, '+');
    let m = u.len();
    let a = flat(u + seq![x, '+'], 0, m);
    let o = Regex::Plus(Box::new(item(x)));
    assert forall|v: Seq<char>| #[trigger] full_match(o, v, false) <==> (v.len() > 0 && all_fit(x, v)) by {
        if full_match(o, v, false) {
            let j = crate::language::lemma_plus_split(item(x), v, false, v.len());
            assert(j == 1);
            lemma_item_star(x, v.skip(1));
            assert forall|i: int| 0 <= i < v.len() implies x == '.' || #[trigger] v[i] == x by {
                if i > 0 {
                    assert(v.skip(1)[i - 1] == v[i]);
                } else {
                    assert(v.take(1)[0] == v[0]);
                }
            }
        }
        if v.len() > 0 && all_fit(x, v) {
            let first = seq![v[0]];
            let rest = v.drop_first();
            assert forall|i: int| 0 <= i < rest.len() implies x == '.' || #[trigger] rest[i] == x by {
                assert(rest[i] == v[i + 1]);
            }
            lemma_item_star(x, rest);
            assert(full_match(item(x), first, false));
            crate::soundness::lemma_plus_intro(item(x), first, rest, false);
            assert(first + rest =~= v);
        }
    }
    if m == 0 {
        assert(w.take(0) =~= Seq::<char>::empty());
        assert(w.skip(0) =~= w);
        assert(r == o);
        assert(full_match(o, w, false) <==> (w.len() > 0 && all_fit(x, w)));
    } else {
        assert(r == Regex::Concat(Box::new(a), Box::new(o)));
        if full_match(r, w, false) {
            let j = lemma_concat_parts(a, o, w, false);
            assert(fits(u, w.take(j)));
            assert(j == m);
            assert(full_match(o, w.skip(j), false));
        }
        if m < w.len() && fits(u, w.take(m as int)) && all_fit(x, w.skip(m as int)) {
            assert(full_match(o, w.skip(m as int), false));
            lemma_concat_intro(a, o, w.take(m as int), w.skip(m as int), false);
            assert(w.take(m as int) + w.skip(m as int) =~= w);
        }
    }
}

/// The class of escaped characters `cs` parses to the class of their
/// single-character items, negated or not; it matches the one-character
/// texts whose character is one of `cs`, or, negated, is none of them.
proof fn lemma_escaped_class_parse(negated: bool, cs: Seq<char>, w: Seq<char>)
    requires
        cs.len() > 0,
    ensures
        parse_spec(escaped_class_of(negated, cs)) is Some,
        !parse_spec(escaped_class_of(negated, cs))->Some_0.0,
        full_match(parse_spec(escaped_class_of(negated, cs))->Some_0.1, w, false) <==> (w.len() == 1 && (cs.contains(
            w[0],
        ) != negated)),
{
    let s = escaped_class_of(negated, cs);
    let n = cs.len();
    let o = items_start(negated);
    lemma_escaped_class_at(negated, cs, 0);
    lemma_escaped_items(negated, cs, 0, Seq::empty());
    let items = class_items(s, o, Seq::empty())->Some_0.0;
    let len = 2 * n + o + 1;
    assert(forall|t: int| 0 <= t < n ==> items[t] == ClassItem::Single(cs[t]));
    let c = Regex::Class(negated, items);
    if !negated {
        assert(s[1] == '\\');
    }
    assert(class_body(s, 1) == Some((c, len)));
    assert(atom(s, 0) == Some((c, len)));
    assert(repeat(s, 0) == Some((c, len)));
    assert(concat_rest(s, len, c) == Some((c, len)));
    assert(alt(s, 0) == Some((c, len)));
    assert(parse_spec(s) == Some((false, c)));
    if w.len() == 1 {
        if cs.contains(w[0]) {
            let k = choose|k: int| 0 <= k < cs.len() && cs[k] == w[0];
            assert(crate::program::item_matches(items[k], w[0]));
        }
        if crate::program::some_item_matches(items, w[0]) {
            let k = choose|k: int| 0 <= k < items.len() && crate::program::item_matches(#[trigger] items[k], w[0]);
            assert(cs[k] == w[0]);
        }
    }
}

/// A `^` after the `[` negates a class: the class `[^\c1\c2...]` of escaped
/// characters `cs` is well formed, does not ignore case, and matches exactly
/// the one-character texts whose character is none of `cs`.
pub proof fn lemma_negated_class(cs: Seq<char>, w: Seq<char>)
    requires
        cs.len() > 0,
    ensures
        parse_spec(escaped_class_of(true, cs)) is Some,
        !parse_spec(escaped_class_of(true, cs))->Some_0.0,
        full_match(parse_spec(escaped_class_of(true, cs))->Some_0.1, w, false) <==> (w.len() == 1 && !cs.contains(
            w[0],
        )),
{
    lemma_escaped_class_parse(true, cs, w);
}

/// The expression of a run of dot-pattern characters depends on those
/// characters alone.
proof fn lemma_flat_same(s: Seq<char>, a: nat, t: Seq<char>, b: nat, k: nat)
    requires
        a + k <= s.len(),
        b + k <= t.len(),
        s.subrange(a as int, (a + k) as int) == t.subrange(b as int, (b + k) as int),
    ensures
        flat(s, a, k) == flat(t, b, k),
    decreases k,
{
    if k > 0 {
        assert(s.subrange(a as int, (a + k - 1) as int) =~= s.subrange(a as int, (a + k) as int).take(k - 1));
        assert(t.subrange(b as int, (b + k - 1) as int) =~= t.subrange(b as int, (b + k) as int).take(k - 1));
        lemma_flat_same(s, a, t, b, (k - 1) as nat);
        assert(s[a + k - 1] == s.subrange(a as int, (a + k) as int)[k - 1]);
        assert(t[b + k - 1] == t.subrange(b as int, (b + k) as int)[k - 1]);
    }
}

/// A dot pattern parses to the expression of its characters.
proof fn lemma_dot_parse(u: Seq<char>)
    requires
        dot_pattern(u),
    ensures
        parse_spec(u) == Some((false, flat(u, 0, u.len()))),
{
    let n = u.len();
    if n > 0 {
        assert(plain_char(u[0]) || u[0] == '.');
    }
    lemma_flat_run(u, 0, 0, n);
    assert(concat_rest(u, n, flat(u, 0, n)) == Some((flat(u, 0, n), n)));
    assert(alt(u, 0) == Some((flat(u, 0, n), n)));
}

/// `(?i)` at the start makes a pattern ignore case and changes nothing else:
/// for a dot pattern `u`, `(?i)u` parses to the expression of `u`, with case
/// ignored.
pub proof fn lemma_nocase_flag(u: Seq<char>)
    requires
        dot_pattern(u),
    ensures
        parse_spec(seq!['(', '?', 'i', ')'] + u) == Some((true, parse_spec(u)->Some_0.1)),
{
    let s = seq!['(', '?', 'i', ')'] + u;
    let n = u.len();
    lemma_dot_parse(u);
    assert(s.len() == n + 4);
    assert(s[0] == '(' && s[1] == '?' && s[2] == 'i' && s[3] == ')');
    assert forall|i: int| 4 <= i < 4 + n implies plain_char(#[trigger] s[i]) || s[i] == '.' by {
        assert(s[i] == u[i - 4]);
    }
    lemma_flat_run(s, 4, 0, n);
    let r = flat(s, 4, n);
    assert(concat_rest(s, 4 + n, r) == Some((r, 4 + n)));
    assert(alt(s, 4) == Some((r, 4 + n)));
    assert(s.subrange(4, (4 + n) as int) =~= u.subrange(0, n as int));
    lemma_flat_same(s, 4, u, 0, n);
}

/// Parentheses group without changing the meaning: for a dot pattern `u`,
/// `(u)` parses to what `u` parses to.
pub proof fn lemma_group(u: Seq<char>)
    requires
        dot_pattern(u),
    ensures
        parse_spec(seq!['('] + u + seq![')']) == parse_spec(u),
{
    let s = seq!['('] + u + seq![')'];
    let n = u.len();
    lemma_dot_parse(u);
    assert(s.len() == n + 2);
    assert(s[0] == '(' && s[(n + 1) as int] == ')');
    assert forall|i: int| 1 <= i < 1 + n implies plain_char(#[trigger] s[i]) || s[i] == '.' by {
        assert(s[i] == u[i - 1]);
    }
    if n > 0 {
        assert(!postfix_op(s[1]) && s[1] != '?');
    }
    lemma_flat_run(s, 1, 0, n);
    let r = flat(s, 1, n);
    assert(concat_rest(s, 1 + n, r) == Some((r, 1 + n)));
    assert(alt(s, 1) == Some((r, 1 + n)));
    assert(atom(s, 0) == Some((r, n + 2)));
    assert(repeat(s, 0) == Some((r, n + 2)));
    assert(crate::regex::join(Regex::Empty, r) == r);
    assert(concat_rest(s, n + 2, r) == Some((r, n + 2)));
    assert(alt(s, 0) == Some((r, n + 2)));
    assert(s.subrange(1, (1 + n) as int) =~= u.subrange(0, n as int));
    lemma_flat_same(s, 1, u, 0, n);
}

/// A class of one range `[c-d]` (with `c <= d`, neither a `\`, `c` no `^`
/// and `d` no `]`) matches exactly the one-character texts between `c` and
/// `d`; with a `^` after the `[`, exactly those outside.
pub proof fn lemma_range_class(c: char, d: char, negated: bool, w: Seq<char>)
    requires
        c <= d,
        c != '\\' && c != '^' && c != ']',
        d != '\\' && d != ']',
    ensures
        ({
            let s = if negated {
                seq!['[', '^', c, '-', d, ']']
            } else {
                seq!['[', c, '-', d, ']']
            };
            &&& parse_spec(s) is Some
            &&& !parse_spec(s)->Some_0.0
            &&& full_match(parse_spec(s)->Some_0.1, w, false) <==> (w.len() == 1 && ((c <= w[0] && w[0] <= d)
                != negated))
        }),
{
    let s = if negated {
        seq!['[', '^', c, '-', d, ']']
    } else {
        seq!['[', c, '-', d, ']']
    };
    let o: nat = if negated { 2 } else { 1 };
    let items = seq![ClassItem::Range(c, d)];
    assert(s.len() == o + 4);
    assert(s[o as int] == c && s[(o + 1) as int] == '-' && s[(o + 2) as int] == d && s[(o + 3) as int] == ']');
    assert(class_char(s, o) == Some((c, o + 1)));
    assert(class_char(s, o + 2) == Some((d, o + 3)));
    assert(Seq::<ClassItem>::empty().push(ClassItem::Range(c, d)) =~= items);
    assert(class_items(s, o + 3, items) == Some((items, o + 4)));
    assert(class_items(s, o, Seq::empty()) == Some((items, o + 4)));
    let cl = Regex::Class(negated, items);
    assert(class_body(s, 1) == Some((cl, o + 4)));
    assert(atom(s, 0) == Some((cl, o + 4)));
    assert(repeat(s, 0) == Some((cl, o + 4)));
    assert(concat_rest(s, o + 4, cl) == Some((cl, o + 4)));
    assert(alt(s, 0) == Some((cl, o + 4)));
    if w.len() == 1 {
        assert(crate::program::some_item_matches(items, w[0]) <==> (c <= w[0] && w[0] <= d)) by {
            if c <= w[0] && w[0] <= d {
                assert(crate::program::item_matches(items[0], w[0]));
            }
        }
    }
}

} // verus!
