//! Representation for data stored in tree nodes: a text span and named
//! attributes.

use vstd::prelude::*;
use vstd::string::StringExecFns;

verus! {

/// The text `n` in decimal digits, as `usize`'s `Display` writes it.
pub open spec fn decimal(n: nat) -> Seq<char>
    decreases n,
{
    if n < 10 {
        seq![digit_char(n)]
    } else {
        decimal(n / 10).push(digit_char(n % 10))
    }
}

/// The character of the decimal digit `d`.
pub open spec fn digit_char(d: nat) -> char {
    (48 + d) as char
}

/// The decimal digit `d` as text.
fn digit_str(d: usize) -> (s: &'static str)
    requires
        d < 10,
    ensures
        s@ == seq![digit_char(d as nat)],
{
    proof {
        reveal_strlit("0");
        reveal_strlit("1");
        reveal_strlit("2");
        reveal_strlit("3");
        reveal_strlit("4");
        reveal_strlit("5");
        reveal_strlit("6");
        reveal_strlit("7");
        reveal_strlit("8");
        reveal_strlit("9");
    }
    if d == 0 {
        "0"
    } else if d == 1 {
        "1"
    } else if d == 2 {
        "2"
    } else if d == 3 {
        "3"
    } else if d == 4 {
        "4"
    } else if d == 5 {
        "5"
    } else if d == 6 {
        "6"
    } else if d == 7 {
        "7"
    } else if d == 8 {
        "8"
    } else {
        "9"
    }
}

/// `n` in decimal digits, as `usize`'s `Display` writes it: without sign,
/// padding or leading zeros.
pub(crate) fn usize_to_string(n: usize) -> (s: String)
    ensures
        s@ == decimal(n as nat),
    decreases n,
{
    if n < 10 {
        String::from_str(digit_str(n))
    } else {
        let mut s = usize_to_string(n / 10);
        s.append(digit_str(n % 10));
        s
    }
}

/// The data of one tree node: the span of text it covers, if set, and
/// attributes that map names to values.
#[derive(Debug, Clone)]
pub struct NodeLabel {
    span: Option<(usize, usize)>,
    attributes: Vec<(String, String)>,
}

/// The attributes held in a list of name-value pairs.
pub open spec fn attr_map(pairs: Seq<(String, String)>) -> Map<Seq<char>, Seq<char>> {
    Map::new(
        |k: Seq<char>| exists|i: int| 0 <= i < pairs.len() && #[trigger] pairs[i].0@ == k,
        |k: Seq<char>| pairs[choose|i: int| 0 <= i < pairs.len() && #[trigger] pairs[i].0@ == k].1@,
    )
}

/// No name occurs twice in the list.
pub open spec fn distinct_names(pairs: Seq<(String, String)>) -> bool {
    forall|i: int, j: int| 0 <= i < pairs.len() && 0 <= j < pairs.len() && i != j ==> pairs[i].0@ != pairs[j].0@
}

impl NodeLabel {
    /// The span, if set.
    pub closed spec fn span(&self) -> Option<(usize, usize)> {
        self.span
    }

    /// The attributes, by name.
    pub closed spec fn sym_vals(&self) -> Map<Seq<char>, Seq<char>> {
        attr_map(self.attributes@)
    }

    /// Well-formed: no attribute name occurs twice.
    pub closed spec fn wf(&self) -> bool {
        distinct_names(self.attributes@)
    }

    /// A label without span or attributes.
    pub fn new() -> (l: NodeLabel)
        ensures
            l.wf(),
            l.span() is None,
            l.sym_vals() == Map::<Seq<char>, Seq<char>>::empty(),
    {
        let l = NodeLabel { span: None, attributes: Vec::new() };
        proof {
            assert(l.sym_vals() =~= Map::<Seq<char>, Seq<char>>::empty());
        }
        l
    }

    /// Sets the span to `begin..end`, and hands the label back for further
    /// settings.
    pub fn set_span(&mut self, begin: usize, end: usize) -> (r: &mut NodeLabel)
        ensures
            r.span() == Some((begin, end)),
            r.sym_vals() == old(self).sym_vals(),
            r.wf() == old(self).wf(),
            *final(self) == *final(r),
    {
        self.span = Some((begin, end));
        self
    }

    /// The span, if set.
    pub fn get_span(&self) -> (r: Option<(usize, usize)>)
        ensures
            r == self.span(),
    {
        self.span
    }

    /// The label as it is displayed: the two ends of its span, each followed
    /// by a space. The span must be set.
    pub fn to_string(&self) -> (r: String)
        requires
            self.span() is Some,
        ensures
            r@ == decimal((self.span()->0).0 as nat) + seq![' '] + decimal((self.span()->0).1 as nat) + seq![' '],
    {
        let (begin, end) = match self.span {
            Some(se) => se,
            None => (0, 0),
        };
        let mut r = usize_to_string(begin);
        r.append(" ");
        let e = usize_to_string(end);
        r.append(e.as_str());
        r.append(" ");
        proof {
            reveal_strlit(" ");
        }
        r
    }

    /// The position of the attribute named `key`, if set.
    fn find_attr(&self, key: &String) -> (r: Option<usize>)
        ensures
            r matches Some(i) ==> i < self.attributes@.len() && self.attributes@[i as int].0@ == key@,
            r is None ==> forall|j: int| 0 <= j < self.attributes@.len() ==> self.attributes@[j].0@ != key@,
    {
        let mut i: usize = 0;
        while i < self.attributes.len()
            invariant
                i <= self.attributes@.len(),
                forall|j: int| 0 <= j < i ==> self.attributes@[j].0@ != key@,
            decreases self.attributes@.len() - i,
        {
            if self.attributes[i].0 == *key {
                return Some(i);
            }
            i += 1;
        }
        None
    }

    /// Sets the attribute `attr` to `val`, replacing any earlier value, and
    /// hands the label back for further settings.
    pub fn set_sym_val(&mut self, attr: &str, val: &str) -> (r: &mut NodeLabel)
        requires
            old(self).wf(),
        ensures
            r.wf(),
            r.span() == old(self).span(),
            r.sym_vals() == old(self).sym_vals().insert(attr@, val@),
            *final(self) == *final(r),
    {
        let key = String::from_str(attr);
        let value = String::from_str(val);
        let ghost old_pairs = self.attributes@;
        match self.find_attr(&key) {
            Some(i) => {
                self.attributes.set(i, (key, value));
                proof {
                    let new_pairs = self.attributes@;
                    assert forall|a: int, b: int| 0 <= a < new_pairs.len() && 0 <= b < new_pairs.len() && a != b
                        implies new_pairs[a].0@ != new_pairs[b].0@ by {
                        assert(new_pairs[a].0@ == old_pairs[a].0@);
                        assert(new_pairs[b].0@ == old_pairs[b].0@);
                    }
                    lemma_attr_map_update(old_pairs, new_pairs, i as int, attr@, val@);
                }
            },
            None => {
                self.attributes.push((key, value));
                proof {
                    let new_pairs = self.attributes@;
                    assert forall|a: int, b: int| 0 <= a < new_pairs.len() && 0 <= b < new_pairs.len() && a != b
                        implies new_pairs[a].0@ != new_pairs[b].0@ by {
                        if a < old_pairs.len() {
                            assert(new_pairs[a] == old_pairs[a]);
                        }
                        if b < old_pairs.len() {
                            assert(new_pairs[b] == old_pairs[b]);
                        }
                    }
                    lemma_attr_map_update(old_pairs, new_pairs, old_pairs.len() as int, attr@, val@);
                }
            },
        }
        self
    }

    /// The value of the attribute `attr`, which must be set.
    pub fn get_sym_val(&self, attr: &str) -> (v: &str)
        requires
            self.wf(),
            self.sym_vals().contains_key(attr@),
        ensures
            v@ == self.sym_vals()[attr@],
    {
        let key = String::from_str(attr);
        match self.find_attr(&key) {
            Some(i) => {
                proof {
                    lemma_attr_lookup(self.attributes@, i as int);
                }
                self.attributes[i].1.as_str()
            },
            None => {
                proof {
                    let j = choose|j: int| 0 <= j < self.attributes@.len() && #[trigger] self.attributes@[j].0@ == attr@;
                    assert(self.attributes@[j].0@ != key@);
                }
                self.attributes[0].1.as_str()
            },
        }
    }
}

/// In a list without repeated names, the attribute named at position `i` has
/// the value at position `i`.
pub proof fn lemma_attr_lookup(pairs: Seq<(String, String)>, i: int)
    requires
        distinct_names(pairs),
        0 <= i < pairs.len(),
    ensures
        attr_map(pairs).contains_key(pairs[i].0@),
        attr_map(pairs)[pairs[i].0@] == pairs[i].1@,
{
    let k = pairs[i].0@;
    assert(pairs[i].0@ == k);
    let j = choose|j: int| 0 <= j < pairs.len() && #[trigger] pairs[j].0@ == k;
    assert(j == i);
}

/// Writing the pair `(k, v)` at position `i` (in place of a pair named `k`,
/// or at the end) updates the attributes at `k`.
proof fn lemma_attr_map_update(
    old_pairs: Seq<(String, String)>,
    new_pairs: Seq<(String, String)>,
    i: int,
    k: Seq<char>,
    v: Seq<char>,
)
    requires
        distinct_names(old_pairs),
        distinct_names(new_pairs),
        0 <= i <= old_pairs.len(),
        i < old_pairs.len() ==> old_pairs[i].0@ == k && new_pairs.len() == old_pairs.len(),
        i == old_pairs.len() ==> new_pairs.len() == old_pairs.len() + 1 && forall|j: int|
            0 <= j < old_pairs.len() ==> old_pairs[j].0@ != k,
        new_pairs[i].0@ == k,
        new_pairs[i].1@ == v,
        forall|j: int| 0 <= j < old_pairs.len() && j != i ==> new_pairs[j] == old_pairs[j],
    ensures
        attr_map(new_pairs) == attr_map(old_pairs).insert(k, v),
{
    let m_new = attr_map(new_pairs);
    let m_old = attr_map(old_pairs).insert(k, v);
    lemma_attr_lookup(new_pairs, i);
    assert forall|key: Seq<char>| m_new.contains_key(key) <==> m_old.contains_key(key) by {
        if key != k {
            if m_new.contains_key(key) {
                let j = choose|j: int| 0 <= j < new_pairs.len() && #[trigger] new_pairs[j].0@ == key;
                assert(j != i);
                assert(old_pairs[j].0@ == key);
            }
            if attr_map(old_pairs).contains_key(key) {
                let j = choose|j: int| 0 <= j < old_pairs.len() && #[trigger] old_pairs[j].0@ == key;
                assert(j != i);
                assert(new_pairs[j].0@ == key);
            }
        }
    }
    assert forall|key: Seq<char>| m_new.contains_key(key) implies m_new[key] == m_old[key] by {
        if key != k {
            let j = choose|j: int| 0 <= j < new_pairs.len() && #[trigger] new_pairs[j].0@ == key;
            assert(j != i);
            assert(new_pairs[j] == old_pairs[j]);
            lemma_attr_lookup(new_pairs, j);
            lemma_attr_lookup(old_pairs, j);
        }
    }
    assert(m_new =~= m_old);
}

} // verus!
