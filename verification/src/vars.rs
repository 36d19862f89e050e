//! `VarMap`: the per-namespace variable map from placeholder name to resolved
//! value, with last-write-wins on repeated inserts of one key.

use vstd::prelude::*;
use crate::chars::chars_eq;
use crate::chars::chars_to_string;
use crate::chars::str_chars;

verus! {

/// A mapping from placeholder names to resolved values, scoped to one
/// namespace. Inserts are kept in order; a later insert of a key already
/// present wins, which is what last-write-wins resolution needs.
pub struct VarMap {
    pairs: Vec<(Vec<char>, Vec<char>)>,
}

impl VarMap {
    /// The map described by the first `n` inserts.
    pub closed spec fn map_upto(self, n: int) -> Map<Seq<char>, Seq<char>>
        decreases n,
    {
        if n <= 0 {
            Map::empty()
        } else {
            self.map_upto(n - 1).insert(self.pairs@[n - 1].0@, self.pairs@[n - 1].1@)
        }
    }
}

impl View for VarMap {
    type V = Map<Seq<char>, Seq<char>>;

    closed spec fn view(&self) -> Map<Seq<char>, Seq<char>> {
        self.map_upto(self.pairs@.len() as int)
    }
}

proof fn lemma_map_upto_agree(a: VarMap, b: VarMap, n: int)
    requires
        0 <= n <= a.pairs@.len(),
        n <= b.pairs@.len(),
        forall|i: int| 0 <= i < n ==> a.pairs@[i] == b.pairs@[i],
    ensures
        a.map_upto(n) == b.map_upto(n),
    decreases n,
{
    if n > 0 {
        lemma_map_upto_agree(a, b, n - 1);
    }
}

proof fn lemma_map_upto_dom(m: VarMap, n: int)
    requires
        0 <= n <= m.pairs@.len(),
    ensures
        forall|x: Seq<char>|
            m.map_upto(n).dom().contains(x) <==> exists|k: int|
                0 <= k < n && (#[trigger] m.pairs@[k]).0@ == x,
    decreases n,
{
    if n > 0 {
        lemma_map_upto_dom(m, n - 1);
        assert forall|x: Seq<char>| m.map_upto(n).dom().contains(x) implies exists|k: int|
            0 <= k < n && (#[trigger] m.pairs@[k]).0@ == x by {
            if x == m.pairs@[n - 1].0@ {
                assert((m.pairs@[n - 1]).0@ == x);
            } else {
                assert(m.map_upto(n - 1).dom().contains(x));
            }
        }
        assert forall|x: Seq<char>|
            (exists|k: int| 0 <= k < n && (#[trigger] m.pairs@[k]).0@ == x) implies m.map_upto(
            n,
        ).dom().contains(x) by {
            let k = choose|k: int| 0 <= k < n && (#[trigger] m.pairs@[k]).0@ == x;
            if k < n - 1 {
                assert(m.map_upto(n - 1).dom().contains(x));
            }
        }
    }
}

proof fn lemma_map_upto_get(m: VarMap, n: int, k: int)
    requires
        0 <= k < n <= m.pairs@.len(),
        forall|k2: int| k < k2 < n ==> (#[trigger] m.pairs@[k2]).0@ != m.pairs@[k].0@,
    ensures
        m.map_upto(n).dom().contains(m.pairs@[k].0@),
        m.map_upto(n)[m.pairs@[k].0@] == m.pairs@[k].1@,
    decreases n,
{
    if k < n - 1 {
        lemma_map_upto_get(m, n - 1, k);
    }
}

impl VarMap {
    /// An empty variable map.
    pub fn new() -> (m: VarMap)
        ensures
            m@ == Map::<Seq<char>, Seq<char>>::empty(),
    {
        VarMap { pairs: Vec::new() }
    }

    /// Binds `key` to `value`, overriding any earlier binding of `key`.
    pub fn insert(&mut self, key: &str, value: &str)
        ensures
            final(self)@ == old(self)@.insert(key@, value@),
    {
        let k = str_chars(key);
        let v = str_chars(value);
        proof {
            assert(k@ == key@);
            assert(v@ == value@);
        }
        self.pairs.push((k, v));
        proof {
            lemma_map_upto_agree(*old(self), *self, old(self).pairs@.len() as int);
        }
    }

    /// Looks `name` up, returning the value of its most recent binding.
    pub fn get_chars<'a>(&'a self, name: &Vec<char>) -> (r: Option<&'a Vec<char>>)
        ensures
            match r {
                Option::Some(v) => self@.dom().contains(name@) && v@ == self@[name@],
                Option::None => !self@.dom().contains(name@),
            },
    {
        let n = self.pairs.len();
        let mut i: usize = n;
        while i > 0
            invariant
                i <= n,
                n == self.pairs@.len(),
                forall|k: int| i <= k < n ==> (#[trigger] self.pairs@[k]).0@ != name@,
            decreases i,
        {
            i = i - 1;
            if chars_eq(&self.pairs[i].0, name) {
                proof {
                    lemma_map_upto_get(*self, n as int, i as int);
                }
                return Option::Some(&self.pairs[i].1);
            }
        }
        proof {
            lemma_map_upto_dom(*self, n as int);
        }
        Option::None
    }

    /// Looks `name` up, returning the value of its most recent binding.
    pub fn get(&self, name: &str) -> (r: Option<String>)
        ensures
            match r {
                Option::Some(v) => self@.dom().contains(name@) && v@ == self@[name@],
                Option::None => !self@.dom().contains(name@),
            },
    {
        let nm = str_chars(name);
        match self.get_chars(&nm) {
            Option::Some(v) => Option::Some(chars_to_string(v)),
            Option::None => Option::None,
        }
    }

    /// Whether `name` is bound.
    pub fn contains_key(&self, name: &str) -> (b: bool)
        ensures
            b == self@.dom().contains(name@),
    {
        let nm = str_chars(name);
        self.get_chars(&nm).is_some()
    }
}

} // verus!
