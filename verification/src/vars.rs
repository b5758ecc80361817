//! Variable tables: the process environment as the parsers see it, the
//! values resolved so far from a file, and the substitution context of the
//! line parser. Each is an ordered list of assignments in which the latest
//! assignment of a name wins.

use vstd::prelude::*;
use crate::text::{chars_eq, chars_of, string_of_all};

verus! {

/// The value that the latest assignment of `k` in `s` gives it, if any.
pub open spec fn assoc_get<V>(s: Seq<(Seq<char>, V)>, k: Seq<char>) -> Option<V>
    decreases s.len(),
{
    if s.len() == 0 {
        None
    } else if s.last().0 == k {
        Some(s.last().1)
    } else {
        assoc_get(s.drop_last(), k)
    }
}

/// `assoc_get` finds the last assignment of `k`, or none when `k` is never assigned.
pub proof fn lemma_assoc_get<V>(s: Seq<(Seq<char>, V)>, k: Seq<char>, i: int)
    requires
        -1 <= i < s.len(),
        i >= 0 ==> s[i].0 == k,
        forall|j: int| i < j < s.len() ==> s[j].0 != k,
    ensures
        assoc_get(s, k) == (if i >= 0 {
            Some(s[i].1)
        } else {
            None::<V>
        }),
    decreases s.len(),
{
    if s.len() > 0 && s.len() - 1 != i {
        lemma_assoc_get(s.drop_last(), k, i);
    }
}

/// The index of the last entry whose name is `key`.
fn find_last<V>(entries: &Vec<(Vec<char>, V)>, key: &Vec<char>) -> (r: Option<usize>)
    ensures
        match r {
            Some(i) => i < entries.len() && entries@[i as int].0@ == key@ && forall|j: int|
                i < j < entries.len() ==> #[trigger] entries@[j].0@ != key@,
            None => forall|j: int| 0 <= j < entries.len() ==> #[trigger] entries@[j].0@ != key@,
        },
{
    let mut i = entries.len();
    while i > 0
        invariant
            i <= entries.len(),
            forall|j: int| i <= j < entries.len() ==> #[trigger] entries@[j].0@ != key@,
        decreases i,
    {
        i = i - 1;
        if chars_eq(&entries[i].0, key) {
            return Some(i);
        }
    }
    None
}

/// An ordered list of `name = value` assignments; the latest one of a name wins.
pub struct Vars {
    entries: Vec<(Vec<char>, Vec<char>)>,
}

/// The process environment as the library sees it: the names and values of
/// the environment variables that hold valid Unicode, in any order, with
/// later assignments overriding earlier ones.
pub type Environment = Vars;

impl View for Vars {
    type V = Seq<(Seq<char>, Seq<char>)>;

    closed spec fn view(&self) -> Seq<(Seq<char>, Seq<char>)> {
        self.entries@.map_values(|e: (Vec<char>, Vec<char>)| (e.0@, e.1@))
    }
}

impl Vars {
    /// The value of `name`, if it is assigned.
    pub open spec fn get_spec(&self, name: Seq<char>) -> Option<Seq<char>> {
        assoc_get(self@, name)
    }

    /// An empty table.
    pub fn new() -> (res: Vars)
        ensures
            res@ == Seq::<(Seq<char>, Seq<char>)>::empty(),
    {
        Vars { entries: Vec::new() }
    }

    /// Assigns `value` to `key`.
    pub fn set(&mut self, key: &str, value: &str)
        ensures
            final(self)@ == old(self)@.push((key@, value@)),
    {
        let k = chars_of(key);
        let v = chars_of(value);
        self.set_chars(k, v);
    }

    /// Assigns `value` to `key`.
    pub(crate) fn set_chars(&mut self, key: Vec<char>, value: Vec<char>)
        ensures
            final(self)@ == old(self)@.push((key@, value@)),
    {
        self.entries.push((key, value));
        assert(self@ =~= old(self)@.push((key@, value@)));
    }

    /// The value of `name`, if it is assigned.
    pub(crate) fn lookup(&self, name: &Vec<char>) -> (r: Option<&Vec<char>>)
        ensures
            match r {
                Some(v) => self.get_spec(name@) == Some(v@),
                None => self.get_spec(name@) is None,
            },
    {
        match find_last(&self.entries, name) {
            Some(i) => {
                proof {
                    lemma_assoc_get(self@, name@, i as int);
                }
                Some(&self.entries[i].1)
            },
            None => {
                proof {
                    lemma_assoc_get(self@, name@, -1);
                }
                None
            },
        }
    }

    /// The value of `name`, if it is assigned.
    pub fn get(&self, name: &str) -> (r: Option<String>)
        ensures
            match r {
                Some(v) => self.get_spec(name@) == Some(v@),
                None => self.get_spec(name@) is None,
            },
    {
        let n = chars_of(name);
        match self.lookup(&n) {
            Some(v) => Some(string_of_all(v)),
            None => None,
        }
    }

    /// The number of assignments.
    pub fn len(&self) -> (n: usize)
        ensures
            n == self@.len(),
    {
        self.entries.len()
    }

    /// The `i`-th assignment, oldest first.
    pub fn entry(&self, i: usize) -> (r: (String, String))
        requires
            i < self@.len(),
        ensures
            r.0@ == self@[i as int].0,
            r.1@ == self@[i as int].1,
    {
        (string_of_all(&self.entries[i].0), string_of_all(&self.entries[i].1))
    }
}

/// The substitution context of the line parser: for each key parsed so far,
/// its value, or nothing when the key was given an empty value.
pub struct Context {
    entries: Vec<(Vec<char>, Option<Vec<char>>)>,
}

/// The view of an optional character vector.
pub open spec fn opt_view(o: Option<Vec<char>>) -> Option<Seq<char>> {
    match o {
        Some(v) => Some(v@),
        None => None,
    }
}

impl View for Context {
    type V = Seq<(Seq<char>, Option<Seq<char>>)>;

    closed spec fn view(&self) -> Seq<(Seq<char>, Option<Seq<char>>)> {
        self.entries@.map_values(|e: (Vec<char>, Option<Vec<char>>)| (e.0@, opt_view(e.1)))
    }
}

impl Context {
    /// An empty context.
    pub fn new() -> (res: Context)
        ensures
            res@ == Seq::<(Seq<char>, Option<Seq<char>>)>::empty(),
    {
        Context { entries: Vec::new() }
    }

    /// Records `value` for `key`.
    pub(crate) fn insert(&mut self, key: Vec<char>, value: Option<Vec<char>>)
        ensures
            final(self)@ == old(self)@.push((key@, opt_view(value))),
    {
        let ghost v = opt_view(value);
        self.entries.push((key, value));
        assert(self@ =~= old(self)@.push((key@, v)));
    }

    /// The value recorded for `name`: `Some(Some(v))` for a value,
    /// `Some(None)` for an empty one, `None` when `name` was never recorded.
    pub(crate) fn lookup(&self, name: &Vec<char>) -> (r: Option<&Option<Vec<char>>>)
        ensures
            match r {
                Some(v) => assoc_get(self@, name@) == Some(opt_view(*v)),
                None => assoc_get(self@, name@) is None,
            },
    {
        match find_last(&self.entries, name) {
            Some(i) => {
                proof {
                    lemma_assoc_get(self@, name@, i as int);
                }
                Some(&self.entries[i].1)
            },
            None => {
                proof {
                    lemma_assoc_get(self@, name@, -1);
                }
                None
            },
        }
    }

    /// The value recorded for `name`, as for [`Context::lookup`].
    pub fn get(&self, name: &str) -> (r: Option<Option<String>>)
        ensures
            match r {
                Some(Some(v)) => assoc_get(self@, name@) == Some(Some(v@)),
                Some(None) => assoc_get(self@, name@) == Some(None::<Seq<char>>),
                None => assoc_get(self@, name@) is None,
            },
    {
        let n = chars_of(name);
        match self.lookup(&n) {
            Some(Some(v)) => Some(Some(string_of_all(v))),
            Some(None) => Some(None),
            None => None,
        }
    }
}

} // verus!
