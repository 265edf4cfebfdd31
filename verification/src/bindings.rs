//! Variable bindings: a name-to-value table whose view is a `Map` from
//! name characters to value characters.

use vstd::prelude::*;
use vstd::string::StrSliceExecFns;

verus! {

/// Whether two string slices hold the same characters.
pub fn str_eq(a: &str, b: &str) -> (r: bool)
    ensures
        r == (a@ == b@),
{
    let na = a.unicode_len();
    let nb = b.unicode_len();
    if na != nb {
        return false;
    }
    let mut i: usize = 0;
    while i < na
        invariant
            i <= na,
            na == a@.len(),
            na == b@.len(),
            forall|k: int| 0 <= k < i ==> a@[k] == b@[k],
        decreases na - i,
    {
        if a.get_char(i) != b.get_char(i) {
            return false;
        }
        i = i + 1;
    }
    proof {
        assert(a@ =~= b@);
    }
    true
}

/// The map a pair list stands for; an earlier pair hides a later one with
/// the same name.
pub open spec fn map_of(pairs: Seq<(String, String)>) -> Map<Seq<char>, Seq<char>>
    decreases pairs.len(),
{
    if pairs.len() == 0 {
        Map::<Seq<char>, Seq<char>>::empty()
    } else {
        map_of(pairs.drop_first()).insert(pairs[0].0@, pairs[0].1@)
    }
}

/// The value a front-to-back scan of the pair list finds for `k`.
pub open spec fn assoc_get(pairs: Seq<(String, String)>, k: Seq<char>) -> Option<Seq<char>>
    decreases pairs.len(),
{
    if pairs.len() == 0 {
        None
    } else if pairs[0].0@ == k {
        Some(pairs[0].1@)
    } else {
        assoc_get(pairs.drop_first(), k)
    }
}

proof fn lemma_assoc_get_is_map_of(pairs: Seq<(String, String)>, k: Seq<char>)
    ensures
        map_of(pairs).contains_key(k) <==> assoc_get(pairs, k) is Some,
        map_of(pairs).contains_key(k) ==> assoc_get(pairs, k) == Some(map_of(pairs)[k]),
    decreases pairs.len(),
{
    if pairs.len() > 0 {
        lemma_assoc_get_is_map_of(pairs.drop_first(), k);
    }
}

/// A table of variable bindings, read by `Matcher::resolve`.
#[derive(Clone, Debug, PartialEq, Eq)]
pub struct Bindings {
    pairs: Vec<(String, String)>,
}

impl View for Bindings {
    type V = Map<Seq<char>, Seq<char>>;

    closed spec fn view(&self) -> Map<Seq<char>, Seq<char>> {
        map_of(self.pairs@)
    }
}

impl Bindings {
    /// An empty table.
    pub fn new() -> (b: Bindings)
        ensures
            b@ == Map::<Seq<char>, Seq<char>>::empty(),
    {
        let b = Bindings { pairs: Vec::new() };
        proof {
            assert(b@ =~= Map::<Seq<char>, Seq<char>>::empty());
        }
        b
    }

    /// Bind `name` to `value`, replacing any earlier binding of `name`.
    pub fn insert(&mut self, name: &str, value: &str)
        ensures
            final (self)@ == old(self)@.insert(name@, value@),
    {
        self.pairs.insert(0, (name.to_owned(), value.to_owned()));
        proof {
            assert(self.pairs@.drop_first() =~= old(self).pairs@);
        }
    }

    /// The value bound to `name`, if any.
    pub fn get<'a>(&'a self, name: &str) -> (r: Option<&'a String>)
        ensures
            match r {
                Some(v) => self@.contains_key(name@) && v@ == self@[name@],
                None => !self@.contains_key(name@),
            },
    {
        let n = self.pairs.len();
        let mut i: usize = 0;
        proof {
            assert(self.pairs@.skip(0) =~= self.pairs@);
        }
        while i < n
            invariant
                i <= n,
                n == self.pairs@.len(),
                assoc_get(self.pairs@, name@) == assoc_get(self.pairs@.skip(i as int), name@),
            decreases n - i,
        {
            proof {
                assert(self.pairs@.skip(i as int).drop_first() =~= self.pairs@.skip(i + 1 as int));
                assert(self.pairs@.skip(i as int)[0] == self.pairs@[i as int]);
            }
            if str_eq(self.pairs[i].0.as_str(), name) {
                proof {
                    lemma_assoc_get_is_map_of(self.pairs@, name@);
                    assert(self.pairs@.skip(i as int).len() > 0);
                    assert(assoc_get(self.pairs@.skip(i as int), name@) == Some(
                        self.pairs@[i as int].1@,
                    ));
                }
                return Some(&self.pairs[i].1);
            }
            i = i + 1;
        }
        proof {
            lemma_assoc_get_is_map_of(self.pairs@, name@);
            assert(self.pairs@.skip(n as int) =~= Seq::<(String, String)>::empty());
        }
        None
    }

    /// Whether `name` is bound.
    pub fn contains_key(&self, name: &str) -> (r: bool)
        ensures
            r == self@.contains_key(name@),
    {
        match self.get(name) {
            Some(_) => true,
            None => false,
        }
    }
}

} // verus!
