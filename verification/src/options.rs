//! String-keyed lookup tables for glyphs and aliases.

use vstd::prelude::*;
use crate::text::str_eq;

verus! {

/// What a list of key/value pairs maps `key` to: the value of the last pair
/// with that key, if there is one.
pub open spec fn lookup(pairs: Seq<(Seq<char>, Seq<char>)>, key: Seq<char>) -> Option<Seq<char>>
    decreases pairs.len(),
{
    if pairs.len() == 0 {
        None
    } else if pairs.last().0 == key {
        Some(pairs.last().1)
    } else {
        lookup(pairs.drop_last(), key)
    }
}

/// The map that a list of key/value pairs stands for.
pub open spec fn map_of(pairs: Seq<(Seq<char>, Seq<char>)>) -> Map<Seq<char>, Seq<char>> {
    Map::new(
        |k: Seq<char>| lookup(pairs, k) is Some,
        |k: Seq<char>| lookup(pairs, k).unwrap(),
    )
}

/// Adding a pair at the end of the list inserts it into the map.
pub proof fn lemma_map_of_push(pairs: Seq<(Seq<char>, Seq<char>)>, key: Seq<char>, value: Seq<char>)
    ensures
        map_of(pairs.push((key, value))) == map_of(pairs).insert(key, value),
{
    let longer = pairs.push((key, value));
    assert(longer.drop_last() =~= pairs);
    assert forall|k: Seq<char>| #[trigger] lookup(longer, k) == (if k == key {
        Some(value)
    } else {
        lookup(pairs, k)
    }) by {}
    assert(map_of(longer) =~= map_of(pairs).insert(key, value));
}

/// A table from strings to strings, such as file extension to glyph or alias
/// to canonical name.
///
/// The table is kept as a list of pairs in the order of insertion; a later
/// pair shadows an earlier one with the same key.
#[derive(Debug)]
pub struct Options {
    entries: Vec<(String, String)>,
}

impl View for Options {
    type V = Map<Seq<char>, Seq<char>>;

    closed spec fn view(&self) -> Map<Seq<char>, Seq<char>> {
        map_of(self.pairs())
    }
}

impl Options {
    /// The stored pairs, each string taken as its characters.
    pub closed spec fn pairs(&self) -> Seq<(Seq<char>, Seq<char>)> {
        self.entries@.map_values(|e: (String, String)| (e.0@, e.1@))
    }

    /// The empty table.
    pub fn new() -> (table: Options)
        ensures
            table@ == Map::<Seq<char>, Seq<char>>::empty(),
    {
        let table = Options { entries: Vec::new() };
        assert(table.pairs() =~= Seq::empty());
        assert(table@ =~= Map::<Seq<char>, Seq<char>>::empty());
        table
    }

    /// Maps `key` to `value`, replacing what `key` was mapped to before.
    pub fn insert(&mut self, key: String, value: String)
        ensures
            final(self)@ == old(self)@.insert(key@, value@),
    {
        proof {
            lemma_map_of_push(self.pairs(), key@, value@);
        }
        let ghost before = self.pairs();
        self.entries.push((key, value));
        assert(self.pairs() =~= before.push((key@, value@)));
    }

    /// The value that `key` is mapped to, if any.
    pub fn get(&self, key: &str) -> (found: Option<&String>)
        ensures
            match found {
                Some(value) => self@.contains_key(key@) && value@ == self@[key@],
                None => !self@.contains_key(key@),
            },
    {
        let mut i: usize = self.entries.len();
        assert(self.pairs().take(i as int) =~= self.pairs());
        while i > 0
            invariant
                i <= self.entries.len(),
                lookup(self.pairs(), key@) == lookup(self.pairs().take(i as int), key@),
            decreases i,
        {
            i -= 1;
            let ghost prefix = self.pairs().take(i + 1);
            assert(prefix.last() == self.pairs()[i as int]);
            assert(prefix.drop_last() =~= self.pairs().take(i as int));
            if str_eq(self.entries[i].0.as_str(), key) {
                return Some(&self.entries[i].1);
            }
        }
        None
    }

    /// Whether `key` is mapped to anything.
    pub fn contains_key(&self, key: &str) -> (present: bool)
        ensures
            present == self@.contains_key(key@),
    {
        self.get(key).is_some()
    }
}

impl Clone for Options {
    fn clone(&self) -> (copy: Options)
        ensures
            copy@ == self@,
    {
        let mut entries: Vec<(String, String)> = Vec::new();
        let mut i: usize = 0;
        while i < self.entries.len()
            invariant
                i <= self.entries.len(),
                entries@.len() == i,
                forall|k: int| 0 <= k < i ==> entries@[k] == self.entries@[k],
            decreases self.entries.len() - i,
        {
            let pair = (self.entries[i].0.clone(), self.entries[i].1.clone());
            entries.push(pair);
            i += 1;
        }
        assert(entries@ =~= self.entries@);
        Options { entries }
    }
}

} // verus!
