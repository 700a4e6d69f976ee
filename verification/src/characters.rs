//! The set of registered characters, filled from a characters file.
use vstd::prelude::*;
use crate::characters_parser::{character_names, CharactersParser};
use crate::text::{lemma_push_to_set, str_eq, strings_view, ParseError};

verus! {

/// A set of character names.
pub struct CharacterSet {
    names: Vec<String>,
}

impl View for CharacterSet {
    type V = Set<Seq<char>>;

    closed spec fn view(&self) -> Set<Seq<char>> {
        strings_view(self.names@).to_set()
    }
}

impl CharacterSet {
    /// No name stands twice.
    #[verifier::type_invariant]
    spec fn well_formed(self) -> bool {
        strings_view(self.names@).no_duplicates()
    }

    /// An empty set.
    pub fn new() -> (res: Self)
        ensures
            res@ == Set::<Seq<char>>::empty(),
    {
        let res = CharacterSet { names: Vec::new() };
        assert(strings_view(res.names@) =~= Seq::<Seq<char>>::empty());
        assert(res@ =~= Set::<Seq<char>>::empty());
        res
    }

    /// Whether `name` is in the set.
    pub fn contains(&self, name: &str) -> (b: bool)
        ensures
            b == self@.contains(name@),
    {
        let ghost v = strings_view(self.names@);
        let mut i: usize = 0;
        while i < self.names.len()
            invariant
                i <= self.names.len(),
                v == strings_view(self.names@),
                forall|j: int| 0 <= j < i ==> #[trigger] v[j] != name@,
            decreases self.names.len() - i,
        {
            if str_eq(self.names[i].as_str(), name) {
                assert(v[i as int] == name@);
                return true;
            }
            i = i + 1;
        }
        assert(!v.contains(name@));
        false
    }

    /// Adds `name`; the result says whether it was new.
    pub fn insert(&mut self, name: String) -> (added: bool)
        ensures
            final(self)@ == old(self)@.insert(name@),
            added == !old(self)@.contains(name@),
    {
        proof {
            use_type_invariant(&*self);
        }
        if self.contains(name.as_str()) {
            assert(old(self)@.insert(name@) =~= old(self)@);
            false
        } else {
            let ghost before = strings_view(self.names@);
            let mut names: Vec<String> = Vec::new();
            core::mem::swap(&mut names, &mut self.names);
            names.push(name);
            assert(strings_view(names@) =~= before.push(name@));
            proof {
                lemma_push_to_set(before, name@);
                assert(!before.contains(name@));
                assert forall|i: int, j: int|
                    0 <= i < before.len() + 1 && 0 <= j < before.len() + 1 && i != j implies
                    #[trigger] before.push(name@)[i] != #[trigger] before.push(name@)[j] by {
                    if i == before.len() {
                        assert(before[j] == before.push(name@)[j]);
                    } else if j == before.len() {
                        assert(before[i] == before.push(name@)[i]);
                    }
                }
            }
            self.names = names;
            true
        }
    }

    /// The number of names.
    pub fn len(&self) -> (n: usize)
        ensures
            n == self@.len(),
    {
        proof {
            use_type_invariant(self);
            strings_view(self.names@).unique_seq_to_set();
        }
        self.names.len()
    }
}

/// Reads a characters file and adds each name it lists to `characters`.
///
/// The file must follow the characters grammar (`CharactersParser::parse`
/// says whether it does).
pub fn get_characters(contents: &str, characters: &mut CharacterSet)
    requires
        character_names(contents@) is Ok,
    ensures
        final(characters)@ == old(characters)@.union(character_names(contents@)->Ok_0.to_set()),
{
    let names = match CharactersParser::parse(contents) {
        Ok(names) => names,
        Err(_) => {
            return;
        },
    };
    let ghost all = strings_view(names@);
    let mut i: usize = 0;
    assert(all.take(0).to_set() =~= Set::<Seq<char>>::empty());
    assert(old(characters)@.union(Set::<Seq<char>>::empty()) =~= old(characters)@);
    while i < names.len()
        invariant
            i <= names.len(),
            all == strings_view(names@),
            characters@ == old(characters)@.union(all.take(i as int).to_set()),
        decreases names.len() - i,
    {
        let name = names[i].clone();
        characters.insert(name);
        assert(all.take(i + 1) == all.take(i as int).push(all[i as int]));
        proof {
            lemma_push_to_set(all.take(i as int), all[i as int]);
        }
        assert(characters@ =~= old(characters)@.union(all.take(i + 1).to_set()));
        i = i + 1;
    }
    assert(all.take(names.len() as int) == all);
}

} // verus!
