//! The index: the bindings that the commands replayed so far have left.

use crate::command::apply;
use crate::command::replay_index;
use crate::command::Command;
use crate::command::CommandView;
use vstd::hash_map::StringHashMap;
use vstd::prelude::*;

verus! {

/// A map from keys to values, held in memory.
pub struct Index {
    map: StringHashMap<String>,
}

impl View for Index {
    type V = Map<Seq<char>, Seq<char>>;

    /// The bindings, each string by its characters.
    closed spec fn view(&self) -> Map<Seq<char>, Seq<char>> {
        self.map@.map_values(|value: String| value@)
    }
}

impl Index {
    /// The index that binds nothing.
    pub fn new() -> (index: Index)
        ensures
            index@ == Map::<Seq<char>, Seq<char>>::empty(),
    {
        let index = Index { map: StringHashMap::new() };
        assert(index@ =~= Map::<Seq<char>, Seq<char>>::empty());
        index
    }

    /// How many keys are bound.
    pub fn len(&self) -> (count: usize)
        ensures
            count == self@.len(),
    {
        assert(self@.dom() =~= self.map@.dom());
        self.map.len()
    }

    /// Whether `key` is bound.
    pub fn contains_key(&self, key: &str) -> (bound: bool)
        ensures
            bound == self@.contains_key(key@),
    {
        self.map.contains_key(key)
    }

    /// A copy of the value that `key` is bound to.
    pub fn get(&self, key: &str) -> (found: Option<String>)
        ensures
            match found {
                Some(value) => self@.contains_key(key@) && self@[key@] == value@,
                None => !self@.contains_key(key@),
            },
    {
        match self.map.get(key) {
            Some(value) => Some(value.clone()),
            None => None,
        }
    }

    /// Binds `key` to `value`, whatever it was bound to before.
    pub fn insert(&mut self, key: String, value: String)
        ensures
            final(self)@ == old(self)@.insert(key@, value@),
    {
        self.map.insert(key, value);
        assert(final(self)@ =~= old(self)@.insert(key@, value@));
    }

    /// Unbinds `key`. Nothing changes where it was not bound.
    pub fn remove(&mut self, key: &str)
        ensures
            final(self)@ == old(self)@.remove(key@),
    {
        self.map.remove(key);
        assert(final(self)@ =~= old(self)@.remove(key@));
    }

    /// Does to the index what `command` says.
    pub fn apply(&mut self, command: Command)
        ensures
            final(self)@ == apply(old(self)@, command@),
    {
        match command {
            Command::Put { key, value } => self.insert(key, value),
            Command::Remove { key } => self.remove(key.as_str()),
        }
    }

    /// The index that `commands` leave when they are applied in order to the
    /// empty index.
    pub fn replay(commands: Vec<Command>) -> (index: Index)
        ensures
            index@ == replay_index(commands.deep_view()),
    {
        let ghost all = commands.deep_view();
        let ghost raw = commands@;
        let mut index = Index::new();
        assert(all.take(0) == Seq::<CommandView>::empty());
        for command in it: commands
            invariant
                it.seq() == raw,
                all.len() == raw.len(),
                forall|i: int| 0 <= i < raw.len() ==> all[i] == (#[trigger] raw[i])@,
                index@ == replay_index(all.take(it.index())),
        {
            let ghost done = all.take(it.index() + 1);
            assert(done.drop_last() == all.take(it.index()));
            assert(done.last() == command@);
            index.apply(command);
        }
        assert(all.take(all.len() as int) == all);
        index
    }
}

} // verus!
