//! The store: an index in memory that is always what replaying the command
//! log gives.

use crate::codec::encoded;
use crate::command::apply;
use crate::command::lemma_replay_push;
use crate::command::replay_index;
use crate::command::Command;
use crate::command::CommandView;
use crate::error::KvError;
use crate::index::Index;
use crate::log::all_encoded;
use crate::log::extended;
use crate::log::lemma_append_replays;
use crate::log::lemma_extended_replays;
use crate::log::replayed;
use crate::log::CommandLog;
use crate::log::NEWLINE;
use vstd::prelude::*;

verus! {

/// A store as the contracts see it.
pub struct StoreState {
    /// What each key is bound to.
    pub index: Map<Seq<char>, Seq<char>>,
    /// The bytes of the command log that the file holds, if the caller wrote
    /// at its end all that it took.
    pub saved: Seq<u8>,
    /// The bytes of the command log after those, which were appended and
    /// not yet taken.
    pub unsaved: Seq<u8>,
}

impl StoreState {
    /// All the bytes of the command log, in order.
    pub open spec fn log(self) -> Seq<u8> {
        self.saved + self.unsaved
    }

    /// The index is what replaying the log gives: the log replays, and its
    /// commands, applied in order to the empty index, leave this index.
    pub open spec fn consistent(self) -> bool {
        match replayed(self.log()) {
            Some(commands) => self.index == replay_index(commands),
            None => false,
        }
    }

    /// The store after the line of `command` was appended to the log and
    /// `command` was applied to the index.
    pub open spec fn after(self, command: CommandView) -> StoreState
        recommends
            encoded(command) is Some,
    {
        let line = encoded(command).unwrap();
        StoreState {
            index: apply(self.index, command),
            saved: self.saved,
            unsaved: self.unsaved + line + seq![NEWLINE],
        }
    }

    /// The store after each of `commands` was recorded, in order.
    pub open spec fn after_all(self, commands: Seq<CommandView>) -> StoreState
        recommends
            all_encoded(commands),
        decreases commands.len(),
    {
        if commands.len() == 0 {
            self
        } else {
            self.after_all(commands.drop_last()).after(commands.last())
        }
    }
}

/// The store that opening a log of these bytes gives, or `None` where the
/// log does not replay.
pub open spec fn opened(contents: Seq<u8>) -> Option<StoreState> {
    match replayed(contents) {
        Some(commands) => Some(
            StoreState {
                index: replay_index(commands),
                saved: contents,
                unsaved: Seq::empty(),
            },
        ),
        None => None,
    }
}

/// The two halves of a store.
struct Parts {
    log: CommandLog,
    index: Index,
}

impl Parts {
    /// An empty log with the empty index.
    fn empty() -> (parts: Parts)
        ensures
            parts.log.saved() == Seq::<u8>::empty(),
            parts.log.unsaved() == Seq::<u8>::empty(),
            parts.index@ == Map::<Seq<char>, Seq<char>>::empty(),
    {
        let nothing: Vec<u8> = Vec::new();
        Parts { log: CommandLog::open(nothing.as_slice()), index: Index::new() }
    }
}

/// A key-value store that records every change in a command log before it
/// makes it in its index.
pub struct KvStore {
    parts: Parts,
}

impl View for KvStore {
    type V = StoreState;

    closed spec fn view(&self) -> StoreState {
        StoreState {
            index: self.parts.index@,
            saved: self.parts.log.saved(),
            unsaved: self.parts.log.unsaved(),
        }
    }
}

impl KvStore {
    #[verifier::type_invariant]
    spec fn in_step(&self) -> bool {
        self@.consistent()
    }

    /// Opens the store of a log file that holds `contents`: replays the
    /// log into a fresh index. A file that does not exist yet holds nothing.
    pub fn open(contents: &[u8]) -> (r: Result<KvStore, KvError>)
        ensures
            match r {
                Ok(store) => opened(contents@) == Some(store@) && store@.consistent(),
                Err(e) => e == KvError::SerdeError && opened(contents@) is None,
            },
    {
        let commands = CommandLog::replay(contents)?;
        let index = Index::replay(commands);
        let log = CommandLog::open(contents);
        Ok(KvStore { parts: Parts { log, index } })
    }

    /// How many keys are bound.
    pub fn len(&self) -> (count: usize)
        ensures
            count == self@.index.len(),
    {
        self.parts.index.len()
    }

    /// Appends `command` to the log and, if that went well, applies it to
    /// the index.
    fn record(&mut self, command: Command) -> (r: Result<(), KvError>)
        ensures
            final(self)@.consistent(),
            match r {
                Ok(()) => encoded(command@) is Some && final(self)@ == old(self)@.after(command@),
                Err(e) => {
                    &&& e == KvError::SerdeError
                    &&& encoded(command@) is None
                    &&& final(self)@ == old(self)@
                },
            },
    {
        proof {
            use_type_invariant(&*self);
        }
        let mut parts = Parts::empty();
        std::mem::swap(&mut parts, &mut self.parts);
        let appended = parts.log.append(&command);
        if appended.is_ok() {
            proof {
                lemma_after_consistent(old(self)@, command@);
            }
            parts.index.apply(command);
        }
        self.parts = parts;
        appended
    }

    /// Binds `key` to `value`: appends the command to the log, then makes
    /// the change in the index. Where the command cannot be encoded nothing
    /// changes.
    pub fn set(&mut self, key: String, value: String) -> (r: Result<(), KvError>)
        ensures
            final(self)@.consistent(),
            match r {
                Ok(()) => {
                    let command = CommandView::Put { key: key@, value: value@ };
                    &&& encoded(command) is Some
                    &&& final(self)@ == old(self)@.after(command)
                },
                Err(e) => {
                    &&& e == KvError::SerdeError
                    &&& encoded(CommandView::Put { key: key@, value: value@ }) is None
                    &&& final(self)@ == old(self)@
                },
            },
    {
        self.record(Command::Put { key, value })
    }

    /// A copy of the value that `key` is bound to, or `None` where it is
    /// bound to none. Reads the index only, and never fails.
    pub fn get(&self, key: String) -> (r: Result<Option<String>, KvError>)
        ensures
            match r {
                Ok(Some(value)) => self@.index.contains_key(key@) && self@.index[key@] == value@,
                Ok(None) => !self@.index.contains_key(key@),
                Err(_) => false,
            },
    {
        Ok(self.parts.index.get(key.as_str()))
    }

    /// Unbinds `key`. Where the key is not bound this is `KeyNotFound`, and
    /// nothing is appended to the log. Else the command is appended to the
    /// log, and then the key leaves the index.
    pub fn remove(&mut self, key: String) -> (r: Result<(), KvError>)
        ensures
            final(self)@.consistent(),
            !old(self)@.index.contains_key(key@) ==> r == Err::<(), KvError>(KvError::KeyNotFound)
                && final(self)@ == old(self)@,
            old(self)@.index.contains_key(key@) ==> match r {
                Ok(()) => {
                    let command = CommandView::Remove { key: key@ };
                    &&& encoded(command) is Some
                    &&& final(self)@ == old(self)@.after(command)
                },
                Err(e) => {
                    &&& e == KvError::SerdeError
                    &&& encoded(CommandView::Remove { key: key@ }) is None
                    &&& final(self)@ == old(self)@
                },
            },
    {
        proof {
            use_type_invariant(&*self);
        }
        if !self.parts.index.contains_key(key.as_str()) {
            return Err(KvError::KeyNotFound);
        }
        self.record(Command::Remove { key })
    }

    /// Hands out what was appended to the log and not yet taken, for the
    /// caller to write it at the end of the log file.
    pub fn take_unsaved(&mut self) -> (bytes: Vec<u8>)
        ensures
            bytes@ == old(self)@.unsaved,
            final(self)@ == (StoreState {
                saved: old(self)@.log(),
                unsaved: Seq::empty(),
                ..old(self)@
            }),
    {
        proof {
            use_type_invariant(&*self);
        }
        let mut parts = Parts::empty();
        std::mem::swap(&mut parts, &mut self.parts);
        let bytes = parts.log.take_unsaved();
        self.parts = parts;
        bytes
    }
}

/// A store that opens is in step with its log.
pub proof fn lemma_opened_consistent(contents: Seq<u8>)
    requires
        opened(contents) is Some,
    ensures
        opened(contents).unwrap().consistent(),
{
}

/// Recording a command keeps the store in step with its log, and the log
/// then replays to one command more.
pub proof fn lemma_after_consistent(store: StoreState, command: CommandView)
    requires
        store.consistent(),
        encoded(command) is Some,
    ensures
        store.after(command).consistent(),
        replayed(store.after(command).log()) == Some(replayed(store.log()).unwrap().push(command)),
{
    lemma_append_replays(store.log(), command);
    lemma_replay_push(replayed(store.log()).unwrap(), command);
    assert(store.after(command).log() == store.log() + encoded(command).unwrap() + seq![NEWLINE]);
}

/// However many commands a store records, it stays in step with its log:
/// the log is the one it had with the lines of the commands after it, and
/// opening that log gives the index that the store has.
pub proof fn lemma_after_all_consistent(store: StoreState, commands: Seq<CommandView>)
    requires
        store.consistent(),
        all_encoded(commands),
    ensures
        store.after_all(commands).consistent(),
        store.after_all(commands).log() == extended(store.log(), commands),
        opened(store.after_all(commands).log()) is Some,
        opened(store.after_all(commands).log()).unwrap().index == store.after_all(commands).index,
    decreases commands.len(),
{
    if commands.len() > 0 {
        lemma_after_all_consistent(store, commands.drop_last());
        lemma_after_consistent(store.after_all(commands.drop_last()), commands.last());
    }
}

/// Opening the log of a store again, with nothing appended in between,
/// gives the same index.
pub proof fn lemma_reopen_same_index(store: StoreState)
    requires
        store.consistent(),
    ensures
        opened(store.log()) is Some,
        opened(store.log()).unwrap().index == store.index,
        opened(store.log()).unwrap().log() == store.log(),
{
}

/// A key reads as the value that was set last.
pub proof fn lemma_last_set_wins(
    store: StoreState,
    key: Seq<char>,
    first: Seq<char>,
    second: Seq<char>,
)
    ensures
        ({
            let end = store.after(CommandView::Put { key, value: first }).after(
                CommandView::Put { key, value: second },
            );
            end.index.contains_key(key) && end.index[key] == second
        }),
{
}

/// A key that was set and then removed is bound to nothing.
pub proof fn lemma_removed_is_absent(store: StoreState, key: Seq<char>, value: Seq<char>)
    ensures
        !store.after(CommandView::Put { key, value }).after(
            CommandView::Remove { key },
        ).index.contains_key(key),
{
}

/// A log that was written from nothing, one line for each of `commands`,
/// opens to the index that the commands leave when they are applied in
/// order to the empty index.
pub proof fn lemma_written_log_opens(commands: Seq<CommandView>)
    requires
        all_encoded(commands),
    ensures
        opened(extended(Seq::empty(), commands)) is Some,
        opened(extended(Seq::empty(), commands)).unwrap().index == replay_index(commands),
{
    lemma_extended_replays(Seq::empty(), commands);
    assert(Seq::<CommandView>::empty() + commands == commands);
}

} // verus!
