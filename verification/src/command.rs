//! The commands that the log records, and what each does to the index.

use vstd::prelude::*;

verus! {

/// One change of the store, as the log records it.
#[derive(Debug, Clone, PartialEq, Eq)]
pub enum Command {
    /// Binds `key` to `value`, whatever it was bound to before.
    Put { key: String, value: String },
    /// Unbinds `key`.
    Remove { key: String },
}

/// A command as the contracts see it: its strings by their characters.
pub enum CommandView {
    Put { key: Seq<char>, value: Seq<char> },
    Remove { key: Seq<char> },
}

impl View for Command {
    type V = CommandView;

    open spec fn view(&self) -> CommandView {
        match self {
            Command::Put { key, value } => CommandView::Put { key: key@, value: value@ },
            Command::Remove { key } => CommandView::Remove { key: key@ },
        }
    }
}

impl DeepView for Command {
    type V = CommandView;

    open spec fn deep_view(&self) -> CommandView {
        self@
    }
}

/// The index after `command`: a `Put` binds its key, over any earlier
/// binding, and a `Remove` unbinds its key, or changes nothing where the key
/// is not bound.
pub open spec fn apply(index: Map<Seq<char>, Seq<char>>, command: CommandView) -> Map<
    Seq<char>,
    Seq<char>,
> {
    match command {
        CommandView::Put { key, value } => index.insert(key, value),
        CommandView::Remove { key } => index.remove(key),
    }
}

/// The index that `commands` leave when they are applied in order to the
/// empty index.
pub open spec fn replay_index(commands: Seq<CommandView>) -> Map<Seq<char>, Seq<char>>
    decreases commands.len(),
{
    if commands.len() == 0 {
        Map::empty()
    } else {
        apply(replay_index(commands.drop_last()), commands.last())
    }
}

/// Replaying one command more applies it to what the others left.
pub proof fn lemma_replay_push(commands: Seq<CommandView>, command: CommandView)
    ensures
        replay_index(commands.push(command)) == apply(replay_index(commands), command),
{
    assert(commands.push(command).drop_last() == commands);
}

} // verus!
