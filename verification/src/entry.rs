use vstd::prelude::*;

verus! {

/// One entry of the launcher menu: a shell command and the key that selects
/// it, once one has been chosen.
pub struct LauncherEntry {
    /// The key for executing the command; `None` until a key is assigned.
    pub character: Option<char>,
    /// A shell command (the text may contain embedded newlines).
    pub command: String,
}

/// Mathematical image of a [`LauncherEntry`].
pub ghost struct EntryView {
    pub character: Option<char>,
    pub command: Seq<char>,
}

impl View for LauncherEntry {
    type V = EntryView;

    open spec fn view(&self) -> EntryView {
        EntryView { character: self.character, command: self.command@ }
    }
}

impl LauncherEntry {
    /// A fresh entry: the given command text and no key yet.
    pub fn new(command: String) -> (e: LauncherEntry)
        ensures
            e@.command == command@,
            e@.character is None,
    {
        LauncherEntry { character: None, command }
    }
}

} // verus!
