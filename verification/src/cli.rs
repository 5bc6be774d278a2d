//! The options of a run.

use vstd::prelude::*;

verus! {

/// What to commit, and how.
#[derive(Debug, Clone)]
pub struct Save {
    /// How often less output was asked for.
    pub quiet: i32,
    /// How often more output was asked for.
    pub verbose: i32,
    /// Commit all files in the repository.
    pub all: bool,
    /// Commit only what has been staged.
    pub staged: bool,
    /// Commit the given tree object.
    pub tree: Option<String>,
    /// Commit no file changes.
    pub empty: bool,
    /// Create the commit even if it contains no changes.
    pub allow_empty: bool,
    /// The commit message.
    pub message: Option<String>,
    /// A line to put before the commit message.
    pub message_prefix: Option<String>,
    /// The pattern that the commit's address should match.
    pub prefix_hex: Option<String>,
    /// The timestamp to use in place of the clock's.
    pub timestamp: Option<i64>,
    /// Use the next timestamp after the parent's.
    pub timeless: bool,
    /// The author's name and email.
    pub author: Option<String>,
    /// The committer's name and email.
    pub committer: Option<String>,
    /// The head to update.
    pub head: Option<i64>,
    /// Update no reference.
    pub no_head: bool,
    /// Parents to add.
    pub added_parent_ref: Vec<String>,
    /// Parents to remove.
    pub removed_parent_ref: Vec<String>,
    /// How many generations to squash.
    pub squash: u32,
    /// Ancestors to squash up to.
    pub squash_to_ref: Vec<String>,
    /// Heads whose ancestors are not squashed.
    pub squash_after_ref: Vec<String>,
    /// Squash the whole history, if confirmed.
    pub squash_all: Option<String>,
    /// Ancestors to rewrite up to.
    pub retcon_to_ref: Vec<String>,
    /// Heads whose ancestors are not rewritten.
    pub retcon_after_ref: Vec<String>,
    /// Rewrite the whole history.
    pub retcon_all: bool,
}

/// How much is logged.
#[derive(Debug, Clone, Copy, PartialEq, Eq, Structural)]
pub enum Verbosity {
    Off,
    Error,
    Warn,
    Info,
    Debug,
    Trace,
}

/// The verbosity with a given number: nothing at zero and below, everything
/// from five on.
pub open spec fn verbosity_of(level: int) -> Verbosity {
    if level <= 0 {
        Verbosity::Off
    } else if level == 1 {
        Verbosity::Error
    } else if level == 2 {
        Verbosity::Warn
    } else if level == 3 {
        Verbosity::Info
    } else if level == 4 {
        Verbosity::Debug
    } else {
        Verbosity::Trace
    }
}

/// The verbosity with a given number.
pub fn verbosity(level: i64) -> (r: Verbosity)
    ensures
        r == verbosity_of(level as int),
{
    if level <= 0 {
        Verbosity::Off
    } else if level == 1 {
        Verbosity::Error
    } else if level == 2 {
        Verbosity::Warn
    } else if level == 3 {
        Verbosity::Info
    } else if level == 4 {
        Verbosity::Debug
    } else {
        Verbosity::Trace
    }
}

/// What to do where no repository was found.
#[derive(Debug, Clone, Copy, PartialEq, Eq, Structural)]
pub enum InitDecision {
    /// Make a new repository in the current directory.
    Initialize,
    /// The current directory is the home directory or the root.
    RefuseImportantDirectory,
    /// The current directory is empty, and an empty commit was not asked for.
    RefuseEmptyDirectory,
    /// Nothing may be changed in this run.
    RefuseDryRun,
}

/// Whether to make a new repository in the current directory: not in a
/// directory that seems important, not in an empty one unless an empty
/// commit was asked for, and not in a run that may change nothing.
pub fn init_decision(important: bool, directory_empty: bool, empty: bool, no_head: bool) -> (r:
    InitDecision)
    ensures
        r == (if important {
            InitDecision::RefuseImportantDirectory
        } else if directory_empty && !empty {
            InitDecision::RefuseEmptyDirectory
        } else if no_head {
            InitDecision::RefuseDryRun
        } else {
            InitDecision::Initialize
        }),
{
    if important {
        InitDecision::RefuseImportantDirectory
    } else if directory_empty && !empty {
        InitDecision::RefuseEmptyDirectory
    } else if no_head {
        InitDecision::RefuseDryRun
    } else {
        InitDecision::Initialize
    }
}

/// Where a name or an email of the user comes from.
#[derive(Debug, Clone, Copy, PartialEq, Eq, Structural)]
pub enum IdentitySource {
    /// From the command line.
    Argument,
    /// From the configuration of the repository.
    Configuration,
    /// From the previous commit.
    PreviousCommit,
    /// Nothing is known: a placeholder is used.
    Placeholder,
}

/// The first source that has a value, in the order of [`IdentitySource`].
pub fn identity_source(argument: bool, configuration: bool, previous_commit: bool) -> (r:
    IdentitySource)
    ensures
        r == (if argument {
            IdentitySource::Argument
        } else if configuration {
            IdentitySource::Configuration
        } else if previous_commit {
            IdentitySource::PreviousCommit
        } else {
            IdentitySource::Placeholder
        }),
{
    if argument {
        IdentitySource::Argument
    } else if configuration {
        IdentitySource::Configuration
    } else if previous_commit {
        IdentitySource::PreviousCommit
    } else {
        IdentitySource::Placeholder
    }
}

impl Default for Save {
    fn default() -> (r: Self)
        ensures
            r.is_default(),
    {
        Save {
            quiet: 0,
            verbose: 0,
            all: false,
            staged: false,
            tree: None,
            empty: false,
            allow_empty: false,
            message: None,
            message_prefix: None,
            prefix_hex: None,
            timestamp: None,
            timeless: false,
            author: None,
            committer: None,
            head: None,
            no_head: false,
            added_parent_ref: Vec::new(),
            removed_parent_ref: Vec::new(),
            squash: 0,
            squash_to_ref: Vec::new(),
            squash_after_ref: Vec::new(),
            squash_all: None,
            retcon_to_ref: Vec::new(),
            retcon_after_ref: Vec::new(),
            retcon_all: false,
        }
    }
}

impl Save {
    /// Nothing is set.
    pub open spec fn is_default(&self) -> bool {
        &&& self.quiet == 0
        &&& self.verbose == 0
        &&& !self.all
        &&& !self.staged
        &&& self.tree is None
        &&& !self.empty
        &&& !self.allow_empty
        &&& self.message is None
        &&& self.message_prefix is None
        &&& self.prefix_hex is None
        &&& self.timestamp is None
        &&& !self.timeless
        &&& self.author is None
        &&& self.committer is None
        &&& self.head is None
        &&& !self.no_head
        &&& self.added_parent_ref@.len() == 0
        &&& self.removed_parent_ref@.len() == 0
        &&& self.squash == 0
        &&& self.squash_to_ref@.len() == 0
        &&& self.squash_after_ref@.len() == 0
        &&& self.squash_all is None
        &&& self.retcon_to_ref@.len() == 0
        &&& self.retcon_after_ref@.len() == 0
        &&& !self.retcon_all
    }

    /// The options that `f` makes of the default ones.
    pub fn with<F: FnOnce(&mut Save) -> T, T>(f: F) -> (r: Save)
        requires
            forall|s: &mut Save| (*s).is_default() ==> call_requires(f, (s,)),
        ensures
            exists|s: &mut Save, out: T|
                (*s).is_default() && call_ensures(f, (s,), out) && *final(s) == r,
    {
        let mut save = Save::default();
        f(&mut save);
        save
    }

    /// How much this program logs and how much the code it uses, where the
    /// options say so: three and one by default, each raised by `verbose` and
    /// lowered by `quiet`. `None` where neither would log anything.
    pub fn verbosities(&self) -> (r: Option<(Verbosity, Verbosity)>)
        ensures
            r == (if 3 + self.verbose - self.quiet <= 0 {
                None
            } else {
                Some(
                    (
                        verbosity_of(3 + self.verbose - self.quiet),
                        verbosity_of(1 + self.verbose - self.quiet),
                    ),
                )
            }),
    {
        let own: i64 = 3 + self.verbose as i64 - self.quiet as i64;
        let other: i64 = 1 + self.verbose as i64 - self.quiet as i64;
        if own <= 0 && other <= 0 {
            None
        } else {
            Some((verbosity(own), verbosity(other)))
        }
    }
}

} // verus!
