//! The decisions of the capture session: what to do on an operator command or
//! on a block notification. Running the action is left to the caller.
use vstd::prelude::*;
use crate::primitives::Word;

verus! {

/// An operator command.
#[derive(Clone, Debug, PartialEq, Eq)]
pub enum ReplCommand {
    /// Run a node subcommand with these arguments.
    Anvil { args: Vec<String> },
    /// Run a cast subcommand with these arguments (accepted, not acted on).
    Cast { args: Vec<String> },
    /// Mine a block and dump the fixture once that block is seen.
    Dump,
    /// Leave the session.
    Exit,
}

/// The words of a command line as shell quoting splits them; `None` where a
/// quote is left open.
pub uninterp spec fn split_of(line: Seq<char>) -> Option<Seq<Seq<char>>>;

/// The character views of a list of strings.
pub open spec fn views_of(words: Seq<String>) -> Seq<Seq<char>> {
    words.map_values(|w: String| w@)
}

/// Relies on shellwords::split: the words of `line` under shell quoting, or
/// an error where a quote is left open.
#[verifier::external_body]
fn split_words(line: &str) -> (r: Option<Vec<String>>)
    ensures
        match r {
            Some(words) => split_of(line@) == Some(views_of(words@)),
            None => split_of(line@) is None,
        },
{
    shellwords::split(line).ok()
}

/// Why a command line was not read.
#[derive(Clone, Copy, Debug, PartialEq, Eq, Structural)]
pub enum CommandLineError {
    /// A quote was left open.
    MismatchedQuotes,
    /// The line holds no word.
    Empty,
}

/// Checks the split words of a command line: refused where quoting failed or
/// where no word is left.
pub fn checked_words(split: Option<Vec<String>>) -> (r: Result<Vec<String>, CommandLineError>)
    ensures
        match split {
            None => r == Err::<Vec<String>, CommandLineError>(CommandLineError::MismatchedQuotes),
            Some(words) =>
                if words@.len() == 0 {
                    r == Err::<Vec<String>, CommandLineError>(CommandLineError::Empty)
                } else {
                    r == Ok::<Vec<String>, CommandLineError>(words)
                },
        },
{
    match split {
        None => Err(CommandLineError::MismatchedQuotes),
        Some(words) => {
            if words.len() == 0 {
                Err(CommandLineError::Empty)
            } else {
                Ok(words)
            }
        },
    }
}

/// Splits an operator's command line into words, as a shell would.
pub fn command_words(line: &str) -> (r: Result<Vec<String>, CommandLineError>)
    ensures
        (r == Err::<Vec<String>, CommandLineError>(CommandLineError::MismatchedQuotes)) <==> split_of(line@) is None,
        r is Ok ==> split_of(line@) == Some(views_of(r->Ok_0@)) && r->Ok_0@.len() > 0,
        (r == Err::<Vec<String>, CommandLineError>(CommandLineError::Empty))
            <==> split_of(line@) == Some(Seq::<Seq<char>>::empty()),
{
    let split = split_words(line);
    let ghost seen = split;
    let r = checked_words(split);
    proof {
        match seen {
            Some(words) => {
                if words@.len() != 0 {
                    assert(views_of(words@).len() != 0);
                    assert(views_of(words@) != Seq::<Seq<char>>::empty());
                } else {
                    assert(views_of(words@) =~= Seq::<Seq<char>>::empty());
                }
            },
            None => {},
        }
    }
    r
}

/// What the session is told.
#[derive(Clone, Debug)]
pub enum SessionEvent {
    Command(ReplCommand),
    /// A command line could not be read as a command.
    CommandError,
    /// A block was produced.
    NewBlock { hash: Word, number: u64 },
    /// No more notifications will come, so a dump that waits for its block
    /// cannot complete.
    StreamEnded,
    /// A forced mine saw no matching block in time.
    WaitTimedOut,
}

/// What the caller is to do next.
#[derive(Clone, Debug)]
pub enum SessionAction {
    Stop,
    MineBlock,
    RunNode { args: Vec<String> },
    ReportError,
    /// Fetch the block and capture it; `completes_dump` where it is the block
    /// that a dump was waiting for.
    CaptureBlock { hash: Word, completes_dump: bool },
    DumpFailed,
    Nothing,
}

/// The state of a capture session.
pub struct Session {
    /// The number of the latest block seen.
    pub head: u64,
    /// The number of the block that a dump waits for.
    pub awaiting: Option<u64>,
}

impl Session {
    /// A session that has seen the block `head` and waits for nothing.
    pub fn new(head: u64) -> (r: Session)
        ensures
            r.head == head,
            r.awaiting is None,
    {
        Session { head, awaiting: None }
    }

    /// Decides on one event.
    pub fn step(&mut self, ev: SessionEvent) -> (r: SessionAction)
        ensures
            match ev {
                SessionEvent::Command(ReplCommand::Exit) => r is Stop && *final(self) == *old(self),
                SessionEvent::Command(ReplCommand::Dump) =>
                    if old(self).head < u64::MAX {
                        r is MineBlock && final(self).head == old(self).head
                            && final(self).awaiting == Some((old(self).head + 1) as u64)
                    } else {
                        r is DumpFailed && *final(self) == *old(self)
                    },
                SessionEvent::Command(ReplCommand::Anvil { args }) =>
                    r == (SessionAction::RunNode { args }) && *final(self) == *old(self),
                SessionEvent::Command(ReplCommand::Cast { .. }) => r is Nothing && *final(self) == *old(self),
                SessionEvent::CommandError => r is ReportError && *final(self) == *old(self),
                SessionEvent::NewBlock { hash, number } =>
                    r == (SessionAction::CaptureBlock { hash, completes_dump: old(self).awaiting == Some(number) })
                        && final(self).head == number
                        && final(self).awaiting == (if old(self).awaiting == Some(number) { None } else { old(self).awaiting }),
                SessionEvent::StreamEnded | SessionEvent::WaitTimedOut =>
                    (if old(self).awaiting is Some { r is DumpFailed } else { r is Nothing })
                        && final(self).head == old(self).head && final(self).awaiting is None,
            },
    {
        match ev {
            SessionEvent::Command(ReplCommand::Exit) => SessionAction::Stop,
            SessionEvent::Command(ReplCommand::Dump) => {
                if self.head < u64::MAX {
                    self.awaiting = Some(self.head + 1);
                    SessionAction::MineBlock
                } else {
                    SessionAction::DumpFailed
                }
            },
            SessionEvent::Command(ReplCommand::Anvil { args }) => SessionAction::RunNode { args },
            SessionEvent::Command(ReplCommand::Cast { .. }) => SessionAction::Nothing,
            SessionEvent::CommandError => SessionAction::ReportError,
            SessionEvent::NewBlock { hash, number } => {
                let completes_dump = match self.awaiting {
                    Some(n) => n == number,
                    None => false,
                };
                if completes_dump {
                    self.awaiting = None;
                }
                self.head = number;
                SessionAction::CaptureBlock { hash, completes_dump }
            },
            SessionEvent::StreamEnded | SessionEvent::WaitTimedOut => {
                let was_waiting = self.awaiting.is_some();
                self.awaiting = None;
                if was_waiting {
                    SessionAction::DumpFailed
                } else {
                    SessionAction::Nothing
                }
            },
        }
    }
}

} // verus!
