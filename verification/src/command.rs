//! The closed vocabulary of effects a workflow may request. Divergence
//! detection compares the command at position n against the journaled event
//! kind at position n.

use vstd::prelude::*;

use crate::step::StepName;
use crate::time::Deadline;

verus! {

/// Everything a workflow can do besides pure computation.
#[derive(Debug, PartialEq, Eq)]
pub enum Command {
    RunStep { name: StepName },
    ReadNow,
    DrawRandom,
    Sleep { deadline: Deadline },
}

/// A `Command`'s variant, stripped of arguments. Reported by
/// `EngineError::Nondeterminism` when replay diverges from the journal.
#[derive(Debug, Clone, Copy, PartialEq, Eq)]
pub enum CommandKind {
    RunStep,
    ReadNow,
    DrawRandom,
    Sleep,
}

impl Command {
    pub fn kind(&self) -> (r: CommandKind)
        ensures
            r is RunStep <==> self is RunStep,
            r is ReadNow <==> self is ReadNow,
            r is DrawRandom <==> self is DrawRandom,
            r is Sleep <==> self is Sleep,
    {
        match self {
            Command::RunStep { .. } => CommandKind::RunStep,
            Command::ReadNow => CommandKind::ReadNow,
            Command::DrawRandom => CommandKind::DrawRandom,
            Command::Sleep { .. } => CommandKind::Sleep,
        }
    }
}

/// The same command: the same variant with the same arguments.
pub open spec fn same_command(a: Command, b: Command) -> bool {
    match (a, b) {
        (Command::RunStep { name: x }, Command::RunStep { name: y }) => x@ == y@,
        (Command::ReadNow, Command::ReadNow) => true,
        (Command::DrawRandom, Command::DrawRandom) => true,
        (Command::Sleep { deadline: x }, Command::Sleep { deadline: y }) => x@ == y@,
        _ => false,
    }
}

impl Clone for Command {
    fn clone(&self) -> (r: Self)
        ensures
            same_command(*self, r),
    {
        match self {
            Command::RunStep { name } => Command::RunStep { name: name.clone() },
            Command::ReadNow => Command::ReadNow,
            Command::DrawRandom => Command::DrawRandom,
            Command::Sleep { deadline } => Command::Sleep { deadline: *deadline },
        }
    }
}

/// The kind of a command is the name of its variant, whatever its arguments.
pub proof fn kinds_are_variants(command: Command, kind: CommandKind)
    requires
        call_ensures(Command::kind, (&command,), kind),
    ensures
        command matches Command::RunStep { .. } ==> kind == CommandKind::RunStep,
        command matches Command::ReadNow ==> kind == CommandKind::ReadNow,
        command matches Command::DrawRandom ==> kind == CommandKind::DrawRandom,
        command matches Command::Sleep { .. } ==> kind == CommandKind::Sleep,
{
}

/// A clone asks for the same thing: it has the kind of what was cloned, the
/// same name where it is a step and the same deadline where it is a timer.
pub proof fn clones_ask_for_the_same(command: Command, cloned: Command)
    requires
        call_ensures(Command::clone, (&command,), cloned),
    ensures
        command is RunStep <==> cloned is RunStep,
        command is ReadNow <==> cloned is ReadNow,
        command is DrawRandom <==> cloned is DrawRandom,
        command is Sleep <==> cloned is Sleep,
        command is RunStep ==> cloned->name@ == command->name@,
        command is Sleep ==> cloned->deadline@ == command->deadline@,
{
}

} // verus!
