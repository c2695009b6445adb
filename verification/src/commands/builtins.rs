//! The built-in commands: each one a unit struct whose step behaviour is
//! pinned down exactly by its `step_ok` and `resume_ok` predicates.
use crate::commands::Command;
use crate::commands::CommandOutput;
use crate::commands::CommandRegistry;
use crate::commands::CommandStep;
use crate::commands::OsAction;
use crate::commands::OsEvent;
use crate::text::join_with;
use crate::text::join_strings;
use crate::text::parse_i32;
use crate::text::parse_i32_or_zero;
use vstd::prelude::*;

verus! {

/// Change the working directory.
#[derive(Debug, PartialEq, Eq)]
pub struct CdCommand;

/// Print the arguments, separated by single spaces.
#[derive(Debug, PartialEq, Eq)]
pub struct EchoCommand;

/// List previously executed commands.
#[derive(Debug, PartialEq, Eq)]
pub struct HistoryCommand;

/// Print the current working directory.
#[derive(Debug, PartialEq, Eq)]
pub struct PwdCommand;

/// Report whether a name is a built-in, an executable on the search path, or
/// unknown.
#[derive(Debug, PartialEq, Eq)]
pub struct TypeCommand;

/// Terminate the shell with the given exit code.
#[derive(Debug, PartialEq, Eq)]
pub struct ExitCommand;

impl Command for EchoCommand {
    open spec fn spec_name(&self) -> Seq<char> {
        "echo"@
    }

    open spec fn step_ok(
        &self,
        args: Seq<Seq<char>>,
        builtins: Set<Seq<char>>,
        r: CommandStep,
    ) -> bool {
        r matches CommandStep::Done(Ok(CommandOutput::Message(m))) && m@ == join_with(args, " "@)
    }

    open spec fn resume_ok(&self, args: Seq<Seq<char>>, event: OsEvent, r: CommandStep) -> bool {
        r matches CommandStep::Done(Ok(CommandOutput::Success))
    }

    fn name(&self) -> (r: &str) {
        "echo"
    }

    fn description(&self) -> (r: &str) {
        "Display a line of text"
    }

    fn execute(&self, args: &Vec<String>, registry: &CommandRegistry) -> (r: CommandStep) {
        let output = join_strings(args, " ");
        CommandStep::Done(Ok(CommandOutput::Message(output)))
    }

    fn resume(&self, args: &Vec<String>, event: &OsEvent) -> (r: CommandStep) {
        CommandStep::Done(Ok(CommandOutput::Success))
    }
}

impl Command for HistoryCommand {
    open spec fn spec_name(&self) -> Seq<char> {
        "history"@
    }

    open spec fn step_ok(
        &self,
        args: Seq<Seq<char>>,
        builtins: Set<Seq<char>>,
        r: CommandStep,
    ) -> bool {
        r matches CommandStep::Done(Ok(CommandOutput::Message(m))) && m@ == join_with(args, " "@)
    }

    open spec fn resume_ok(&self, args: Seq<Seq<char>>, event: OsEvent, r: CommandStep) -> bool {
        r matches CommandStep::Done(Ok(CommandOutput::Success))
    }

    fn name(&self) -> (r: &str) {
        "history"
    }

    fn description(&self) -> (r: &str) {
        "Lists previously executed commands"
    }

    fn execute(&self, args: &Vec<String>, registry: &CommandRegistry) -> (r: CommandStep) {
        let output = join_strings(args, " ");
        CommandStep::Done(Ok(CommandOutput::Message(output)))
    }

    fn resume(&self, args: &Vec<String>, event: &OsEvent) -> (r: CommandStep) {
        CommandStep::Done(Ok(CommandOutput::Success))
    }
}

/// The exit code `exit` reports: its first argument read as a decimal
/// number, or zero where there is none or it does not parse.
pub open spec fn exit_code_of(args: Seq<Seq<char>>) -> int {
    if args.len() == 0 {
        0
    } else {
        parse_i32_or_zero(args[0])
    }
}

impl Command for ExitCommand {
    open spec fn spec_name(&self) -> Seq<char> {
        "exit"@
    }

    open spec fn step_ok(
        &self,
        args: Seq<Seq<char>>,
        builtins: Set<Seq<char>>,
        r: CommandStep,
    ) -> bool {
        r matches CommandStep::Done(Ok(CommandOutput::Exit(code))) && code as int == exit_code_of(
            args,
        )
    }

    open spec fn resume_ok(&self, args: Seq<Seq<char>>, event: OsEvent, r: CommandStep) -> bool {
        r matches CommandStep::Done(Ok(CommandOutput::Success))
    }

    fn name(&self) -> (r: &str) {
        "exit"
    }

    fn description(&self) -> (r: &str) {
        "Exit the shell"
    }

    fn execute(&self, args: &Vec<String>, registry: &CommandRegistry) -> (r: CommandStep) {
        let code: i32 = if args.len() == 0 {
            0
        } else {
            match parse_i32(args[0].as_str()) {
                Some(v) => v,
                None => 0,
            }
        };
        CommandStep::Done(Ok(CommandOutput::Exit(code)))
    }

    fn resume(&self, args: &Vec<String>, event: &OsEvent) -> (r: CommandStep) {
        CommandStep::Done(Ok(CommandOutput::Success))
    }
}

impl Command for PwdCommand {
    open spec fn spec_name(&self) -> Seq<char> {
        "pwd"@
    }

    open spec fn step_ok(
        &self,
        args: Seq<Seq<char>>,
        builtins: Set<Seq<char>>,
        r: CommandStep,
    ) -> bool {
        r matches CommandStep::NeedOs(OsAction::QueryCwd)
    }

    open spec fn resume_ok(&self, args: Seq<Seq<char>>, event: OsEvent, r: CommandStep) -> bool {
        match event {
            OsEvent::CwdIs(Ok(d)) => r matches CommandStep::Done(Ok(CommandOutput::Message(m)))
                && m@ == d@,
            OsEvent::CwdIs(Err(e)) => r matches CommandStep::Done(Err(m)) && m@ == e@,
            _ => r matches CommandStep::Done(Ok(CommandOutput::Success)),
        }
    }

    fn name(&self) -> (r: &str) {
        "pwd"
    }

    fn description(&self) -> (r: &str) {
        "Prints current working directory"
    }

    fn execute(&self, args: &Vec<String>, registry: &CommandRegistry) -> (r: CommandStep) {
        CommandStep::NeedOs(OsAction::QueryCwd)
    }

    fn resume(&self, args: &Vec<String>, event: &OsEvent) -> (r: CommandStep) {
        match event {
            OsEvent::CwdIs(Ok(d)) => CommandStep::Done(
                Ok(CommandOutput::Message(d.clone())),
            ),
            OsEvent::CwdIs(Err(e)) => CommandStep::Done(Err(e.clone())),
            _ => CommandStep::Done(Ok(CommandOutput::Success)),
        }
    }
}

impl Command for CdCommand {
    open spec fn spec_name(&self) -> Seq<char> {
        "cd"@
    }

    open spec fn step_ok(
        &self,
        args: Seq<Seq<char>>,
        builtins: Set<Seq<char>>,
        r: CommandStep,
    ) -> bool {
        if args.len() == 0 {
            r matches CommandStep::Done(Err(m)) && m@ == "cd: missing argument"@
        } else if args[0] == "~"@ {
            r matches CommandStep::NeedOs(OsAction::QueryHome)
        } else {
            r matches CommandStep::NeedOs(OsAction::ChangeDir(p)) && p@ == args[0]
        }
    }

    open spec fn resume_ok(&self, args: Seq<Seq<char>>, event: OsEvent, r: CommandStep) -> bool {
        match event {
            OsEvent::HomeIs(None) => r matches CommandStep::Done(Ok(CommandOutput::Message(m)))
                && m@ == "Home directory is not set"@,
            OsEvent::HomeIs(Some(h)) => r matches CommandStep::NeedOs(OsAction::ChangeDir(p))
                && p@ == h@,
            OsEvent::DirMissing(p) => r matches CommandStep::Done(Ok(CommandOutput::Message(m)))
                && m@ == "cd: "@ + p@ + ": No such file or directory"@,
            OsEvent::DirChanged => r matches CommandStep::Done(Ok(CommandOutput::Success)),
            OsEvent::DirFailed(p, e) => r matches CommandStep::Done(Ok(CommandOutput::Message(m)))
                && m@ == "Failed to change working directory: "@ + p@ + ". Reason: "@ + e@,
            _ => r matches CommandStep::Done(Ok(CommandOutput::Success)),
        }
    }

    fn name(&self) -> (r: &str) {
        "cd"
    }

    fn description(&self) -> (r: &str) {
        "Change directory"
    }

    fn execute(&self, args: &Vec<String>, registry: &CommandRegistry) -> (r: CommandStep) {
        if args.len() == 0 {
            return CommandStep::Done(Err(String::from_str("cd: missing argument")));
        }
        if crate::text::str_eq(args[0].as_str(), "~") {
            proof {
                reveal_strlit("~");
            }
            return CommandStep::NeedOs(OsAction::QueryHome);
        }
        proof {
            reveal_strlit("~");
        }
        CommandStep::NeedOs(OsAction::ChangeDir(args[0].clone()))
    }

    fn resume(&self, args: &Vec<String>, event: &OsEvent) -> (r: CommandStep) {
        match event {
            OsEvent::HomeIs(None) => CommandStep::Done(
                Ok(CommandOutput::Message(String::from_str("Home directory is not set"))),
            ),
            OsEvent::HomeIs(Some(h)) => CommandStep::NeedOs(OsAction::ChangeDir(h.clone())),
            OsEvent::DirMissing(p) => {
                let mut m = String::from_str("cd: ");
                m.append(p.as_str());
                m.append(": No such file or directory");
                CommandStep::Done(Ok(CommandOutput::Message(m)))
            },
            OsEvent::DirChanged => CommandStep::Done(Ok(CommandOutput::Success)),
            OsEvent::DirFailed(p, e) => {
                let mut m = String::from_str("Failed to change working directory: ");
                m.append(p.as_str());
                m.append(". Reason: ");
                m.append(e.as_str());
                CommandStep::Done(Ok(CommandOutput::Message(m)))
            },
            _ => CommandStep::Done(Ok(CommandOutput::Success)),
        }
    }
}

impl Command for TypeCommand {
    open spec fn spec_name(&self) -> Seq<char> {
        "type"@
    }

    open spec fn step_ok(
        &self,
        args: Seq<Seq<char>>,
        builtins: Set<Seq<char>>,
        r: CommandStep,
    ) -> bool {
        if args.len() == 0 {
            r matches CommandStep::Done(Err(m)) && m@ == "type: missing argument"@
        } else if builtins.contains(args[0]) {
            r matches CommandStep::Done(Ok(CommandOutput::Message(m))) && m@ == args[0]
                + " is a shell builtin"@
        } else {
            r matches CommandStep::NeedOs(OsAction::LocatePath(n)) && n@ == args[0]
        }
    }

    open spec fn resume_ok(&self, args: Seq<Seq<char>>, event: OsEvent, r: CommandStep) -> bool {
        if args.len() == 0 {
            r matches CommandStep::Done(Ok(CommandOutput::Success))
        } else {
            match event {
                OsEvent::LocatedAt(Some(p)) => r matches CommandStep::Done(
                    Ok(CommandOutput::Message(m)),
                ) && m@ == args[0] + " is "@ + p@,
                OsEvent::LocatedAt(None) => r matches CommandStep::Done(
                    Ok(CommandOutput::Message(m)),
                ) && m@ == args[0] + ": not found"@,
                _ => r matches CommandStep::Done(Ok(CommandOutput::Success)),
            }
        }
    }

    fn name(&self) -> (r: &str) {
        "type"
    }

    fn description(&self) -> (r: &str) {
        "Checks whether a command is a builtin, an executable file, or unrecognized"
    }

    fn execute(&self, args: &Vec<String>, registry: &CommandRegistry) -> (r: CommandStep) {
        if args.len() == 0 {
            return CommandStep::Done(Err(String::from_str("type: missing argument")));
        }
        if registry.has_command(args[0].as_str()) {
            let mut m = args[0].clone();
            m.append(" is a shell builtin");
            return CommandStep::Done(Ok(CommandOutput::Message(m)));
        }
        CommandStep::NeedOs(OsAction::LocatePath(args[0].clone()))
    }

    fn resume(&self, args: &Vec<String>, event: &OsEvent) -> (r: CommandStep) {
        if args.len() == 0 {
            return CommandStep::Done(Ok(CommandOutput::Success));
        }
        match event {
            OsEvent::LocatedAt(Some(p)) => {
                let mut m = args[0].clone();
                m.append(" is ");
                m.append(p.as_str());
                CommandStep::Done(Ok(CommandOutput::Message(m)))
            },
            OsEvent::LocatedAt(None) => {
                let mut m = args[0].clone();
                m.append(": not found");
                CommandStep::Done(Ok(CommandOutput::Message(m)))
            },
            _ => CommandStep::Done(Ok(CommandOutput::Success)),
        }
    }
}

/// The closed set of built-in commands the registry can hold.
#[derive(Debug, PartialEq, Eq)]
pub enum Builtin {
    Cd(CdCommand),
    Echo(EchoCommand),
    History(HistoryCommand),
    Pwd(PwdCommand),
    Type(TypeCommand),
    Exit(ExitCommand),
}

impl Command for Builtin {
    open spec fn spec_name(&self) -> Seq<char> {
        match self {
            Builtin::Cd(c) => c.spec_name(),
            Builtin::Echo(c) => c.spec_name(),
            Builtin::History(c) => c.spec_name(),
            Builtin::Pwd(c) => c.spec_name(),
            Builtin::Type(c) => c.spec_name(),
            Builtin::Exit(c) => c.spec_name(),
        }
    }

    open spec fn step_ok(
        &self,
        args: Seq<Seq<char>>,
        builtins: Set<Seq<char>>,
        r: CommandStep,
    ) -> bool {
        match self {
            Builtin::Cd(c) => c.step_ok(args, builtins, r),
            Builtin::Echo(c) => c.step_ok(args, builtins, r),
            Builtin::History(c) => c.step_ok(args, builtins, r),
            Builtin::Pwd(c) => c.step_ok(args, builtins, r),
            Builtin::Type(c) => c.step_ok(args, builtins, r),
            Builtin::Exit(c) => c.step_ok(args, builtins, r),
        }
    }

    open spec fn resume_ok(&self, args: Seq<Seq<char>>, event: OsEvent, r: CommandStep) -> bool {
        match self {
            Builtin::Cd(c) => c.resume_ok(args, event, r),
            Builtin::Echo(c) => c.resume_ok(args, event, r),
            Builtin::History(c) => c.resume_ok(args, event, r),
            Builtin::Pwd(c) => c.resume_ok(args, event, r),
            Builtin::Type(c) => c.resume_ok(args, event, r),
            Builtin::Exit(c) => c.resume_ok(args, event, r),
        }
    }

    fn name(&self) -> (r: &str) {
        match self {
            Builtin::Cd(c) => c.name(),
            Builtin::Echo(c) => c.name(),
            Builtin::History(c) => c.name(),
            Builtin::Pwd(c) => c.name(),
            Builtin::Type(c) => c.name(),
            Builtin::Exit(c) => c.name(),
        }
    }

    fn description(&self) -> (r: &str) {
        match self {
            Builtin::Cd(c) => c.description(),
            Builtin::Echo(c) => c.description(),
            Builtin::History(c) => c.description(),
            Builtin::Pwd(c) => c.description(),
            Builtin::Type(c) => c.description(),
            Builtin::Exit(c) => c.description(),
        }
    }

    fn execute(&self, args: &Vec<String>, registry: &CommandRegistry) -> (r: CommandStep) {
        match self {
            Builtin::Cd(c) => c.execute(args, registry),
            Builtin::Echo(c) => c.execute(args, registry),
            Builtin::History(c) => c.execute(args, registry),
            Builtin::Pwd(c) => c.execute(args, registry),
            Builtin::Type(c) => c.execute(args, registry),
            Builtin::Exit(c) => c.execute(args, registry),
        }
    }

    fn resume(&self, args: &Vec<String>, event: &OsEvent) -> (r: CommandStep) {
        match self {
            Builtin::Cd(c) => c.resume(args, event),
            Builtin::Echo(c) => c.resume(args, event),
            Builtin::History(c) => c.resume(args, event),
            Builtin::Pwd(c) => c.resume(args, event),
            Builtin::Type(c) => c.resume(args, event),
            Builtin::Exit(c) => c.resume(args, event),
        }
    }
}

} // verus!
