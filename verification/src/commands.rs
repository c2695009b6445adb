//! Command outcomes, the command abstraction, the registry of built-in
//! commands, and command-line parsing.
pub mod builtins;

use crate::commands::builtins::Builtin;
use crate::text::split_ws;
use crate::text::split_whitespace;
use crate::text::str_eq;
use vstd::prelude::*;

verus! {

/// What a command execution produced, as seen by the read-eval loop.
#[derive(Debug, PartialEq, Eq)]
pub enum CommandOutput {
    /// The command succeeded and printed nothing.
    Success,
    /// The command succeeded and asks for one line of output.
    Message(String),
    /// The command asks the shell to terminate with the given code.
    Exit(i32),
}

/// Either an output or a recovered, reportable error.
pub type CommandResult = Result<CommandOutput, String>;

/// An operation that only the surrounding process can perform for a command.
#[derive(Debug, PartialEq, Eq)]
pub enum OsAction {
    /// Ask for the home directory.
    QueryHome,
    /// Check that the path exists and make it the working directory.
    ChangeDir(String),
    /// Ask for the current working directory.
    QueryCwd,
    /// Search the executable search path for the named command.
    LocatePath(String),
}

/// The answer the surrounding process hands back for an `OsAction`.
#[derive(Debug, PartialEq, Eq)]
pub enum OsEvent {
    /// The home directory, where one is set.
    HomeIs(Option<String>),
    /// The requested directory does not exist.
    DirMissing(String),
    /// The working directory was changed.
    DirChanged,
    /// Changing to the directory failed for the given reason.
    DirFailed(String, String),
    /// The current working directory, or the reason it cannot be read.
    CwdIs(Result<String, String>),
    /// Where the command was found on the search path, if anywhere.
    LocatedAt(Option<String>),
}

/// One step of a command: either a finished result, or a request for an
/// operating-system action whose answer the command will consume next.
#[derive(Debug, PartialEq, Eq)]
pub enum CommandStep {
    /// The command is finished.
    Done(CommandResult),
    /// The command needs the surrounding process to act before it can finish.
    NeedOs(OsAction),
}

/// The behaviour every built-in command provides: a name, a description, and
/// a step function whose exact result each implementation pins down through
/// its own `step_ok` and `resume_ok` predicates.
pub trait Command {
    /// The command's name, as contracts speak of it.
    spec fn spec_name(&self) -> Seq<char>;

    /// What `execute` is allowed to return for the given arguments, when the
    /// set of registered names is `builtins`.
    spec fn step_ok(&self, args: Seq<Seq<char>>, builtins: Set<Seq<char>>, r: CommandStep) -> bool;

    /// What `resume` is allowed to return for the given arguments and event.
    spec fn resume_ok(&self, args: Seq<Seq<char>>, event: OsEvent, r: CommandStep) -> bool;

    /// The command's name.
    fn name(&self) -> (r: &str)
        ensures
            r@ == self.spec_name(),
    ;

    /// A one-line description of the command.
    fn description(&self) -> (r: &str);

    /// Run the command until it finishes or needs an OS action.
    fn execute(&self, args: &Vec<String>, registry: &CommandRegistry) -> (r: CommandStep)
        requires
            registry.wf(),
        ensures
            self.step_ok(args.deep_view(), registry@.dom(), r),
    ;

    /// Continue the command with the answer to its OS action.
    fn resume(&self, args: &Vec<String>, event: &OsEvent) -> (r: CommandStep)
        ensures
            self.resume_ok(args.deep_view(), *event, r),
    ;
}

/// The map described by a key-value sequence, later entries winning.
pub(crate) open spec fn entries_map(s: Seq<(String, Builtin)>) -> Map<Seq<char>, Builtin>
    decreases s.len(),
{
    if s.len() == 0 {
        Map::empty()
    } else {
        entries_map(s.drop_last()).insert(s.last().0@, s.last().1)
    }
}

/// The keys of `s` are pairwise distinct.
pub(crate) open spec fn distinct_keys(s: Seq<(String, Builtin)>) -> bool {
    forall|i: int, j: int|
        0 <= i < j < s.len() ==> (#[trigger] s[i]).0@ != (#[trigger] s[j]).0@
}

proof fn lemma_entries_found(s: Seq<(String, Builtin)>, i: int)
    requires
        distinct_keys(s),
        0 <= i < s.len(),
    ensures
        entries_map(s).dom().contains(s[i].0@),
        entries_map(s)[s[i].0@] == s[i].1,
    decreases s.len(),
{
    if i < s.len() - 1 {
        assert(s.drop_last()[i] == s[i]);
        lemma_entries_found(s.drop_last(), i);
        assert(s[i].0@ != s.last().0@);
    }
}

proof fn lemma_entries_absent(s: Seq<(String, Builtin)>, k: Seq<char>)
    requires
        forall|i: int| 0 <= i < s.len() ==> (#[trigger] s[i]).0@ != k,
    ensures
        !entries_map(s).dom().contains(k),
    decreases s.len(),
{
    if s.len() > 0 {
        assert(forall|i: int|
            0 <= i < s.drop_last().len() ==> (#[trigger] s.drop_last()[i]).0@ != k);
        lemma_entries_absent(s.drop_last(), k);
    }
}

proof fn lemma_entries_update(s: Seq<(String, Builtin)>, j: int, name: String, b: Builtin)
    requires
        distinct_keys(s),
        0 <= j < s.len(),
        name@ == s[j].0@,
    ensures
        entries_map(s.update(j, (name, b))) == entries_map(s).insert(s[j].0@, b),
        distinct_keys(s.update(j, (name, b))),
    decreases s.len(),
{
    let t = s.update(j, (name, b));
    assert(t.len() == s.len());
    assert(forall|i: int| 0 <= i < s.len() && i != j ==> t[i] == s[i]);
    if j == s.len() - 1 {
        assert(t.drop_last() =~= s.drop_last());
        assert(t.last() == (name, b));
        assert(entries_map(t) =~= entries_map(s).insert(s[j].0@, b));
    } else {
        assert(t.drop_last() =~= s.drop_last().update(j, (name, b)));
        assert(s.drop_last()[j] == s[j]);
        lemma_entries_update(s.drop_last(), j, name, b);
        assert(t.last() == s.last());
        assert(s[j].0@ != s.last().0@);
        assert(entries_map(t) =~= entries_map(s).insert(s[j].0@, b));
    }
}

/// The registry of built-in commands: the single source of truth for which
/// names are built-ins, and the dispatcher that runs them.
pub struct CommandRegistry {
    commands: Vec<(String, Builtin)>,
}

impl View for CommandRegistry {
    type V = Map<Seq<char>, Builtin>;

    /// The mapping from registered names to their commands.
    closed spec fn view(&self) -> Map<Seq<char>, Builtin> {
        entries_map(self.commands@)
    }
}

impl CommandRegistry {
    /// The structural invariant: one entry per name, each entry filed under
    /// its command's own name.
    pub closed spec fn wf(self) -> bool {
        distinct_keys(self.commands@)
    }

    /// A registry with every built-in command registered.
    pub fn new() -> (r: CommandRegistry)
        ensures
            r.wf(),
            r@.dom() =~= set![
                "cd"@,
                "echo"@,
                "history"@,
                "pwd"@,
                "type"@,
                "exit"@,
            ],
            r@["cd"@] == Builtin::Cd(builtins::CdCommand),
            r@["echo"@] == Builtin::Echo(builtins::EchoCommand),
            r@["history"@] == Builtin::History(builtins::HistoryCommand),
            r@["pwd"@] == Builtin::Pwd(builtins::PwdCommand),
            r@["type"@] == Builtin::Type(builtins::TypeCommand),
            r@["exit"@] == Builtin::Exit(builtins::ExitCommand),
    {
        let mut r = CommandRegistry { commands: Vec::new() };
        proof {
            assert(r@ =~= Map::<Seq<char>, Builtin>::empty());
            reveal_strlit("cd");
            reveal_strlit("echo");
            reveal_strlit("history");
            reveal_strlit("pwd");
            reveal_strlit("type");
            reveal_strlit("exit");
            assert("echo"@[0] == 'e' && "type"@[0] == 't' && "exit"@[1] == 'x' && "echo"@[1]
                == 'c');
            assert("cd"@.len() == 2 && "echo"@.len() == 4 && "history"@.len() == 7 && "pwd"@.len()
                == 3 && "type"@.len() == 4 && "exit"@.len() == 4);
        }
        r.register(Builtin::Cd(builtins::CdCommand));
        r.register(Builtin::Echo(builtins::EchoCommand));
        r.register(Builtin::History(builtins::HistoryCommand));
        r.register(Builtin::Pwd(builtins::PwdCommand));
        r.register(Builtin::Type(builtins::TypeCommand));
        r.register(Builtin::Exit(builtins::ExitCommand));
        r
    }

    /// Register `command` under its own name; a later registration of the
    /// same name replaces the earlier one.
    pub fn register(&mut self, command: Builtin)
        requires
            old(self).wf(),
        ensures
            final(self).wf(),
            final(self)@ == old(self)@.insert(command.spec_name(), command),
    {
        let name = String::from_str(command.name());
        let n = self.commands.len();
        let mut i: usize = 0;
        while i < n
            invariant
                n == self.commands@.len(),
                0 <= i <= n,
                self.commands@ == old(self).commands@,
                distinct_keys(self.commands@),
                name@ == command.spec_name(),
                forall|j: int| 0 <= j < i ==> (#[trigger] self.commands@[j]).0@ != name@,
            decreases n - i,
        {
            if str_eq(self.commands[i].0.as_str(), name.as_str()) {
                let ghost pre = self.commands@;
                let pair = self.commands.remove(i);
                self.commands.insert(i, (name, command));
                proof {
                    assert(self.commands@ =~= pre.update(i as int, (name, command)));
                    lemma_entries_update(pre, i as int, name, command);
                }
                return ;
            }
            i = i + 1;
        }
        self.commands.push((name, command));
        proof {
            assert(self.commands@.drop_last() =~= old(self).commands@);
            assert(self.commands@.last() == (name, command));
            lemma_entries_absent(old(self).commands@, name@);
        }
    }

    /// The index of the entry registered under `command_name`, if any.
    fn find_entry(&self, command_name: &str) -> (r: Option<usize>)
        requires
            self.wf(),
        ensures
            match r {
                Some(i) => i < self.commands@.len() && self.commands@[i as int].0@
                    == command_name@ && self@.dom().contains(command_name@)
                    && self@[command_name@] == self.commands@[i as int].1,
                None => !self@.dom().contains(command_name@),
            },
    {
        let n = self.commands.len();
        let mut i: usize = 0;
        while i < n
            invariant
                self.wf(),
                n == self.commands@.len(),
                0 <= i <= n,
                forall|j: int| 0 <= j < i ==> (#[trigger] self.commands@[j]).0@ != command_name@,
            decreases n - i,
        {
            if str_eq(self.commands[i].0.as_str(), command_name) {
                proof {
                    lemma_entries_found(self.commands@, i as int);
                }
                return Some(i);
            }
            i = i + 1;
        }
        proof {
            lemma_entries_absent(self.commands@, command_name@);
        }
        None
    }

    /// Whether `command_name` is a registered built-in.
    pub fn has_command(&self, command_name: &str) -> (r: bool)
        requires
            self.wf(),
        ensures
            r == self@.dom().contains(command_name@),
    {
        match self.find_entry(command_name) {
            Some(_) => true,
            None => false,
        }
    }

    /// Run the command registered under `command_name`.  Returns `None`,
    /// distinctly from any command failure, when no such command is
    /// registered: the caller then falls back to external resolution.
    pub fn execute(&self, command_name: &str, args: &Vec<String>) -> (r: Option<CommandStep>)
        requires
            self.wf(),
        ensures
            match r {
                Some(step) => self@.dom().contains(command_name@) && self@[command_name@].step_ok(
                    args.deep_view(),
                    self@.dom(),
                    step,
                ),
                None => !self@.dom().contains(command_name@),
            },
    {
        match self.find_entry(command_name) {
            Some(i) => {
                let command = &self.commands[i].1;
                Some(command.execute(args, self))
            },
            None => None,
        }
    }

    /// Continue the command registered under `command_name` with the answer
    /// to the OS action it requested.
    pub fn resume(&self, command_name: &str, args: &Vec<String>, event: &OsEvent) -> (r: Option<
        CommandStep,
    >)
        requires
            self.wf(),
        ensures
            match r {
                Some(step) => self@.dom().contains(command_name@)
                    && self@[command_name@].resume_ok(args.deep_view(), *event, step),
                None => !self@.dom().contains(command_name@),
            },
    {
        match self.find_entry(command_name) {
            Some(i) => {
                let command = &self.commands[i].1;
                Some(command.resume(args, event))
            },
            None => None,
        }
    }

    /// Every registered name, each exactly once, in no promised order.
    pub fn command_names(&self) -> (r: Vec<String>)
        requires
            self.wf(),
        ensures
            r.deep_view().no_duplicates(),
            r.deep_view().to_set() == self@.dom(),
    {
        let n = self.commands.len();
        let mut r: Vec<String> = Vec::new();
        let mut i: usize = 0;
        while i < n
            invariant
                self.wf(),
                n == self.commands@.len(),
                0 <= i <= n,
                r.deep_view().len() == i,
                forall|j: int| 0 <= j < i ==> r.deep_view()[j] == (#[trigger] self.commands@[j]).0@,
            decreases n - i,
        {
            r.push(self.commands[i].0.clone());
            i = i + 1;
        }
        proof {
            let dv = r.deep_view();
            assert forall|p: int, q: int| 0 <= p < q < dv.len() implies dv[p] != dv[q] by {
                assert(self.commands@[p].0@ != self.commands@[q].0@);
            }
            assert(dv.no_duplicates());
            assert forall|k: Seq<char>| dv.to_set().contains(k) implies self@.dom().contains(
                k,
            ) by {
                let m = choose|m: int| 0 <= m < dv.len() && dv[m] == k;
                lemma_entries_found(self.commands@, m);
            }
            assert forall|k: Seq<char>| self@.dom().contains(k) implies dv.to_set().contains(
                k,
            ) by {
                if forall|j: int| 0 <= j < n ==> (#[trigger] self.commands@[j]).0@ != k {
                    lemma_entries_absent(self.commands@, k);
                } else {
                    let j = choose|j: int|
                        0 <= j < n && (#[trigger] self.commands@[j]).0@ == k;
                    assert(dv[j] == k);
                    assert(dv.contains(k));
                }
            }
            assert(dv.to_set() =~= self@.dom());
        }
        r
    }
}

/// Parse an input line into a command name and its arguments, splitting on
/// runs of whitespace.  Returns `None` for a blank line.
pub fn parse_command_line(input: &str) -> (r: Option<(String, Vec<String>)>)
    ensures
        match r {
            Some(parts) => split_ws(input@).len() > 0 && parts.0@ == split_ws(input@)[0]
                && parts.1.deep_view() == split_ws(input@).skip(1),
            None => split_ws(input@).len() == 0,
        },
{
    let mut tokens = split_whitespace(input);
    if tokens.len() == 0 {
        return None;
    }
    let ghost all = tokens.deep_view();
    let command = tokens.remove(0);
    proof {
        assert(tokens.deep_view() =~= all.skip(1));
    }
    Some((command, tokens))
}

/// What spawning an external program produced: it ran and exited with the
/// given status, the binary was not found, or the spawn failed for another
/// reason.
#[derive(Debug, PartialEq, Eq)]
pub enum SpawnOutcome {
    /// The process ran to completion with this exit status.
    Exited(i32),
    /// The binary could not be located.
    NotFound,
    /// The spawn failed; the payload describes why.
    Failed(String),
}

/// Turn the outcome of running an external program into what the shell
/// reports: a process that ran is no error here whatever its exit status, a
/// missing binary reports "command not found", and any other failure
/// reports the program and the underlying reason.
pub fn external_program_result(program: &str, outcome: &SpawnOutcome) -> (r: Result<(), String>)
    ensures
        match outcome {
            SpawnOutcome::Exited(_) => r is Ok,
            SpawnOutcome::NotFound => r matches Err(m) && m@ == program@ + ": command not found"@,
            SpawnOutcome::Failed(e) => r matches Err(m) && m@ == program@ + ": "@ + e@,
        },
{
    match outcome {
        SpawnOutcome::Exited(_) => Ok(()),
        SpawnOutcome::NotFound => {
            let mut m = String::from_str(program);
            m.append(": command not found");
            Err(m)
        },
        SpawnOutcome::Failed(e) => {
            let mut m = String::from_str(program);
            m.append(": ");
            m.append(e.as_str());
            Err(m)
        },
    }
}

} // verus!
