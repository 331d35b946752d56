use vstd::prelude::*;

use crate::parser::{parse_command, parse_spec, split_spec, ParseError, ParseFailure};
use crate::session::{
    edit_outcome, edit_state, exit_spec, EditError, ModeView, Session, SessionView, CommandMode,
};
use crate::text::{normalize_input_line, normalize_spec};
use crate::schema::{builtin_tree, grows, placed, SchemaCommand, SchemaNode};
use crate::token::{Action, Callback, Commands};

verus! {

/// What the caller is to do after a command.
#[derive(Clone, Copy, Debug, PartialEq, Eq, Structural)]
pub enum Step {
    /// Nothing more: read the next line.
    Continue,
    /// Leave the program.
    Exit,
    /// Submit the candidate's changes and finish with `Session::candidate_commit`.
    Commit,
    ShowRunning,
    ShowCandidate,
    ShowChanges,
}

/// Why a line was not carried out.
#[derive(Debug)]
pub enum CliError {
    Parser(ParseError),
    EditConfig(EditError),
}

/// The scope in which a line is matched.
pub open spec fn scope_of(m: ModeView, config_root: int) -> int {
    match m {
        None => 0,
        Some(p) => if p.len() > 0 {
            p.last().0
        } else {
            config_root
        },
    }
}

/// The session after a handler.
pub open spec fn callback_state(s: SessionView, cb: Callback) -> SessionView {
    match cb {
        Callback::Configure => SessionView { mode: Some(Seq::empty()), ..s },
        Callback::Exit => SessionView { mode: exit_spec(s.mode), ..s },
        Callback::End => SessionView { mode: None, ..s },
        Callback::Discard => SessionView { candidate: s.running, ..s },
        _ => s,
    }
}

/// What a handler asks of the caller.
pub open spec fn callback_step(s: SessionView, cb: Callback) -> Step {
    match cb {
        Callback::Exit => if s.mode is None {
            Step::Exit
        } else {
            Step::Continue
        },
        Callback::Commit => Step::Commit,
        Callback::ShowRunning => Step::ShowRunning,
        Callback::ShowCandidate => Step::ShowCandidate,
        Callback::ShowChanges => Step::ShowChanges,
        _ => Step::Continue,
    }
}

/// Why a line was not carried out, as a value.
pub enum LineFailure {
    Parse(ParseFailure),
    Edit(EditError),
}

pub open spec fn result_view(r: &Result<Step, CliError>) -> Result<Step, LineFailure> {
    match r {
        Ok(st) => Ok(*st),
        Err(CliError::Parser(e)) => Err(LineFailure::Parse(e.view())),
        Err(CliError::EditConfig(e)) => Err(LineFailure::Edit(*e)),
    }
}

/// What one line does: the next session state and the line's result.
pub open spec fn line_outcome(t: Commands, s: SessionView, line: Seq<char>) -> (SessionView, Result<Step, LineFailure>) {
    match normalize_spec(line) {
        None => (s, Ok(Step::Continue)),
        Some(l) => match parse_spec(t, scope_of(s.mode, t.config_root as int), split_spec(l)) {
            Err(e) => (s, Err(LineFailure::Parse(e))),
            Ok((n, neg, args)) => match t.node(n).action {
                None => (s, Ok(Step::Continue)),
                Some(Action::ConfigEdit(_)) => (
                    edit_state(s, neg, n, t.node(n).name@, t.node(n).enters_mode, args),
                    match edit_outcome(s, neg, t.node(n).enters_mode, args) {
                        Ok(_) => Ok(Step::Continue),
                        Err(e) => Err(LineFailure::Edit(e)),
                    },
                ),
                Some(Action::Callback(cb)) => (callback_state(s, cb), Ok(callback_step(s, cb))),
            },
        },
    }
}

/// What a sequence of lines does: the final session state and each line's
/// result, in order.
pub open spec fn replay(t: Commands, s: SessionView, lines: Seq<Seq<char>>) -> (SessionView, Seq<Result<Step, LineFailure>>)
    decreases lines.len(),
{
    if lines.len() == 0 {
        (s, Seq::empty())
    } else {
        let prev = replay(t, s, lines.drop_last());
        let next = line_outcome(t, prev.0, lines.last());
        (next.0, prev.1.push(next.1))
    }
}

/// Feeding lines one at a time or in batches gives the same result: the
/// lines `a` then `b` end in the state and the results that `b` gives from
/// where `a` ended, after the results of `a`.
pub proof fn lemma_replay_equivalence(t: Commands, s: SessionView, a: Seq<Seq<char>>, b: Seq<Seq<char>>)
    ensures
        replay(t, s, a + b).0 == replay(t, replay(t, s, a).0, b).0,
        replay(t, s, a + b).1 == replay(t, s, a).1 + replay(t, replay(t, s, a).0, b).1,
    decreases b.len(),
{
    if b.len() == 0 {
        assert(a + b =~= a);
        assert(replay(t, s, a).1 + Seq::<Result<Step, LineFailure>>::empty() =~= replay(t, s, a).1);
    } else {
        lemma_replay_equivalence(t, s, a, b.drop_last());
        assert((a + b).drop_last() =~= a + b.drop_last());
        assert((a + b).last() == b.last());
        let mid = replay(t, s, a).0;
        assert(replay(t, s, a).1 + replay(t, mid, b).1 =~= (replay(t, s, a).1 + replay(t, mid, b.drop_last()).1).push(
            line_outcome(t, replay(t, mid, b.drop_last()).0, b.last()).1,
        ));
    }
}

/// The command tree and the session it drives.
#[derive(Debug)]
pub struct Cli {
    pub commands: Commands,
    pub session: Session,
}

impl Cli {
    /// Every context on the session's path names a node of the tree.
    pub open spec fn wf(&self) -> bool {
        &&& self.commands.wf()
        &&& self.session.wf()
        &&& match self.session@.mode {
            Some(p) => forall|i: int| 0 <= i < p.len() ==> 0 <= #[trigger] p[i].0 < self.commands.len(),
            None => true,
        }
    }

    pub open spec fn scope(&self) -> int {
        scope_of(self.session@.mode, self.commands.config_root as int)
    }

    /// A front end with the built-in commands, in operational mode.
    pub fn new() -> (r: Cli)
        ensures
            r.wf(),
            builtin_tree(&r.commands),
            r.commands.len() == 16,
            r.session@.mode is None,
            r.session@.running == Map::<crate::config::Key, Seq<Seq<char>>>::empty(),
            r.session@.candidate == Map::<crate::config::Key, Seq<Seq<char>>>::empty(),
    {
        let mut commands = Commands::new();
        commands.gen_cmds();
        Cli::from_commands(commands)
    }

    /// Adds the configuration commands of a data model, as
    /// `Commands::extend_from_schema` does, and gives what each schema node got.
    pub fn load_schema(&mut self, schema: &Vec<SchemaNode>) -> (r: Vec<Option<SchemaCommand>>)
        requires
            old(self).wf(),
            old(self).commands.len() + 4 * schema@.len() < usize::MAX - 3,
        ensures
            final(self).wf(),
            final(self).session@ == old(self).session@,
            grows(&old(self).commands, &final(self).commands),
            r@.len() == schema@.len(),
            forall|i: int| 0 <= i < schema@.len() ==> placed(&final(self).commands, schema@, r@, i),
    {
        let r = self.commands.extend_from_schema(schema);
        proof {
            if let Some(p) = self.session@.mode {
                assert forall|i: int| 0 <= i < p.len() implies 0 <= #[trigger] p[i].0 < self.commands.len() by {}
            }
        }
        r
    }

    /// A front end over the given command tree, in operational mode.
    pub fn from_commands(commands: Commands) -> (r: Cli)
        requires
            commands.wf(),
        ensures
            r.wf(),
            r.commands == commands,
            r.session@.mode is None,
            r.session@.running == Map::<crate::config::Key, Seq<Seq<char>>>::empty(),
            r.session@.candidate == Map::<crate::config::Key, Seq<Seq<char>>>::empty(),
    {
        Cli { commands, session: Session::new() }
    }

    fn scope_exec(&self) -> (r: usize)
        requires
            self.wf(),
        ensures
            r as int == self.scope(),
            r < self.commands.len(),
    {
        match &self.session.mode {
            CommandMode::Operational => 0,
            CommandMode::Configure { nodes } => {
                if nodes.len() > 0 {
                    let ghost p = self.session@.mode->0;
                    assert(p[p.len() - 1].0 == nodes@[nodes@.len() - 1].node as int);
                    nodes[nodes.len() - 1].node
                } else {
                    self.commands.config_root
                }
            },
        }
    }

    /// Carries out the lines in order, as `enter_command` does one by one,
    /// and gives each line's result.
    pub fn enter_lines(&mut self, lines: &Vec<Vec<char>>) -> (r: Vec<Result<Step, CliError>>)
        requires
            old(self).wf(),
        ensures
            final(self).wf(),
            final(self).commands == old(self).commands,
            final(self).session@ == replay(old(self).commands, old(self).session@, lines@.map_values(|l: Vec<char>| l@)).0,
            r@.map_values(|x: Result<Step, CliError>| result_view(&x)) == replay(
                old(self).commands,
                old(self).session@,
                lines@.map_values(|l: Vec<char>| l@),
            ).1,
    {
        let ghost ls = lines@.map_values(|l: Vec<char>| l@);
        let mut out: Vec<Result<Step, CliError>> = Vec::new();
        let mut i: usize = 0;
        while i < lines.len()
            invariant
                self.wf(),
                self.commands == old(self).commands,
                0 <= i <= lines@.len(),
                out@.len() == i,
                ls == lines@.map_values(|l: Vec<char>| l@),
                self.session@ == replay(self.commands, old(self).session@, ls.subrange(0, i as int)).0,
                out@.map_values(|x: Result<Step, CliError>| result_view(&x)) == replay(
                    self.commands,
                    old(self).session@,
                    ls.subrange(0, i as int),
                ).1,
            decreases lines@.len() - i,
        {
            let ghost before = out@.map_values(|x: Result<Step, CliError>| result_view(&x));
            let res = self.enter_command(&lines[i]);
            out.push(res);
            proof {
                assert(ls.subrange(0, i + 1).drop_last() =~= ls.subrange(0, i as int));
                assert(ls.subrange(0, i + 1).last() == lines@[i as int]@);
                assert(out@.map_values(|x: Result<Step, CliError>| result_view(&x)) =~= before.push(
                    result_view(&out@[i as int]),
                ));
            }
            i = i + 1;
        }
        assert(ls.subrange(0, lines@.len() as int) =~= ls);
        out
    }

    /// Runs one handler.
    fn run_callback(&mut self, cb: Callback) -> (r: Step)
        requires
            old(self).wf(),
        ensures
            final(self).wf(),
            final(self).commands == old(self).commands,
            final(self).session@ == callback_state(old(self).session@, cb),
            r == callback_step(old(self).session@, cb),
    {
        match cb {
            Callback::Configure => {
                let nodes: Vec<crate::session::ContextEntry> = Vec::new();
                let ghost m = crate::session::mode_view(&CommandMode::Configure { nodes });
                assert(m->0 =~= Seq::<(int, crate::config::Key)>::empty());
                self.session.mode_set(CommandMode::Configure { nodes });
                Step::Continue
            },
            Callback::Exit => {
                let ghost before = self.session@.mode;
                let was_operational = self.session.exit_context();
                proof {
                    if let Some(p) = before {
                        if p.len() > 0 {
                            assert forall|i: int| 0 <= i < p.len() - 1 implies 0 <= #[trigger] p.drop_last()[i].0 < self.commands.len() by {
                                assert(p.drop_last()[i] == p[i]);
                            }
                        }
                    }
                }
                if was_operational {
                    Step::Exit
                } else {
                    Step::Continue
                }
            },
            Callback::End => {
                self.session.mode_set(CommandMode::Operational);
                Step::Continue
            },
            Callback::Commit => Step::Commit,
            Callback::Discard => {
                self.session.candidate_rollback();
                Step::Continue
            },
            Callback::ShowRunning => Step::ShowRunning,
            Callback::ShowCandidate => Step::ShowCandidate,
            Callback::ShowChanges => Step::ShowChanges,
        }
    }

    /// Normalizes, parses and carries out one line. A blank line, a parse
    /// error and a matched node without action change nothing; an edit
    /// goes to the candidate configuration; a handler changes the mode or
    /// the candidate, or hands a step back to the caller.
    pub fn enter_command(&mut self, line: &Vec<char>) -> (r: Result<Step, CliError>)
        requires
            old(self).wf(),
        ensures
            final(self).wf(),
            final(self).commands == old(self).commands,
            final(self).session@.running == old(self).session@.running,
            final(self).session@ == line_outcome(old(self).commands, old(self).session@, line@).0,
            result_view(&r) == line_outcome(old(self).commands, old(self).session@, line@).1,
    {
        let line = match normalize_input_line(line) {
            Some(l) => l,
            None => return Ok(Step::Continue),
        };
        let scope = self.scope_exec();
        let pcmd = match parse_command(&self.commands, scope, &line) {
            Ok(p) => p,
            Err(e) => return Err(CliError::Parser(e)),
        };
        let n = pcmd.token_id;
        match self.commands.nodes[n].action {
            None => Ok(Step::Continue),
            Some(Action::ConfigEdit(_)) => {
                let enters = self.commands.nodes[n].enters_mode;
                let ghost before = self.session@;
                let res = self.session.edit_candidate(
                    pcmd.negate,
                    n,
                    &self.commands.nodes[n].name,
                    enters,
                    &pcmd.args,
                );
                proof {
                    if let Some(p) = self.session@.mode {
                        assert forall|i: int| 0 <= i < p.len() implies 0 <= #[trigger] p[i].0 < self.commands.len() by {
                            if i < p.len() - 1 || !(res is Ok && !pcmd.negate && enters) {
                                let q = before.mode->0;
                                if res is Ok && !pcmd.negate && enters {
                                    assert(p[i] == q[i]);
                                }
                            }
                        }
                    }
                }
                match res {
                    Ok(()) => Ok(Step::Continue),
                    Err(e) => Err(CliError::EditConfig(e)),
                }
            },
            Some(Action::Callback(cb)) => Ok(self.run_callback(cb)),
        }
    }
}

} // verus!
