use vstd::prelude::*;

use crate::config::{
    apply_changes, change_key, differs_at, is_diff, lemma_diff_applies_whole, without_subtree, ConfigChange, ConfigTree,
    Key,
};
use crate::text::chars_of;
use crate::parser::{copy_word, copy_words, words_of};

verus! {

/// One nested configuration context: the command node whose subtree is in
/// scope, and the configuration key it stands for.
#[derive(Debug)]
pub struct ContextEntry {
    pub node: usize,
    pub key: Vec<Vec<char>>,
}

/// The session's mode.
#[derive(Debug)]
pub enum CommandMode {
    /// No configuration editing.
    Operational,
    /// Configuration editing, inside the nested contexts `nodes`.
    Configure { nodes: Vec<ContextEntry> },
}

/// A mode as a value: `None` for operational mode, else the path of
/// (node, key) pairs of the nested contexts.
pub type ModeView = Option<Seq<(int, Key)>>;

pub open spec fn mode_view(m: &CommandMode) -> ModeView {
    match m {
        CommandMode::Operational => None,
        CommandMode::Configure { nodes } => Some(
            nodes@.map_values(|e: ContextEntry| (e.node as int, words_of(&e.key))),
        ),
    }
}

/// Entering a nested context pushes one path segment.
pub open spec fn enter_spec(m: ModeView, e: (int, Key)) -> ModeView {
    match m {
        Some(p) => Some(p.push(e)),
        None => None,
    }
}

/// Leaving a context pops one segment; leaving the top level of
/// configuration mode returns to operational mode.
pub open spec fn exit_spec(m: ModeView) -> ModeView {
    match m {
        Some(p) => if p.len() > 0 {
            Some(p.drop_last())
        } else {
            None
        },
        None => None,
    }
}

pub open spec fn enter_all(m: ModeView, es: Seq<(int, Key)>) -> ModeView
    decreases es.len(),
{
    if es.len() == 0 {
        m
    } else {
        enter_spec(enter_all(m, es.drop_last()), es.last())
    }
}

pub open spec fn exit_n(m: ModeView, n: nat) -> ModeView
    decreases n,
{
    if n == 0 {
        m
    } else {
        exit_n(exit_spec(m), (n - 1) as nat)
    }
}

proof fn lemma_exit_n_after_enter(p: Seq<(int, Key)>, es: Seq<(int, Key)>)
    ensures
        enter_all(Some(p), es) == Some(p + es),
    decreases es.len(),
{
    if es.len() > 0 {
        lemma_exit_n_after_enter(p, es.drop_last());
        assert(p + es.drop_last() + seq![es.last()] =~= p + es);
        assert((p + es.drop_last()).push(es.last()) =~= p + es);
    } else {
        assert(p + es =~= p);
    }
}

proof fn lemma_exit_n_pops(p: Seq<(int, Key)>, es: Seq<(int, Key)>)
    ensures
        exit_n(Some(p + es), es.len()) == Some(p),
    decreases es.len(),
{
    if es.len() > 0 {
        assert((p + es).drop_last() =~= p + es.drop_last());
        lemma_exit_n_pops(p, es.drop_last());
    } else {
        assert(p + es =~= p);
    }
}

/// Entering any number of nested contexts from configuration mode and then
/// leaving as many times gives back the mode and path from before.
pub proof fn lemma_mode_path_symmetry(m: ModeView, es: Seq<(int, Key)>)
    requires
        m is Some,
    ensures
        exit_n(enter_all(m, es), es.len()) == m,
{
    let p = m->0;
    lemma_exit_n_after_enter(p, es);
    lemma_exit_n_pops(p, es);
}

/// Why an edit of the candidate configuration was refused.
#[derive(Clone, Copy, Debug, PartialEq, Eq, Structural)]
pub enum EditError {
    /// A value-carrying node was set without a value.
    MissingValue,
    /// The session is not in configuration mode.
    NotConfiguring,
}

/// Why a commit failed.
#[derive(Debug)]
pub enum CommitError {
    /// The daemon rejected the changes, with its own words.
    Rejected(Vec<char>),
}

/// The key of the innermost context (empty at the top level).
pub open spec fn context_key(m: ModeView) -> Key {
    match m {
        Some(p) => if p.len() > 0 {
            p.last().1
        } else {
            Seq::empty()
        },
        None => Seq::empty(),
    }
}

/// The key that an edit of a node named `name` addresses: a context
/// entry is keyed by its arguments too, a leaf holds them as its value.
pub open spec fn edit_key(m: ModeView, name: Seq<char>, enters: bool, args: Seq<Seq<char>>) -> Key {
    if enters {
        context_key(m).push(name) + args
    } else {
        context_key(m).push(name)
    }
}

pub open spec fn edit_value(enters: bool, args: Seq<Seq<char>>) -> Seq<Seq<char>> {
    if enters {
        Seq::empty()
    } else {
        args
    }
}

pub open spec fn prompt_config() -> Seq<char> {
    seq!['(', 'c', 'o', 'n', 'f', 'i', 'g']
}

/// The prompt: the host name, then `# ` in operational mode, `(config)# `
/// at the top level of configuration mode, and `(config-W)# ` inside a
/// context whose key ends with the word `W`.
pub open spec fn prompt_spec(hostname: Seq<char>, m: ModeView) -> Seq<char> {
    match m {
        None => hostname + seq!['#', ' '],
        Some(p) => if context_key(m).len() > 0 {
            hostname + prompt_config() + seq!['-'] + context_key(m).last() + seq![')', '#', ' ']
        } else {
            hostname + prompt_config() + seq![')', '#', ' ']
        },
    }
}

/// Appends the characters of `src` to `dst`.
fn push_all(dst: &mut Vec<char>, src: &Vec<char>)
    ensures
        final(dst)@ == old(dst)@ + src@,
{
    let mut i: usize = 0;
    while i < src.len()
        invariant
            0 <= i <= src@.len(),
            dst@ == old(dst)@ + src@.subrange(0, i as int),
        decreases src@.len() - i,
    {
        dst.push(src[i]);
        i = i + 1;
        assert(dst@ =~= old(dst)@ + src@.subrange(0, i as int));
    }
    assert(src@.subrange(0, src@.len() as int) =~= src@);
}

/// The session state as a value.
pub struct SessionView {
    pub mode: ModeView,
    pub running: Map<Key, Seq<Seq<char>>>,
    pub candidate: Map<Key, Seq<Seq<char>>>,
    pub hostname: Seq<char>,
}

/// What an edit returns.
pub open spec fn edit_outcome(s: SessionView, negate: bool, enters: bool, args: Seq<Seq<char>>) -> Result<(), EditError> {
    if s.mode is None {
        Err(EditError::NotConfiguring)
    } else if !negate && !enters && args.len() == 0 {
        Err(EditError::MissingValue)
    } else {
        Ok(())
    }
}

/// The session after an edit of `node` (named `name`).
pub open spec fn edit_state(
    s: SessionView,
    negate: bool,
    node: int,
    name: Seq<char>,
    enters: bool,
    args: Seq<Seq<char>>,
) -> SessionView {
    let key = edit_key(s.mode, name, enters, args);
    if edit_outcome(s, negate, enters, args) is Err {
        s
    } else if negate {
        SessionView { candidate: without_subtree(s.candidate, key), ..s }
    } else if enters {
        SessionView {
            candidate: s.candidate.insert(key, edit_value(enters, args)),
            mode: enter_spec(s.mode, (node, key)),
            ..s
        }
    } else {
        SessionView { candidate: s.candidate.insert(key, edit_value(enters, args)), ..s }
    }
}

/// The session after a commit whose submission succeeded (`ok`) or failed.
pub open spec fn commit_state(s: SessionView, ok: bool) -> SessionView {
    if ok {
        SessionView { running: s.candidate, ..s }
    } else {
        s
    }
}

/// One edit request.
pub struct EditRequest {
    pub negate: bool,
    pub node: int,
    pub name: Seq<char>,
    pub enters: bool,
    pub args: Seq<Seq<char>>,
}

pub open spec fn apply_edits(s: SessionView, es: Seq<EditRequest>) -> SessionView
    decreases es.len(),
{
    if es.len() == 0 {
        s
    } else {
        let e = es.last();
        edit_state(apply_edits(s, es.drop_last()), e.negate, e.node, e.name, e.enters, e.args)
    }
}

/// Edits never touch the running configuration.
proof fn lemma_edits_keep_running(s: SessionView, es: Seq<EditRequest>)
    ensures
        apply_edits(s, es).running == s.running,
    decreases es.len(),
{
    if es.len() > 0 {
        lemma_edits_keep_running(s, es.drop_last());
    }
}

/// Whatever edits were made to the candidate, a commit that fails leaves
/// the running configuration as it was before the edits.
pub proof fn lemma_candidate_isolation(s: SessionView, es: Seq<EditRequest>)
    ensures
        commit_state(apply_edits(s, es), false).running == s.running,
{
    lemma_edits_keep_running(s, es);
}

/// A commit is all or nothing: on success the running configuration is the
/// old one with the whole submitted diff applied, which is the candidate;
/// on failure neither configuration changes.
pub proof fn lemma_commit_atomicity(s: SessionView, cs: Seq<ConfigChange>, ok: bool)
    requires
        is_diff(cs, s.running, s.candidate),
    ensures
        ok ==> commit_state(s, ok).running == apply_changes(s.running, cs),
        ok ==> commit_state(s, ok).running == s.candidate,
        ok ==> commit_state(s, ok).candidate == s.candidate,
        !ok ==> commit_state(s, ok) == s,
{
    lemma_diff_applies_whole(cs, s.running, s.candidate);
}

/// The session: mode, nested context, candidate and running configuration.
#[derive(Debug)]
pub struct Session {
    pub mode: CommandMode,
    pub running: ConfigTree,
    pub candidate: ConfigTree,
    pub hostname: Vec<char>,
}

impl Session {
    pub open spec fn view(&self) -> SessionView {
        SessionView {
            mode: mode_view(&self.mode),
            running: self.running@,
            candidate: self.candidate@,
            hostname: self.hostname@,
        }
    }

    pub open spec fn wf(&self) -> bool {
        self.running.wf() && self.candidate.wf()
    }

    /// A session in operational mode with empty configurations.
    pub fn new() -> (r: Session)
        ensures
            r.wf(),
            r@.mode is None,
            r@.running == Map::<Key, Seq<Seq<char>>>::empty(),
            r@.candidate == Map::<Key, Seq<Seq<char>>>::empty(),
            r@.hostname == Seq::<char>::empty(),
    {
        Session {
            mode: CommandMode::Operational,
            running: ConfigTree::new(),
            candidate: ConfigTree::new(),
            hostname: Vec::new(),
        }
    }

    /// Replaces the mode.
    pub fn mode_set(&mut self, mode: CommandMode)
        ensures
            final(self)@ == (SessionView { mode: mode_view(&mode), ..old(self)@ }),
            final(self).wf() == old(self).wf(),
    {
        self.mode = mode;
    }

    /// Enters a nested context; no effect in operational mode.
    pub fn enter_context(&mut self, node: usize, key: Vec<Vec<char>>)
        ensures
            final(self)@ == (SessionView {
                mode: enter_spec(old(self)@.mode, (node as int, words_of(&key))),
                ..old(self)@
            }),
            final(self).wf() == old(self).wf(),
    {
        let mut m = CommandMode::Operational;
        std::mem::swap(&mut m, &mut self.mode);
        match m {
            CommandMode::Operational => {},
            CommandMode::Configure { mut nodes } => {
                let ghost before = mode_view(&CommandMode::Configure { nodes });
                nodes.push(ContextEntry { node, key });
                proof {
                    assert(mode_view(&CommandMode::Configure { nodes }) =~= enter_spec(before, (node as int, words_of(&key))));
                }
                self.mode = CommandMode::Configure { nodes };
            },
        }
        assert(self@ =~= (SessionView {
            mode: enter_spec(old(self)@.mode, (node as int, words_of(&key))),
            ..old(self)@
        }));
    }

    /// Leaves the innermost context, or configuration mode at its top level.
    /// Returns whether the session was already in operational mode.
    pub fn exit_context(&mut self) -> (r: bool)
        ensures
            r == (old(self)@.mode is None),
            final(self)@ == (SessionView { mode: exit_spec(old(self)@.mode), ..old(self)@ }),
            final(self).wf() == old(self).wf(),
    {
        let mut m = CommandMode::Operational;
        std::mem::swap(&mut m, &mut self.mode);
        match m {
            CommandMode::Operational => {
                true
            },
            CommandMode::Configure { mut nodes } => {
                let ghost before = mode_view(&CommandMode::Configure { nodes });
                if nodes.len() > 0 {
                    nodes.pop();
                    proof {
                        assert(mode_view(&CommandMode::Configure { nodes }) =~= exit_spec(before));
                    }
                    self.mode = CommandMode::Configure { nodes };
                }
                false
            },
        }
    }

    /// The key of the innermost context.
    fn context_key_exec(&self) -> (r: Vec<Vec<char>>)
        ensures
            words_of(&r) == context_key(self@.mode),
    {
        match &self.mode {
            CommandMode::Operational => {
                let r: Vec<Vec<char>> = Vec::new();
                assert(words_of(&r) =~= Seq::<Seq<char>>::empty());
                r
            },
            CommandMode::Configure { nodes } => {
                if nodes.len() > 0 {
                    copy_words(&nodes[nodes.len() - 1].key)
                } else {
                    let r: Vec<Vec<char>> = Vec::new();
                    assert(words_of(&r) =~= Seq::<Seq<char>>::empty());
                    r
                }
            },
        }
    }

    /// Edits the candidate configuration at the node `node` named `name`:
    /// removes the subtree there when negated, else sets its value (and
    /// enters the node's context when `enters`). A refused edit changes
    /// nothing.
    pub fn edit_candidate(
        &mut self,
        negate: bool,
        node: usize,
        name: &Vec<char>,
        enters: bool,
        args: &Vec<Vec<char>>,
    ) -> (r: Result<(), EditError>)
        requires
            old(self).wf(),
        ensures
            final(self).wf(),
            r == edit_outcome(old(self)@, negate, enters, words_of(args)),
            final(self)@ == edit_state(old(self)@, negate, node as int, name@, enters, words_of(args)),
    {
        let configuring = match &self.mode {
            CommandMode::Operational => false,
            CommandMode::Configure { .. } => true,
        };
        if !configuring {
            return Err(EditError::NotConfiguring);
        }
        if !negate && !enters && args.len() == 0 {
            return Err(EditError::MissingValue);
        }
        let ghost key_spec = edit_key(self@.mode, name@, enters, words_of(args));
        let mut key = self.context_key_exec();
        let ghost before = words_of(&key);
        key.push(copy_word(name));
        assert(words_of(&key) =~= before.push(name@));
        if enters {
            let mut i: usize = 0;
            while i < args.len()
                invariant
                    0 <= i <= args@.len(),
                    words_of(&key) == before.push(name@) + words_of(args).subrange(0, i as int),
                decreases args@.len() - i,
            {
                let ghost k0 = words_of(&key);
                key.push(copy_word(&args[i]));
                assert(words_of(&key) =~= k0.push(args@[i as int]@));
                i = i + 1;
                assert(words_of(&key) =~= before.push(name@) + words_of(args).subrange(0, i as int));
            }
            assert(words_of(args).subrange(0, args@.len() as int) =~= words_of(args));
        } else {
            assert(before.push(name@) =~= key_spec);
        }
        assert(words_of(&key) == key_spec);
        if negate {
            self.candidate.remove_subtree(&key);
        } else if enters {
            let ctx_key = copy_words(&key);
            let empty: Vec<Vec<char>> = Vec::new();
            assert(words_of(&empty) =~= Seq::<Seq<char>>::empty());
            self.candidate.set(key, empty);
            self.enter_context(node, ctx_key);
        } else {
            let value = copy_words(args);
            self.candidate.set(key, value);
        }
        assert(self@ =~= edit_state(old(self)@, negate, node as int, name@, enters, words_of(args)));
        Ok(())
    }

    /// Discards the candidate's edits: the candidate becomes the running
    /// configuration again.
    pub fn candidate_rollback(&mut self)
        requires
            old(self).wf(),
        ensures
            final(self).wf(),
            final(self)@ == (SessionView { candidate: old(self)@.running, ..old(self)@ }),
    {
        self.candidate = self.running.copy();
    }

    /// Finishes a commit with the daemon's answer to the submitted changes:
    /// on success the running configuration becomes the candidate; on
    /// failure nothing changes and the daemon's words are handed back. With
    /// nothing to submit the commit succeeds whatever the answer.
    pub fn candidate_commit(&mut self, outcome: Result<(), Vec<char>>) -> (r: Result<(), CommitError>)
        requires
            old(self).wf(),
        ensures
            final(self).wf(),
            final(self)@ == commit_state(old(self)@, outcome is Ok),
            r is Ok <==> (outcome is Ok || old(self)@.running == old(self)@.candidate),
            r matches Err(CommitError::Rejected(m)) ==> outcome matches Err(o) && m@ == o@,
    {
        if !self.commit_needed() {
            return Ok(());
        }
        match outcome {
            Ok(()) => {
                self.running = self.candidate.copy();
                Ok(())
            },
            Err(msg) => Err(CommitError::Rejected(msg)),
        }
    }

    /// Whether a commit has anything to submit.
    pub fn commit_needed(&self) -> (r: bool)
        requires
            self.wf(),
        ensures
            r == (self@.running != self@.candidate),
    {
        let changes = self.candidate_changes();
        proof {
            lemma_diff_applies_whole(changes@, self@.running, self@.candidate);
            if changes@.len() == 0 {
                assert(apply_changes(self@.running, changes@) =~= self@.running);
            } else {
                let c = changes@[0];
                if self@.running == self@.candidate {
                    assert(!differs_at(self@.running, self@.candidate, change_key(&c)));
                }
            }
        }
        changes.len() != 0
    }

    /// The changes that a commit submits: those that turn the running
    /// configuration into the candidate.
    pub fn candidate_changes(&self) -> (r: Vec<ConfigChange>)
        requires
            self.wf(),
        ensures
            is_diff(r@, self@.running, self@.candidate),
    {
        self.running.changes_to(&self.candidate)
    }

    /// The prompt for the current mode and host name.
    pub fn prompt(&self) -> (r: Vec<char>)
        ensures
            r@ == prompt_spec(self@.hostname, self@.mode),
    {
        let mut r = crate::parser::copy_word(&self.hostname);
        let key = self.context_key_exec();
        match &self.mode {
            CommandMode::Operational => {
                let tail = chars_of("# ");
                proof { reveal_strlit("# "); }
                push_all(&mut r, &tail);
                assert(tail@ =~= seq!['#', ' ']);
            },
            CommandMode::Configure { .. } => {
                let head = chars_of("(config");
                proof { reveal_strlit("(config"); }
                assert(head@ =~= prompt_config());
                push_all(&mut r, &head);
                if key.len() > 0 {
                    let dash = chars_of("-");
                    proof { reveal_strlit("-"); }
                    push_all(&mut r, &dash);
                    push_all(&mut r, &key[key.len() - 1]);
                }
                let tail = chars_of(")# ");
                proof { reveal_strlit(")# "); }
                push_all(&mut r, &tail);
                assert(tail@ =~= seq![')', '#', ' ']);
            },
        }
        proof {
            if self@.mode is Some && key@.len() > 0 {
                assert(context_key(self@.mode).last() == key@[key@.len() - 1]@);
            }
        }
        r
    }

    /// Takes a freshly fetched host name; a failed fetch keeps the old one.
    pub fn update_hostname(&mut self, fetched: Option<Vec<char>>)
        ensures
            final(self).wf() == old(self).wf(),
            fetched is None ==> final(self)@ == old(self)@,
            fetched matches Some(h) ==> final(self)@ == (SessionView { hostname: h@, ..old(self)@ }),
    {
        if let Some(h) = fetched {
            self.hostname = h;
        }
    }
}

} // verus!
