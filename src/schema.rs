use vstd::prelude::*;

use crate::parser::copy_word;
use crate::text::chars_of;
use crate::token::{Action, Callback, Commands, NodeKind, ParamType};

verus! {

/// What a schema node is.
#[derive(Clone, Copy, Debug, PartialEq, Eq, Structural)]
pub enum SchemaKind {
    /// A container: entering it opens a nested context.
    Container,
    /// A list keyed by one word: entering an entry opens a nested context.
    List,
    /// A leaf holding one value of the given type.
    Leaf(ParamType),
}

/// One node of the loaded data model, as the command tree needs it. A
/// node's parent, if any, comes earlier in the list.
#[derive(Debug)]
pub struct SchemaNode {
    pub name: Vec<char>,
    pub kind: SchemaKind,
    pub parent: Option<usize>,
}

/// The command nodes made for one schema node: its keyword, and the
/// parameter under it (the key of a list, the value of a leaf).
#[derive(Clone, Copy, Debug, PartialEq, Eq, Structural)]
pub struct SchemaCommand {
    pub keyword: usize,
    pub param: Option<usize>,
}

/// The tree `b` extends `a`: nodes are only appended.
pub open spec fn grows(a: &Commands, b: &Commands) -> bool {
    &&& a.len() <= b.len()
    &&& a.config_root == b.config_root
    &&& forall|j: int| 0 <= j < a.len() ==> #[trigger] b.node(j) == a.node(j)
}

/// Node `i` is a keyword under `parent` with this text, action and mode flag.
pub open spec fn keyword_at(t: &Commands, i: int, parent: int, name: Seq<char>, action: Option<Action>, enters: bool) -> bool {
    &&& 0 < i < t.len()
    &&& i != t.config_root
    &&& t.node(i).name@ == name
    &&& t.node(i).kind == NodeKind::Keyword
    &&& t.node(i).parent == parent
    &&& t.node(i).action == action
    &&& t.node(i).enters_mode == enters
}

/// Node `i` is a parameter of type `pt` under `parent`.
pub open spec fn param_at(t: &Commands, i: int, parent: int, name: Seq<char>, pt: ParamType, action: Option<Action>, enters: bool) -> bool {
    &&& 0 < i < t.len()
    &&& i != t.config_root
    &&& t.node(i).name@ == name
    &&& t.node(i).kind == NodeKind::Param(pt)
    &&& t.node(i).parent == parent
    &&& t.node(i).action == action
    &&& t.node(i).enters_mode == enters
}

/// Node `n` has the `exit` and `end` commands that leave a context.
pub open spec fn has_exits(t: &Commands, n: int) -> bool {
    &&& exists|e: int| keyword_at(t, e, n, "exit"@, Some(Action::Callback(Callback::Exit)), false)
    &&& exists|e: int| keyword_at(t, e, n, "end"@, Some(Action::Callback(Callback::End)), false)
}

/// The built-in commands: in operational mode `configure`, `exit` and
/// `show running|candidate|changes`; at the root of configuration mode
/// `exit`, `end`, `commit`, `discard` and the same `show` commands.
pub open spec fn builtin_tree(t: &Commands) -> bool {
    &&& t.len() >= 16
    &&& t.config_root == 1
    &&& t.node(1).parent == 0
    &&& keyword_at(t, 2, 0, "configure"@, Some(Action::Callback(Callback::Configure)), false)
    &&& keyword_at(t, 3, 0, "exit"@, Some(Action::Callback(Callback::Exit)), false)
    &&& keyword_at(t, 4, 0, "show"@, None, false)
    &&& keyword_at(t, 5, 4, "running"@, Some(Action::Callback(Callback::ShowRunning)), false)
    &&& keyword_at(t, 6, 4, "candidate"@, Some(Action::Callback(Callback::ShowCandidate)), false)
    &&& keyword_at(t, 7, 4, "changes"@, Some(Action::Callback(Callback::ShowChanges)), false)
    &&& keyword_at(t, 8, 1, "exit"@, Some(Action::Callback(Callback::Exit)), false)
    &&& keyword_at(t, 9, 1, "end"@, Some(Action::Callback(Callback::End)), false)
    &&& keyword_at(t, 10, 1, "commit"@, Some(Action::Callback(Callback::Commit)), false)
    &&& keyword_at(t, 11, 1, "discard"@, Some(Action::Callback(Callback::Discard)), false)
    &&& keyword_at(t, 12, 1, "show"@, None, false)
    &&& keyword_at(t, 13, 12, "running"@, Some(Action::Callback(Callback::ShowRunning)), false)
    &&& keyword_at(t, 14, 12, "candidate"@, Some(Action::Callback(Callback::ShowCandidate)), false)
    &&& keyword_at(t, 15, 12, "changes"@, Some(Action::Callback(Callback::ShowChanges)), false)
}

/// Every keyword child of `p` has a text in `s`.
pub open spec fn names_within(t: &Commands, p: int, s: Set<Seq<char>>) -> bool {
    forall|c: int| t.is_keyword_child(p, c) ==> s.contains(#[trigger] t.node(c).name@)
}

proof fn lemma_keyword_grows(a: &Commands, b: &Commands, i: int, parent: int, name: Seq<char>, action: Option<Action>, enters: bool)
    requires
        grows(a, b),
        keyword_at(a, i, parent, name, action, enters),
    ensures
        keyword_at(b, i, parent, name, action, enters),
{
    assert(b.node(i) == a.node(i));
}

proof fn lemma_exits_grow(a: &Commands, b: &Commands, n: int)
    requires
        grows(a, b),
        has_exits(a, n),
    ensures
        has_exits(b, n),
{
    let e = choose|e: int| keyword_at(a, e, n, "exit"@, Some(Action::Callback(Callback::Exit)), false);
    let d = choose|e: int| keyword_at(a, e, n, "end"@, Some(Action::Callback(Callback::End)), false);
    lemma_keyword_grows(a, b, e, n, "exit"@, Some(Action::Callback(Callback::Exit)), false);
    lemma_keyword_grows(a, b, d, n, "end"@, Some(Action::Callback(Callback::End)), false);
}


/// The node whose subtree is the nested context of a schema node's commands.
pub open spec fn context_of(sc: SchemaCommand, k: SchemaKind) -> Option<int> {
    match k {
        SchemaKind::Container => Some(sc.keyword as int),
        SchemaKind::List => match sc.param {
            Some(p) => Some(p as int),
            None => None,
        },
        SchemaKind::Leaf(_) => None,
    }
}

/// Where the commands of schema node `i` go: the root of configuration
/// mode for a top-level node, else the context of its parent's commands
/// (`None` when the parent comes later, was left out, or is a leaf).
pub open spec fn parent_context(t: &Commands, schema: Seq<SchemaNode>, r: Seq<Option<SchemaCommand>>, i: int) -> Option<int> {
    match schema[i].parent {
        None => Some(t.config_root as int),
        Some(j) => if j < i && r[j as int] is Some {
            context_of(r[j as int]->0, schema[j as int].kind)
        } else {
            None
        },
    }
}

/// Schema node `i` got its commands, as `r[i]` records, or was left out:
/// either it has no place, or a sibling keyword already had its text.
pub open spec fn placed(t: &Commands, schema: Seq<SchemaNode>, r: Seq<Option<SchemaCommand>>, i: int) -> bool {
    let sn = schema[i];
    let edit = Some(Action::ConfigEdit(i as u64));
    match r[i] {
        Some(sc) => match parent_context(t, schema, r, i) {
            Some(pn) => {
                &&& keyword_at(t, sc.keyword as int, pn, sn.name@, edit, sn.kind == SchemaKind::Container)
                &&& match sn.kind {
                    SchemaKind::Container => sc.param is None && has_exits(t, sc.keyword as int),
                    SchemaKind::List => sc.param matches Some(p) && param_at(
                        t,
                        p as int,
                        sc.keyword as int,
                        sn.name@,
                        ParamType::Text,
                        edit,
                        true,
                    ) && has_exits(t, p as int),
                    SchemaKind::Leaf(pt) => sc.param matches Some(p) && param_at(
                        t,
                        p as int,
                        sc.keyword as int,
                        sn.name@,
                        pt,
                        edit,
                        false,
                    ),
                }
            },
            None => false,
        },
        None => left_out(t, parent_context(t, schema, r, i), sn.name@),
    }
}

/// A schema node with this place and text is rightly left out: it has no
/// place, or a keyword there already has its text.
pub open spec fn left_out(t: &Commands, place: Option<int>, name: Seq<char>) -> bool {
    place is None || exists|c: int| #[trigger] t.exact_match(place->0, name, c)
}

proof fn lemma_left_out(t: &Commands, pn: int, name: Seq<char>, c: int)
    requires
        t.exact_match(pn, name, c),
    ensures
        left_out(t, Some(pn), name),
{
    assert(exists|c2: int| t.exact_match(pn, name, c2));
    assert(Some(pn)->0 == pn);
}

proof fn lemma_placed_stable(
    a: &Commands,
    b: &Commands,
    schema: Seq<SchemaNode>,
    r1: Seq<Option<SchemaCommand>>,
    r2: Seq<Option<SchemaCommand>>,
    k: int,
)
    requires
        grows(a, b),
        0 <= k < r1.len(),
        k < r2.len(),
        forall|j: int| 0 <= j <= k ==> r1[j] == r2[j],
        placed(a, schema, r1, k),
    ensures
        placed(b, schema, r2, k),
{
    let sn = schema[k];
    let edit = Some(Action::ConfigEdit(k as u64));
    if let Some(j) = sn.parent {
        if j < k {
            assert(r1[j as int] == r2[j as int]);
        }
    }
    assert(parent_context(a, schema, r1, k) == parent_context(b, schema, r2, k));
    match r1[k] {
        Some(sc) => {
            let pn = parent_context(a, schema, r1, k)->0;
            lemma_keyword_grows(a, b, sc.keyword as int, pn, sn.name@, edit, sn.kind == SchemaKind::Container);
            match sn.kind {
                SchemaKind::Container => lemma_exits_grow(a, b, sc.keyword as int),
                SchemaKind::List => {
                    let p = sc.param->0;
                    assert(b.node(p as int) == a.node(p as int));
                    lemma_exits_grow(a, b, p as int);
                },
                SchemaKind::Leaf(_) => {
                    let p = sc.param->0;
                    assert(b.node(p as int) == a.node(p as int));
                },
            }
        },
        None => {
            if let Some(pn) = parent_context(a, schema, r1, k) {
                let c = choose|c: int| a.exact_match(pn, sn.name@, c);
                assert(b.node(c) == a.node(c));
                assert(b.exact_match(pn, sn.name@, c));
            }
            assert(left_out(b, parent_context(b, schema, r2, k), sn.name@));
        },
    }
}


proof fn lemma_builtin_names_differ()
    ensures
        "exit"@ != "configure"@,
        "show"@ != "configure"@,
        "show"@ != "exit"@,
        "end"@ != "exit"@,
        "commit"@ != "exit"@,
        "commit"@ != "end"@,
        "discard"@ != "exit"@,
        "discard"@ != "end"@,
        "discard"@ != "commit"@,
        "show"@ != "end"@,
        "show"@ != "commit"@,
        "show"@ != "discard"@,
        "candidate"@ != "running"@,
        "changes"@ != "running"@,
        "changes"@ != "candidate"@,
{
    reveal_strlit("exit");
    reveal_strlit("configure");
    reveal_strlit("show");
    reveal_strlit("end");
    reveal_strlit("commit");
    reveal_strlit("discard");
    reveal_strlit("candidate");
    reveal_strlit("running");
    reveal_strlit("changes");
    assert("exit"@.len() == 4 && "configure"@.len() == 9 && "show"@.len() == 4 && "end"@.len() == 3);
    assert("commit"@.len() == 6 && "discard"@.len() == 7 && "candidate"@.len() == 9);
    assert("running"@.len() == 7 && "changes"@.len() == 7);
    assert("show"@[0] != "exit"@[0]);
    assert("discard"@[0] != "running"@[0]);
    assert("changes"@[0] != "running"@[0]);
    assert("candidate"@[1] != "configure"@[1]);
}

impl Commands {
    /// Adds a keyword under `parent` whose text no sibling keyword has.
    fn add_fresh(
        &mut self,
        parent: usize,
        name: &str,
        action: Option<Action>,
        enters: bool,
        Ghost(names): Ghost<Set<Seq<char>>>,
    ) -> (r: usize)
        requires
            old(self).wf(),
            parent < old(self).len(),
            old(self).len() < usize::MAX - 1,
            names_within(old(self), parent as int, names),
            !names.contains(name@),
        ensures
            final(self).wf(),
            grows(old(self), final(self)),
            r == old(self).len(),
            final(self).len() == old(self).len() + 1,
            keyword_at(final(self), r as int, parent as int, name@, action, enters),
            names_within(final(self), parent as int, names.insert(name@)),
            names_within(final(self), r as int, Set::empty()),
            forall|q: int, s: Set<Seq<char>>|
                q != parent && #[trigger] names_within(old(self), q, s) ==> names_within(final(self), q, s),
    {
        let w = chars_of(name);
        let r = self.add_node(parent, w, NodeKind::Keyword, action, enters);
        let i = match r {
            Some(i) => i,
            None => {
                proof {
                    let c = choose|c: int| old(self).exact_match(parent as int, name@, c);
                    assert(names.contains(old(self).node(c).name@));
                }
                0
            },
        };
        proof {
            assert(i == old(self).len());
            assert forall|c: int| self.is_keyword_child(parent as int, c) implies names.insert(name@).contains(
                #[trigger] self.node(c).name@,
            ) by {
                if c < i {
                    assert(old(self).node(c) == self.node(c));
                    assert(old(self).is_keyword_child(parent as int, c));
                }
            }
            assert forall|c: int| self.is_keyword_child(i as int, c) implies Set::<Seq<char>>::empty().contains(
                #[trigger] self.node(c).name@,
            ) by {
                if c < i {
                    assert(old(self).node(c) == self.node(c));
                }
            }
            assert forall|q: int, s: Set<Seq<char>>|
                q != parent && #[trigger] names_within(old(self), q, s) implies names_within(self, q, s) by {
                assert forall|c: int| self.is_keyword_child(q, c) implies s.contains(#[trigger] self.node(c).name@) by {
                    if c < i {
                        assert(old(self).node(c) == self.node(c));
                        assert(old(self).is_keyword_child(q, c));
                    }
                }
            }
        }
        i
    }

    /// Adds the commands that leave a nested context under a node that has
    /// no children yet.
    fn add_context_exits(&mut self, node: usize)
        requires
            old(self).wf(),
            node < old(self).len(),
            old(self).len() < usize::MAX - 3,
            names_within(old(self), node as int, Set::empty()),
        ensures
            final(self).wf(),
            grows(old(self), final(self)),
            final(self).len() == old(self).len() + 2,
            has_exits(final(self), node as int),
    {
        proof {
            lemma_builtin_names_differ();
        }
        let ghost s0 = *self;
        let e = self.add_fresh(node, "exit", Some(Action::Callback(Callback::Exit)), false, Ghost(Set::empty()));
        let ghost s1 = *self;
        let d = self.add_fresh(node, "end", Some(Action::Callback(Callback::End)), false, Ghost(Set::empty().insert("exit"@)));
        proof {
            lemma_keyword_grows(&s1, self, e as int, node as int, "exit"@, Some(Action::Callback(Callback::Exit)), false);
            assert(grows(&s0, self)) by {
                assert forall|j: int| 0 <= j < s0.len() implies #[trigger] self.node(j) == s0.node(j) by {
                    assert(s1.node(j) == s0.node(j));
                }
            }
        }
    }

    /// Adds `show running|candidate|changes` under `node`.
    fn add_show(&mut self, node: usize, Ghost(names): Ghost<Set<Seq<char>>>) -> (r: usize)
        requires
            old(self).wf(),
            node < old(self).len(),
            old(self).len() < usize::MAX - 5,
            names_within(old(self), node as int, names),
            !names.contains("show"@),
        ensures
            final(self).wf(),
            grows(old(self), final(self)),
            final(self).len() == old(self).len() + 4,
            r == old(self).len(),
            keyword_at(final(self), r as int, node as int, "show"@, None, false),
            keyword_at(final(self), r + 1, r as int, "running"@, Some(Action::Callback(Callback::ShowRunning)), false),
            keyword_at(final(self), r + 2, r as int, "candidate"@, Some(Action::Callback(Callback::ShowCandidate)), false),
            keyword_at(final(self), r + 3, r as int, "changes"@, Some(Action::Callback(Callback::ShowChanges)), false),
            names_within(final(self), node as int, names.insert("show"@)),
            forall|q: int, s: Set<Seq<char>>|
                q != node && q < old(self).len() && #[trigger] names_within(old(self), q, s) ==> names_within(final(self), q, s),
    {
        proof {
            lemma_builtin_names_differ();
        }
        let ghost s0 = *self;
        let show = self.add_fresh(node, "show", None, false, Ghost(names));
        let ghost s1 = *self;
        let a = self.add_fresh(show, "running", Some(Action::Callback(Callback::ShowRunning)), false, Ghost(Set::empty()));
        let ghost s2 = *self;
        let b = self.add_fresh(show, "candidate", Some(Action::Callback(Callback::ShowCandidate)), false, Ghost(Set::empty().insert("running"@)));
        let ghost s3 = *self;
        let c = self.add_fresh(show, "changes", Some(Action::Callback(Callback::ShowChanges)), false,
            Ghost(Set::empty().insert("running"@).insert("candidate"@)));
        proof {
            lemma_keyword_grows(&s1, &s2, show as int, node as int, "show"@, None, false);
            lemma_keyword_grows(&s2, &s3, show as int, node as int, "show"@, None, false);
            lemma_keyword_grows(&s3, self, show as int, node as int, "show"@, None, false);
            lemma_keyword_grows(&s2, &s3, a as int, show as int, "running"@, Some(Action::Callback(Callback::ShowRunning)), false);
            lemma_keyword_grows(&s3, self, a as int, show as int, "running"@, Some(Action::Callback(Callback::ShowRunning)), false);
            lemma_keyword_grows(&s3, self, b as int, show as int, "candidate"@, Some(Action::Callback(Callback::ShowCandidate)), false);
            assert(names_within(&s2, node as int, names.insert("show"@)));
            assert(names_within(&s3, node as int, names.insert("show"@)));
            assert forall|j: int| 0 <= j < s0.len() implies #[trigger] self.node(j) == s0.node(j) by {
                assert(s1.node(j) == s0.node(j));
                assert(s2.node(j) == s1.node(j));
                assert(s3.node(j) == s2.node(j));
            }
            assert forall|q: int, s: Set<Seq<char>>|
                q != node && q < s0.len() && #[trigger] names_within(&s0, q, s) implies names_within(self, q, s) by {
                assert(names_within(&s1, q, s));
                assert(names_within(&s2, q, s));
                assert(names_within(&s3, q, s));
            }
        }
        show
    }

    /// Builds the built-in commands: the operational root and the root of
    /// configuration mode with their handlers.
    pub fn gen_cmds(&mut self)
        requires
            old(self).wf(),
            old(self).config_root == 0,
            old(self).len() == 1,
        ensures
            final(self).wf(),
            final(self).len() == 16,
            builtin_tree(final(self)),
    {
        proof {
            lemma_builtin_names_differ();
        }
        let root = self.add_config_root();
        assert(names_within(self, 0, Set::empty()));
        assert(names_within(self, 1, Set::empty()));
        let ghost s1 = *self;
        let cf = self.add_fresh(0, "configure", Some(Action::Callback(Callback::Configure)), false, Ghost(Set::empty()));
        let ghost s2 = *self;
        let ex = self.add_fresh(0, "exit", Some(Action::Callback(Callback::Exit)), false, Ghost(Set::empty().insert("configure"@)));
        let ghost s3 = *self;
        let sh = self.add_show(0, Ghost(Set::empty().insert("configure"@).insert("exit"@)));
        let ghost s4 = *self;
        let x1 = self.add_fresh(root, "exit", Some(Action::Callback(Callback::Exit)), false, Ghost(Set::empty()));
        let ghost s5 = *self;
        let e1 = self.add_fresh(root, "end", Some(Action::Callback(Callback::End)), false, Ghost(Set::empty().insert("exit"@)));
        let ghost s6 = *self;
        let c1 = self.add_fresh(root, "commit", Some(Action::Callback(Callback::Commit)), false,
            Ghost(Set::empty().insert("exit"@).insert("end"@)));
        let ghost s7 = *self;
        let d1 = self.add_fresh(root, "discard", Some(Action::Callback(Callback::Discard)), false,
            Ghost(Set::empty().insert("exit"@).insert("end"@).insert("commit"@)));
        let ghost s8 = *self;
        let sh1 = self.add_show(root, Ghost(Set::empty().insert("exit"@).insert("end"@).insert("commit"@).insert("discard"@)));
        proof {
            let t = *self;
            assert forall|j: int| 0 <= j < 16 implies #[trigger] t.node(j) == s8.node(j) || j >= s8.len() by {}
            assert forall|j: int| 0 <= j < s8.len() implies #[trigger] t.node(j) == s1.node(j) || j >= s1.len() by {
                if j < s1.len() {
                    assert(s2.node(j) == s1.node(j));
                    assert(s3.node(j) == s2.node(j));
                    assert(s4.node(j) == s3.node(j));
                    assert(s5.node(j) == s4.node(j));
                    assert(s6.node(j) == s5.node(j));
                    assert(s7.node(j) == s6.node(j));
                    assert(s8.node(j) == s7.node(j));
                    assert(t.node(j) == s8.node(j));
                }
            }
            assert(t.node(1) == s1.node(1));
            assert(t.node(2) == s2.node(2));
            assert(t.node(3) == s3.node(3));
            assert(t.node(4) == s4.node(4));
            assert(t.node(5) == s4.node(5));
            assert(t.node(6) == s4.node(6));
            assert(t.node(7) == s4.node(7));
            assert(t.node(8) == s5.node(8));
            assert(t.node(9) == s6.node(9));
            assert(t.node(10) == s7.node(10));
            assert(t.node(11) == s8.node(11));
        }
    }

    /// Adds a node under `parent`; a keyword whose text a sibling keyword
    /// has is refused.
    fn add_child_node(&mut self, parent: usize, name: Vec<char>, kind: NodeKind, action: Option<Action>, enters: bool) -> (r: Option<usize>)
        requires
            old(self).wf(),
            parent < old(self).len(),
            old(self).len() < usize::MAX - 1,
        ensures
            final(self).wf(),
            grows(old(self), final(self)),
            r is None ==> kind == NodeKind::Keyword && final(self).len() == old(self).len() && exists|c: int|
                old(self).exact_match(parent as int, name@, c),
            r matches Some(i) ==> {
                &&& i == old(self).len()
                &&& final(self).len() == old(self).len() + 1
                &&& i != final(self).config_root
                &&& final(self).node(i as int).name@ == name@
                &&& final(self).node(i as int).kind == kind
                &&& final(self).node(i as int).parent == parent
                &&& final(self).node(i as int).action == action
                &&& final(self).node(i as int).enters_mode == enters
                &&& names_within(final(self), i as int, Set::empty())
            },
    {
        let ghost w = name@;
        let r = self.add_node(parent, name, kind, action, enters);
        proof {
            if let Some(i) = r {
                assert forall|c: int| self.is_keyword_child(i as int, c) implies Set::<Seq<char>>::empty().contains(
                    #[trigger] self.node(c).name@,
                ) by {
                    if c < i {
                        assert(old(self).node(c) == self.node(c));
                    }
                }
            } else {
                assert(kind == NodeKind::Keyword);
            }
        }
        r
    }

    /// Adds the configuration commands of a data model: for each schema
    /// node a keyword editing the configuration at that node, under the
    /// context of its parent; a container's keyword opens a context; a list
    /// gets a key parameter that opens a context, a leaf a value parameter
    /// of its type; each context gets `exit` and `end`. A node whose parent
    /// was left out or is a leaf, or whose text a sibling keyword already
    /// has, is left out with its subtree. The result records what each
    /// schema node got.
    pub fn extend_from_schema(&mut self, schema: &Vec<SchemaNode>) -> (r: Vec<Option<SchemaCommand>>)
        requires
            old(self).wf(),
            old(self).len() + 4 * schema@.len() < usize::MAX - 3,
        ensures
            final(self).wf(),
            grows(old(self), final(self)),
            r@.len() == schema@.len(),
            forall|i: int| 0 <= i < schema@.len() ==> placed(final(self), schema@, r@, i),
    {
        let mut r: Vec<Option<SchemaCommand>> = Vec::new();
        let mut i: usize = 0;
        while i < schema.len()
            invariant
                self.wf(),
                grows(old(self), self),
                old(self).len() + 4 * schema@.len() < usize::MAX - 3,
                self.len() <= old(self).len() + 4 * i,
                r@.len() == i,
                i <= schema@.len(),
                forall|k: int| 0 <= k < i ==> placed(self, schema@, r@, k),
            decreases schema@.len() - i,
        {
            let ghost t0 = *self;
            let ghost r0 = r@;
            let sn = &schema[i];
            let parent: Option<usize> = match sn.parent {
                None => Some(self.config_root),
                Some(j) => if j < i {
                    match r[j] {
                        Some(sc) => match schema[j].kind {
                            SchemaKind::Container => Some(sc.keyword),
                            SchemaKind::List => sc.param,
                            SchemaKind::Leaf(_) => None,
                        },
                        None => None,
                    }
                } else {
                    None
                },
            };
            let ghost pc = parent_context(self, schema@, r@.push(None), i as int);
            assert(parent matches Some(p) ==> pc == Some(p as int));
            assert(parent is None ==> pc is None);
            proof {
                if let Some(p) = parent {
                    if let Some(j) = sn.parent {
                        let sc = r@[j as int]->0;
                        assert(p < self.len()) by {
                            assert(placed(self, schema@, r@, j as int));
                        }
                    }
                }
            }
            let edit = Some(Action::ConfigEdit(i as u64));
            let mut entry: Option<SchemaCommand> = None;
            if let Some(pn) = parent {
                let kind = sn.kind;
                let is_container = match kind {
                    SchemaKind::Container => true,
                    _ => false,
                };
                let added = self.add_child_node(pn, copy_word(&sn.name), NodeKind::Keyword, edit, is_container);
                match added {
                    None => {},
                    Some(kw) => {
                        let ghost t1 = *self;
                        match kind {
                            SchemaKind::Container => {
                                self.add_context_exits(kw);
                                entry = Some(SchemaCommand { keyword: kw, param: None });
                                proof {
                                    lemma_keyword_grows(&t1, self, kw as int, pn as int, sn.name@, edit, true);
                                    assert(keyword_at(self, kw as int, pn as int, sn.name@, edit, sn.kind == SchemaKind::Container));
                                }
                            },
                            SchemaKind::List => {
                                let p = self.add_child_node(kw, copy_word(&sn.name), NodeKind::Param(ParamType::Text), edit, true);
                                let key = p.unwrap();
                                let ghost t2 = *self;
                                self.add_context_exits(key);
                                entry = Some(SchemaCommand { keyword: kw, param: Some(key) });
                                proof {
                                    lemma_keyword_grows(&t1, &t2, kw as int, pn as int, sn.name@, edit, false);
                                    lemma_keyword_grows(&t2, self, kw as int, pn as int, sn.name@, edit, false);
                                    assert(self.node(key as int) == t2.node(key as int));
                                    assert(keyword_at(self, kw as int, pn as int, sn.name@, edit, sn.kind == SchemaKind::Container));
                                    assert(param_at(self, key as int, kw as int, sn.name@, ParamType::Text, edit, true));
                                }
                            },
                            SchemaKind::Leaf(pt) => {
                                let p = self.add_child_node(kw, copy_word(&sn.name), NodeKind::Param(pt), edit, false);
                                let value = p.unwrap();
                                entry = Some(SchemaCommand { keyword: kw, param: Some(value) });
                                proof {
                                    lemma_keyword_grows(&t1, self, kw as int, pn as int, sn.name@, edit, false);
                                    assert(keyword_at(self, kw as int, pn as int, sn.name@, edit, sn.kind == SchemaKind::Container));
                                    assert(param_at(self, value as int, kw as int, sn.name@, pt, edit, false));
                                }
                            },
                        }
                    },
                }
            }
            r.push(entry);
            proof {
                assert(grows(&t0, self)) by {
                    assert forall|j: int| 0 <= j < t0.len() implies #[trigger] self.node(j) == t0.node(j) by {}
                }
                assert(grows(old(self), self)) by {
                    assert forall|j: int| 0 <= j < old(self).len() implies #[trigger] self.node(j) == old(self).node(j) by {
                        assert(t0.node(j) == old(self).node(j));
                        assert(self.node(j) == t0.node(j));
                    }
                }
                assert(parent_context(self, schema@, r@, i as int) == pc);
                assert(r@[i as int] == entry);
                assert(schema@[i as int] == *sn);
                if let Some(sc) = entry {
                    let pn = parent->0 as int;
                    assert(pc == Some(pn));
                    assert(keyword_at(self, sc.keyword as int, pn, sn.name@, edit, sn.kind == SchemaKind::Container));
                    assert(edit == Some(Action::ConfigEdit((i as int) as u64)));
                    match sn.kind {
                        SchemaKind::Container => {
                            assert(sc.param is None);
                            assert(has_exits(self, sc.keyword as int));
                            assert(placed(self, schema@, r@, i as int));
                        },
                        SchemaKind::List => {
                            assert(param_at(self, sc.param->0 as int, sc.keyword as int, sn.name@, ParamType::Text, edit, true));
                            assert(has_exits(self, sc.param->0 as int));
                            assert(placed(self, schema@, r@, i as int));
                        },
                        SchemaKind::Leaf(pt) => {
                            assert(param_at(self, sc.param->0 as int, sc.keyword as int, sn.name@, pt, edit, false));
                            assert(placed(self, schema@, r@, i as int));
                        },
                    }
                } else if parent is Some {
                    let c = choose|c: int| t0.exact_match(parent->0 as int, sn.name@, c);
                    assert(self.node(c) == t0.node(c));
                    assert(self.exact_match(parent->0 as int, sn.name@, c));
                    assert(pc == Some(parent->0 as int));
                    assert(parent_context(self, schema@, r@, i as int) == Some(parent->0 as int));
                    lemma_left_out(self, parent->0 as int, sn.name@, c);
                    assert(left_out(self, pc, sn.name@));
                    assert(placed(self, schema@, r@, i as int));
                } else {
                    assert(placed(self, schema@, r@, i as int));
                }
                assert(placed(self, schema@, r@, i as int));
                assert forall|k: int| 0 <= k < i + 1 implies placed(self, schema@, r@, k) by {
                    if k < i {
                        lemma_placed_stable(&t0, self, schema@, r0, r@, k);
                    } else {
                        assert(r@[k] == entry);
                        assert(schema@[k] == *sn);
                        if parent is Some && entry is None {
                            let c = choose|c: int| t0.exact_match(parent->0 as int, sn.name@, c);
                            assert(self.node(c) == t0.node(c));
                            assert(self.exact_match(parent->0 as int, sn.name@, c));
                        }
                    }
                }
            }
            i = i + 1;
        }
        r
    }
}

} // verus!
