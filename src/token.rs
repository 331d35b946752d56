use vstd::prelude::*;

use crate::text::{chars_eq, is_prefix_of, starts_with};

verus! {

/// The type of a positional parameter.
#[derive(Clone, Copy, Debug, PartialEq, Eq, Structural)]
pub enum ParamType {
    /// Any word.
    Text,
    /// A decimal number within `min..=max`.
    Number { min: u64, max: u64 },
    /// A decimal number, possibly negative, within `min..=max`.
    Signed { min: i64, max: i64 },
    /// `true` or `false`.
    Boolean,
    /// A dotted-quad IPv4 address.
    Ipv4Address,
}

/// What a command node is in the grammar.
#[derive(Clone, Copy, Debug, PartialEq, Eq, Structural)]
pub enum NodeKind {
    /// A literal keyword, matched by its text or a unique abbreviation of it.
    Keyword,
    /// A positional parameter, which takes one word as its value.
    Param(ParamType),
}

/// The operational handlers a command can invoke.
#[derive(Clone, Copy, Debug, PartialEq, Eq, Structural)]
pub enum Callback {
    Configure,
    Exit,
    End,
    Commit,
    Discard,
    ShowRunning,
    ShowCandidate,
    ShowChanges,
}

/// The action attached to a command node.
#[derive(Clone, Copy, Debug, PartialEq, Eq, Structural)]
pub enum Action {
    /// Edits the configuration at the schema node with this identifier.
    ConfigEdit(u64),
    /// Invokes an operational handler.
    Callback(Callback),
}

/// One grammar symbol. Its children are the nodes whose `parent` it is.
#[derive(Debug)]
pub struct CommandNode {
    pub name: Vec<char>,
    pub kind: NodeKind,
    pub parent: usize,
    pub action: Option<Action>,
    /// Whether a completed command at this node enters a nested context.
    pub enters_mode: bool,
}

/// The command tree: an arena of nodes. Node 0 is the root of operational
/// mode; `config_root` is the root of configuration mode.
#[derive(Debug)]
pub struct Commands {
    pub nodes: Vec<CommandNode>,
    pub config_root: usize,
}

pub open spec fn is_keyword(k: NodeKind) -> bool {
    k is Keyword
}

impl Commands {
    pub open spec fn len(&self) -> nat {
        self.nodes@.len()
    }

    pub open spec fn node(&self, i: int) -> CommandNode {
        self.nodes@[i]
    }

    /// `c` is a child of `scope`.
    pub open spec fn is_child(&self, scope: int, c: int) -> bool {
        0 < c < self.len() && c != self.config_root && self.node(c).parent == scope
    }

    pub open spec fn is_keyword_child(&self, scope: int, c: int) -> bool {
        self.is_child(scope, c) && is_keyword(self.node(c).kind)
    }

    pub open spec fn is_param_child(&self, scope: int, c: int) -> bool {
        self.is_child(scope, c) && !is_keyword(self.node(c).kind)
    }

    /// `w` abbreviates the keyword child `c` of `scope`.
    pub open spec fn prefix_match(&self, scope: int, w: Seq<char>, c: int) -> bool {
        self.is_keyword_child(scope, c) && is_prefix_of(w, self.node(c).name@)
    }

    /// `w` is the whole text of the keyword child `c` of `scope`.
    pub open spec fn exact_match(&self, scope: int, w: Seq<char>, c: int) -> bool {
        self.is_keyword_child(scope, c) && self.node(c).name@ == w
    }

    pub open spec fn has_children(&self, n: int) -> bool {
        exists|c: int| self.is_child(n, c)
    }

    /// The tree is well formed: it has a root, parents come before their
    /// children, and sibling keywords have distinct text.
    pub open spec fn wf(&self) -> bool {
        &&& self.len() > 0
        &&& 0 <= self.config_root < self.len()
        &&& forall|i: int| 0 < i < self.len() ==> #[trigger] self.node(i).parent < i
        &&& forall|i: int, j: int|
            #![trigger self.node(i), self.node(j)]
            0 < i < self.len() && 0 < j < self.len() && i != j && i != self.config_root && j
                != self.config_root && self.node(i).parent
                == self.node(j).parent && is_keyword(self.node(i).kind) && is_keyword(
                self.node(j).kind,
            ) ==> self.node(i).name@ != self.node(j).name@
    }

    /// A tree holding only the operational root.
    pub fn new() -> (r: Commands)
        ensures
            r.wf(),
            r.len() == 1,
            r.config_root == 0,
    {
        let root = CommandNode {
            name: Vec::new(),
            kind: NodeKind::Keyword,
            parent: 0,
            action: None,
            enters_mode: false,
        };
        let mut nodes: Vec<CommandNode> = Vec::new();
        nodes.push(root);
        Commands { nodes, config_root: 0 }
    }

    /// Adds the root of configuration mode, a node that no word matches.
    pub fn add_config_root(&mut self) -> (r: usize)
        requires
            old(self).wf(),
            old(self).config_root == 0,
            old(self).len() < usize::MAX,
        ensures
            final(self).wf(),
            r == old(self).len(),
            final(self).config_root == r,
            final(self).len() == old(self).len() + 1,
            forall|j: int| 0 <= j < old(self).len() ==> final(self).node(j) == old(self).node(j),
    {
        let idx = self.nodes.len();
        self.nodes.push(CommandNode {
            name: Vec::new(),
            kind: NodeKind::Keyword,
            parent: 0,
            action: None,
            enters_mode: true,
        });
        self.config_root = idx;
        proof {
            assert forall|i: int| 0 < i < self.len() implies #[trigger] self.node(i).parent < i by {
                if i < idx {
                    assert(old(self).node(i) == self.node(i));
                }
            }
            assert forall|a: int, b: int|
                0 < a < self.len() && 0 < b < self.len() && a != b && a != self.config_root && b
                    != self.config_root && self.node(a).parent == self.node(b).parent && is_keyword(
                    self.node(a).kind,
                ) && is_keyword(self.node(b).kind) implies self.node(a).name@ != self.node(
                b,
            ).name@ by {
                assert(old(self).node(a) == self.node(a));
                assert(old(self).node(b) == self.node(b));
            }
        }
        idx
    }

    /// Adds a node under `parent`. A keyword whose text a sibling keyword
    /// already has is refused, and the tree is left as it was.
    pub fn add_node(
        &mut self,
        parent: usize,
        name: Vec<char>,
        kind: NodeKind,
        action: Option<Action>,
        enters_mode: bool,
    ) -> (r: Option<usize>)
        requires
            old(self).wf(),
            parent < old(self).len(),
            old(self).len() < usize::MAX,
        ensures
            final(self).wf(),
            final(self).config_root == old(self).config_root,
            (r is None) <==> (is_keyword(kind) && exists|c: int|
                old(self).exact_match(parent as int, name@, c)),
            r is None ==> final(self).nodes@ == old(self).nodes@,
            r matches Some(i) ==> {
                &&& i == old(self).len()
                &&& final(self).len() == old(self).len() + 1
                &&& forall|j: int| 0 <= j < old(self).len() ==> final(self).node(j) == old(self).node(j)
                &&& final(self).node(i as int).name@ == name@
                &&& final(self).node(i as int).kind == kind
                &&& final(self).node(i as int).parent == parent
                &&& final(self).node(i as int).action == action
                &&& final(self).node(i as int).enters_mode == enters_mode
            },
    {
        let keyword = match kind {
            NodeKind::Keyword => true,
            NodeKind::Param(_) => false,
        };
        if keyword {
            let mut i: usize = 1;
            while i < self.nodes.len()
                invariant
                    *self == *old(self),
                    self.wf(),
                    is_keyword(kind),
                    parent < self.len(),
                    1 <= i <= self.len(),
                    forall|c: int| 0 <= c < i ==> !self.exact_match(parent as int, name@, c),
                decreases self.len() - i,
            {
                if i != self.config_root && self.nodes[i].parent == parent {
                    if let NodeKind::Keyword = self.nodes[i].kind {
                        if chars_eq(&self.nodes[i].name, &name) {
                            assert(is_keyword(kind));
                            assert(old(self).exact_match(parent as int, name@, i as int));
                            return None;
                        }
                    }
                }
                i = i + 1;
            }
        }
        let idx = self.nodes.len();
        let node = CommandNode { name, kind, parent, action, enters_mode };
        self.nodes.push(node);
        proof {
            assert(forall|j: int| 0 <= j < idx ==> self.node(j) == old(self).node(j));
            assert(is_keyword(kind) ==> forall|c: int| 0 <= c < idx ==> !old(self).exact_match(parent as int, name@, c));
            assert forall|a: int, b: int|
                0 < a < self.len() && 0 < b < self.len() && a != b && a != self.config_root && b
                    != self.config_root && self.node(a).parent == self.node(b).parent && is_keyword(
                    self.node(a).kind,
                ) && is_keyword(self.node(b).kind) implies self.node(a).name@ != self.node(
                b,
            ).name@ by {
                if a == idx {
                    assert(!old(self).exact_match(parent as int, name@, b));
                } else if b == idx {
                    assert(!old(self).exact_match(parent as int, name@, a));
                } else {
                    assert(old(self).node(a) == self.node(a));
                    assert(old(self).node(b) == self.node(b));
                }
            }
        }
        Some(idx)
    }
}

/// The outcome of matching one word against the children of a scope.
#[derive(Debug)]
pub enum WordMatch {
    /// A keyword child, by its whole text or a unique abbreviation.
    Keyword(usize),
    /// No keyword fits; the word goes to this parameter child.
    Param(usize),
    /// The word abbreviates all these keyword children (in tree order).
    Ambiguous(Vec<usize>),
    /// Nothing at this scope takes the word.
    NoMatch,
}

/// What matching `w` at `scope` yields.
pub open spec fn word_match_ok(t: &Commands, scope: int, w: Seq<char>, r: &WordMatch) -> bool {
    match r {
        WordMatch::Keyword(c) => {
            &&& t.prefix_match(scope, w, *c as int)
            &&& (t.exact_match(scope, w, *c as int) || forall|d: int|
                t.prefix_match(scope, w, d) ==> d == *c)
            &&& forall|d: int| t.exact_match(scope, w, d) ==> d == *c
        },
        WordMatch::Param(p) => {
            &&& t.is_param_child(scope, *p as int)
            &&& forall|d: int| 0 <= d < *p ==> !t.is_param_child(scope, d)
            &&& forall|d: int| !t.prefix_match(scope, w, d)
        },
        WordMatch::Ambiguous(v) => {
            &&& v@.len() >= 2
            &&& forall|d: int| !t.exact_match(scope, w, d)
            &&& forall|d: int|
                t.prefix_match(scope, w, d) <==> exists|a: int| 0 <= a < v@.len() && v@[a] == d
            &&& forall|a: int, b: int| 0 <= a < b < v@.len() ==> v@[a] < v@[b]
        },
        WordMatch::NoMatch => {
            &&& forall|d: int| !t.prefix_match(scope, w, d)
            &&& forall|d: int| !t.is_param_child(scope, d)
        },
    }
}

/// Matches one word against the children of `scope`: a keyword's whole text
/// wins; otherwise a unique abbreviation; otherwise the first parameter child.
/// Two or more abbreviated keywords make the word ambiguous.
pub fn match_word(t: &Commands, scope: usize, w: &Vec<char>) -> (r: WordMatch)
    requires
        t.wf(),
    ensures
        word_match_ok(t, scope as int, w@, &r),
{
    let mut cands: Vec<usize> = Vec::new();
    let mut param: Option<usize> = None;
    let mut i: usize = 1;
    while i < t.nodes.len()
        invariant
            t.wf(),
            1 <= i <= t.len(),
            forall|d: int| 0 <= d < i ==> !t.exact_match(scope as int, w@, d),
            forall|d: int|
                (0 <= d < i && t.prefix_match(scope as int, w@, d)) <==> exists|a: int|
                    0 <= a < cands@.len() && cands@[a] == d,
            forall|a: int| 0 <= a < cands@.len() ==> 0 < #[trigger] cands@[a] < i,
            forall|a: int, b: int| 0 <= a < b < cands@.len() ==> cands@[a] < cands@[b],
            match param {
                Some(p) => 0 < p < i && t.is_param_child(scope as int, p as int) && forall|d: int|
                    0 <= d < p ==> !t.is_param_child(scope as int, d),
                None => forall|d: int| 0 <= d < i ==> !t.is_param_child(scope as int, d),
            },
        decreases t.len() - i,
    {
        let ghost old_c = cands@;
        if i != t.config_root && t.nodes[i].parent == scope {
            match t.nodes[i].kind {
                NodeKind::Keyword => {
                    if chars_eq(&t.nodes[i].name, w) {
                        proof {
                            assert forall|d: int| t.exact_match(scope as int, w@, d) implies d
                                == i by {
                                if d != i {
                                    assert(t.node(d).name@ != t.node(i as int).name@);
                                }
                            }
                            assert(t.node(i as int).name@.subrange(0, w@.len() as int)
                                =~= t.node(i as int).name@);
                        }
                        return WordMatch::Keyword(i);
                    }
                    if starts_with(w, &t.nodes[i].name) {
                        cands.push(i);
                    }
                },
                NodeKind::Param(_) => {
                    if param.is_none() {
                        param = Some(i);
                    }
                },
            }
        }
        proof {
            assert forall|d: int|
                (0 <= d < i + 1 && t.prefix_match(scope as int, w@, d)) <==> exists|a: int|
                    0 <= a < cands@.len() && cands@[a] == d by {
                if d == i && t.prefix_match(scope as int, w@, d) {
                    assert(cands@[cands@.len() - 1] == d);
                }
                if d < i && t.prefix_match(scope as int, w@, d) {
                    let a = choose|a: int| 0 <= a < old_c.len() && old_c[a] == d;
                    assert(cands@[a] == d);
                }
                if exists|a: int| 0 <= a < cands@.len() && cands@[a] == d {
                    let a = choose|a: int| 0 <= a < cands@.len() && cands@[a] == d;
                    if a < old_c.len() {
                        assert(old_c[a] == d);
                    }
                }
            }
        }
        i = i + 1;
    }
    if cands.len() == 0 {
        match param {
            Some(p) => WordMatch::Param(p),
            None => WordMatch::NoMatch,
        }
    } else if cands.len() == 1 {
        let c = cands[0];
        proof {
            assert(cands@[0] == c);
            assert forall|d: int| t.prefix_match(scope as int, w@, d) implies d == c by {
                let a = choose|a: int| 0 <= a < cands@.len() && cands@[a] == d;
            }
        }
        WordMatch::Keyword(c)
    } else {
        WordMatch::Ambiguous(cands)
    }
}

} // verus!
