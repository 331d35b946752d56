use vstd::prelude::*;

use crate::text::{is_prefix_of, is_space, is_space_char, chars_eq};
use crate::token::{match_word, word_match_ok, Action, Commands, NodeKind, ParamType, WordMatch};

verus! {

pub open spec fn is_digit(c: char) -> bool {
    '0' <= c && c <= '9'
}

pub open spec fn all_digits(s: Seq<char>) -> bool {
    forall|i: int| 0 <= i < s.len() ==> is_digit(#[trigger] s[i])
}

/// The value of a string of decimal digits.
pub open spec fn digits_value(s: Seq<char>) -> int
    decreases s.len(),
{
    if s.len() == 0 {
        0
    } else {
        digits_value(s.drop_last()) * 10 + (s.last() as int - '0' as int)
    }
}

pub open spec fn word_true() -> Seq<char> {
    seq!['t', 'r', 'u', 'e']
}

pub open spec fn word_false() -> Seq<char> {
    seq!['f', 'a', 'l', 's', 'e']
}

/// Reading an IPv4 address from position `i`, with `dots` dots seen and a
/// current group of `digits` digits worth `val`: four groups of one to
/// three digits, each at most 255, separated by dots.
pub open spec fn ipv4_from(w: Seq<char>, i: int, dots: int, digits: int, val: int) -> bool
    decreases w.len() - i,
{
    if i >= w.len() {
        dots == 3 && digits > 0
    } else if is_digit(w[i]) {
        let v = val * 10 + (w[i] as int - '0' as int);
        digits < 3 && v <= 255 && ipv4_from(w, i + 1, dots, digits + 1, v)
    } else if w[i] == '.' {
        digits > 0 && dots < 3 && ipv4_from(w, i + 1, dots + 1, 0, 0)
    } else {
        false
    }
}

pub open spec fn ipv4_valid(w: Seq<char>) -> bool {
    ipv4_from(w, 0, 0, 0, 0)
}

/// Checks the syntax of an IPv4 address.
fn ipv4_valid_exec(w: &Vec<char>) -> (r: bool)
    ensures
        r == ipv4_valid(w@),
{
    let mut i: usize = 0;
    let mut dots: u32 = 0;
    let mut digits: u32 = 0;
    let mut val: u32 = 0;
    while i < w.len()
        invariant
            0 <= i <= w@.len(),
            dots <= 3,
            digits <= 3,
            val <= 255,
            ipv4_valid(w@) == ipv4_from(w@, i as int, dots as int, digits as int, val as int),
        decreases w@.len() - i,
    {
        let c = w[i];
        if '0' <= c && c <= '9' {
            let d = (c as u32 - '0' as u32);
            if digits >= 3 || val * 10 + d > 255 {
                return false;
            }
            val = val * 10 + d;
            digits = digits + 1;
        } else if c == '.' {
            if digits == 0 || dots >= 3 {
                return false;
            }
            dots = dots + 1;
            digits = 0;
            val = 0;
        } else {
            return false;
        }
        i = i + 1;
    }
    dots == 3 && digits > 0
}

/// Whether `w` is a valid value for a parameter of type `pt`.
pub open spec fn arg_valid(pt: ParamType, w: Seq<char>) -> bool {
    match pt {
        ParamType::Text => w.len() > 0,
        ParamType::Number { min, max } => w.len() > 0 && all_digits(w) && min <= digits_value(w)
            <= max,
        ParamType::Signed { min, max } => if w.len() > 0 && w[0] == '-' {
            w.len() > 1 && all_digits(w.drop_first()) && min <= -digits_value(w.drop_first()) <= max
        } else {
            w.len() > 0 && all_digits(w) && min <= digits_value(w) <= max
        },
        ParamType::Boolean => w == word_true() || w == word_false(),
        ParamType::Ipv4Address => ipv4_valid(w),
    }
}

proof fn lemma_digits_prefix_grows(s: Seq<char>, k: int)
    requires
        all_digits(s),
        0 <= k <= s.len(),
    ensures
        0 <= digits_value(s.subrange(0, k)) <= digits_value(s),
    decreases s.len() - k,
{
    if k < s.len() {
        lemma_digits_prefix_grows(s, k + 1);
        let p = s.subrange(0, k + 1);
        assert(p.drop_last() =~= s.subrange(0, k));
        assert(p.last() == s[k]);
    } else {
        assert(s.subrange(0, k) =~= s);
        lemma_digits_nonneg(s);
    }
}

proof fn lemma_digits_nonneg(s: Seq<char>)
    requires
        all_digits(s),
    ensures
        digits_value(s) >= 0,
    decreases s.len(),
{
    if s.len() > 0 {
        assert(all_digits(s.drop_last())) by {
            assert forall|i: int| 0 <= i < s.drop_last().len() implies is_digit(
                #[trigger] s.drop_last()[i],
            ) by {
                assert(s.drop_last()[i] == s[i]);
            }
        }
        lemma_digits_nonneg(s.drop_last());
        assert(is_digit(s[s.len() - 1]));
    }
}

/// Checks a decimal number against the range `min..=max`.
fn number_valid(w: &Vec<char>, min: u64, max: u64) -> (r: bool)
    ensures
        r == (w@.len() > 0 && all_digits(w@) && min <= digits_value(w@) <= max),
{
    if w.len() == 0 {
        return false;
    }
    let mut acc: u64 = 0;
    let mut over = false;
    let mut i: usize = 0;
    while i < w.len()
        invariant
            0 <= i <= w@.len(),
            forall|j: int| 0 <= j < i ==> is_digit(#[trigger] w@[j]),
            !over ==> acc as int == digits_value(w@.subrange(0, i as int)),
            over ==> digits_value(w@.subrange(0, i as int)) > max,
        decreases w@.len() - i,
    {
        let c = w[i];
        if !('0' <= c && c <= '9') {
            return false;
        }
        proof {
            let p = w@.subrange(0, i + 1);
            assert(p.drop_last() =~= w@.subrange(0, i as int));
            assert(p.last() == c);
            assert(all_digits(w@.subrange(0, i as int))) by {
                assert forall|j: int| 0 <= j < i implies is_digit(#[trigger] w@.subrange(0, i as int)[j]) by {
                    assert(w@.subrange(0, i as int)[j] == w@[j]);
                }
            }
            lemma_digits_nonneg(w@.subrange(0, i as int));
        }
        if !over {
            let d = (c as u32 - '0' as u32) as u64;
            if d > max || acc > (max - d) / 10 {
                over = true;
            } else {
                acc = acc * 10 + d;
            }
        }
        i = i + 1;
    }
    assert(w@.subrange(0, w@.len() as int) =~= w@);
    if over {
        false
    } else {
        min <= acc && acc <= max
    }
}

/// Validates one word against a parameter type.
pub fn arg_valid_exec(pt: ParamType, w: &Vec<char>) -> (r: bool)
    ensures
        r == arg_valid(pt, w@),
{
    match pt {
        ParamType::Text => w.len() > 0,
        ParamType::Number { min, max } => number_valid(w, min, max),
        ParamType::Signed { min, max } => {
            if w.len() > 0 && w[0] == '-' {
                let rest = crate::text::slice_chars(w, 1, w.len());
                assert(rest@ =~= w@.drop_first());
                // -digits in min..=max, that is digits in -max..=-min.
                let hi: i128 = -(min as i128);
                let lo: i128 = if max >= 0 { 0 } else { -(max as i128) };
                if hi < 0 || rest.len() == 0 {
                    proof {
                        if rest@.len() > 0 && all_digits(rest@) {
                            lemma_digits_nonneg(rest@);
                        }
                    }
                    false
                } else {
                    let r = number_valid(&rest, lo as u64, hi as u64);
                    proof {
                        if rest@.len() > 0 && all_digits(rest@) {
                            lemma_digits_nonneg(rest@);
                        }
                        assert(w@[0] == '-');
                        assert(r == (rest@.len() > 0 && all_digits(rest@) && lo <= digits_value(rest@) <= hi));
                    }
                    r
                }
            } else if min > 0 || max >= 0 {
                let lo: u64 = if min >= 0 { min as u64 } else { 0 };
                let hi: u64 = if max >= 0 { max as u64 } else { 0 };
                proof {
                    if w@.len() > 0 && all_digits(w@) {
                        lemma_digits_nonneg(w@);
                    }
                }
                let r = number_valid(w, lo, hi);
                assert(w@.len() > 0 ==> w@[0] != '-');
                r
            } else {
                proof {
                    if w@.len() > 0 && all_digits(w@) {
                        lemma_digits_nonneg(w@);
                    }
                }
                false
            }
        },
        ParamType::Ipv4Address => ipv4_valid_exec(w),
        ParamType::Boolean => {
            let t = vec!['t', 'r', 'u', 'e'];
            let f = vec!['f', 'a', 'l', 's', 'e'];
            assert(t@ =~= word_true());
            assert(f@ =~= word_false());
            chars_eq(w, &t) || chars_eq(w, &f)
        },
    }
}


/// The outcome of matching one word at a scope, as a function of the tree.
pub enum MatchSpec {
    Keyword(int),
    Param(int),
    Ambiguous(Set<int>),
    NoMatch,
}

pub open spec fn is_first_param(t: Commands, scope: int, p: int) -> bool {
    t.is_param_child(scope, p) && forall|d: int| 0 <= d < p ==> !t.is_param_child(scope, d)
}

pub open spec fn unique_prefix(t: Commands, scope: int, w: Seq<char>, c: int) -> bool {
    t.prefix_match(scope, w, c) && forall|d: int| t.prefix_match(scope, w, d) ==> d == c
}

/// Word matching: a keyword's whole text wins, then a unique abbreviation;
/// several abbreviated keywords are ambiguous; with none, the first
/// parameter child takes the word.
pub open spec fn spec_match(t: Commands, scope: int, w: Seq<char>) -> MatchSpec {
    if exists|c: int| t.exact_match(scope, w, c) {
        MatchSpec::Keyword(choose|c: int| t.exact_match(scope, w, c))
    } else if exists|c: int| unique_prefix(t, scope, w, c) {
        MatchSpec::Keyword(choose|c: int| unique_prefix(t, scope, w, c))
    } else if exists|c: int| t.prefix_match(scope, w, c) {
        MatchSpec::Ambiguous(Set::new(|d: int| t.prefix_match(scope, w, d)))
    } else if exists|p: int| is_first_param(t, scope, p) {
        MatchSpec::Param(choose|p: int| is_first_param(t, scope, p))
    } else {
        MatchSpec::NoMatch
    }
}

pub open spec fn seq_as_set(v: Seq<usize>) -> Set<int> {
    Set::new(|d: int| exists|a: int| 0 <= a < v.len() && v[a] == d)
}

pub open spec fn word_match_view(r: &WordMatch) -> MatchSpec {
    match r {
        WordMatch::Keyword(c) => MatchSpec::Keyword(*c as int),
        WordMatch::Param(p) => MatchSpec::Param(*p as int),
        WordMatch::Ambiguous(v) => MatchSpec::Ambiguous(seq_as_set(v@)),
        WordMatch::NoMatch => MatchSpec::NoMatch,
    }
}

proof fn lemma_exact_is_prefix(t: &Commands, scope: int, w: Seq<char>)
    ensures
        forall|c: int| t.exact_match(scope, w, c) ==> t.prefix_match(scope, w, c),
{
    assert forall|c: int| t.exact_match(scope, w, c) implies t.prefix_match(scope, w, c) by {
        assert(t.node(c).name@.subrange(0, w.len() as int) =~= t.node(c).name@);
    }
}

proof fn lemma_word_match_exact(t: &Commands, scope: int, w: Seq<char>, r: &WordMatch)
    requires
        t.wf(),
        word_match_ok(t, scope, w, r),
    ensures
        word_match_view(r) == spec_match(*t, scope, w),
{
    lemma_exact_is_prefix(t, scope, w);
    match r {
        WordMatch::Keyword(c) => {
            let c = *c as int;
            assert(word_match_view(r) == MatchSpec::Keyword(c));
            if t.exact_match(scope, w, c) {
                let c2 = choose|c2: int| t.exact_match(scope, w, c2);
                assert(c2 == c);
                assert(spec_match(*t, scope, w) == MatchSpec::Keyword(c));
            } else {
                assert(!exists|d: int| t.exact_match(scope, w, d));
                assert(unique_prefix(*t, scope, w, c));
                let c2 = choose|c2: int| unique_prefix(*t, scope, w, c2);
                assert(t.prefix_match(scope, w, c2));
                assert(c2 == c);
                assert(spec_match(*t, scope, w) == MatchSpec::Keyword(c));
            }
        },
        WordMatch::Param(p) => {
            assert(is_first_param(*t, scope, *p as int));
            assert forall|q: int| is_first_param(*t, scope, q) implies q == *p by {
                if q < *p {
                    assert(!t.is_param_child(scope, q));
                } else if q > *p {
                    assert(!t.is_param_child(scope, *p as int));
                }
            }
            assert(word_match_view(r) == spec_match(*t, scope, w));
        },
        WordMatch::Ambiguous(v) => {
            let a0 = v@[0] as int;
            let a1 = v@[1] as int;
            assert(t.prefix_match(scope, w, a0));
            assert(t.prefix_match(scope, w, a1));
            assert(!exists|c: int| unique_prefix(*t, scope, w, c));
            assert(Set::new(|d: int| t.prefix_match(scope, w, d)) =~= seq_as_set(v@));
            assert(word_match_view(r) == spec_match(*t, scope, w));
        },
        WordMatch::NoMatch => {
            assert(!exists|p: int| is_first_param(*t, scope, p));
            assert(!exists|c: int| t.prefix_match(scope, w, c));
            assert(!exists|c: int| unique_prefix(*t, scope, w, c));
            assert(!exists|c: int| t.exact_match(scope, w, c));
            assert(word_match_view(r) == spec_match(*t, scope, w));
        },
    }
}

/// Why a line does not parse.
pub enum ParseFailure {
    Unknown(Seq<char>),
    Ambiguous(Seq<char>, Set<int>),
    Incomplete,
    Trailing(Seq<char>),
    Invalid(int, Seq<char>),
    IllegalNegation(int),
}

/// A parse error, naming the offending word, parameter or node.
#[derive(Debug)]
pub enum ParseError {
    /// No command at this point starts with the word.
    UnknownToken(Vec<char>),
    /// The word abbreviates each of these keyword nodes.
    AmbiguousToken(Vec<char>, Vec<usize>),
    /// The line ends before a complete command.
    IncompleteCommand,
    /// Words remain after a complete command that takes no more.
    TrailingInput(Vec<char>),
    /// The parameter node does not accept the word.
    InvalidArgument(usize, Vec<char>),
    /// The negated command at this node does not edit the configuration.
    IllegalNegation(usize),
}

impl ParseError {
    pub open spec fn view(&self) -> ParseFailure {
        match self {
            ParseError::UnknownToken(w) => ParseFailure::Unknown(w@),
            ParseError::AmbiguousToken(w, v) => ParseFailure::Ambiguous(w@, seq_as_set(v@)),
            ParseError::IncompleteCommand => ParseFailure::Incomplete,
            ParseError::TrailingInput(w) => ParseFailure::Trailing(w@),
            ParseError::InvalidArgument(p, w) => ParseFailure::Invalid(*p as int, w@),
            ParseError::IllegalNegation(n) => ParseFailure::IllegalNegation(*n as int),
        }
    }
}

pub open spec fn param_type(t: Commands, p: int) -> ParamType {
    match t.node(p).kind {
        NodeKind::Param(pt) => pt,
        NodeKind::Keyword => ParamType::Text,
    }
}

/// Word-by-word descent from `node`, with `words[i..]` left to match and
/// `args` captured so far.
pub open spec fn descend(
    t: Commands,
    node: int,
    words: Seq<Seq<char>>,
    i: int,
    args: Seq<Seq<char>>,
) -> Result<(int, Seq<Seq<char>>), ParseFailure>
    decreases words.len() - i,
{
    if i >= words.len() {
        if t.node(node).action is None && t.has_children(node) {
            Err(ParseFailure::Incomplete)
        } else {
            Ok((node, args))
        }
    } else {
        let w = words[i];
        match spec_match(t, node, w) {
            MatchSpec::Keyword(c) => descend(t, c, words, i + 1, args),
            MatchSpec::Param(p) => if arg_valid(param_type(t, p), w) {
                descend(t, p, words, i + 1, args.push(w))
            } else {
                Err(ParseFailure::Invalid(p, w))
            },
            MatchSpec::Ambiguous(cands) => Err(ParseFailure::Ambiguous(w, cands)),
            MatchSpec::NoMatch => if t.has_children(node) {
                Err(ParseFailure::Unknown(w))
            } else {
                Err(ParseFailure::Trailing(w))
            },
        }
    }
}

pub open spec fn word_no() -> Seq<char> {
    seq!['n', 'o']
}

pub open spec fn is_config_edit(a: Option<Action>) -> bool {
    a matches Some(Action::ConfigEdit(_))
}

/// What parsing `words` at `scope` yields: the matched node, whether the
/// command was negated, and the captured arguments.
pub open spec fn parse_spec(t: Commands, scope: int, words: Seq<Seq<char>>) -> Result<
    (int, bool, Seq<Seq<char>>),
    ParseFailure,
> {
    let neg = words.len() > 0 && words[0] == word_no();
    let start: int = if neg {
        1
    } else {
        0
    };
    match descend(t, scope, words, start, seq![]) {
        Ok((n, args)) => if neg && !is_config_edit(t.node(n).action) {
            Err(ParseFailure::IllegalNegation(n))
        } else {
            Ok((n, neg, args))
        },
        Err(e) => Err(e),
    }
}

/// Whether node `n` has a child.
pub fn has_children_exec(t: &Commands, n: usize) -> (r: bool)
    requires
        t.wf(),
    ensures
        r == t.has_children(n as int),
{
    let mut i: usize = 1;
    while i < t.nodes.len()
        invariant
            1 <= i <= t.len(),
            forall|c: int| 0 <= c < i ==> !t.is_child(n as int, c),
        decreases t.len() - i,
    {
        if i != t.config_root && t.nodes[i].parent == n {
            assert(t.is_child(n as int, i as int));
            return true;
        }
        i = i + 1;
    }
    false
}

/// The words held by a vector of words.
pub open spec fn words_of(v: &Vec<Vec<char>>) -> Seq<Seq<char>> {
    v@.map_values(|w: Vec<char>| w@)
}

/// A copy of a word.
pub fn copy_word(w: &Vec<char>) -> (r: Vec<char>)
    ensures
        r@ == w@,
{
    let r = crate::text::slice_chars(w, 0, w.len());
    assert(r@ =~= w@);
    r
}

/// A copy of a list of words.
pub fn copy_words(v: &Vec<Vec<char>>) -> (r: Vec<Vec<char>>)
    ensures
        words_of(&r) == words_of(v),
{
    let mut r: Vec<Vec<char>> = Vec::new();
    let mut i: usize = 0;
    while i < v.len()
        invariant
            0 <= i <= v@.len(),
            words_of(&r) == words_of(v).subrange(0, i as int),
        decreases v@.len() - i,
    {
        let w = copy_word(&v[i]);
        let ghost before = words_of(&r);
        r.push(w);
        assert(words_of(&r) =~= before.push(w@));
        i = i + 1;
        assert(words_of(&r) =~= words_of(v).subrange(0, i as int));
    }
    assert(words_of(v).subrange(0, v@.len() as int) =~= words_of(v));
    r
}

/// Splitting a line into words from position `i`: `cur` is the word being
/// read, `quoted` whether a quote is open, `started` whether a word is in
/// progress, and `acc` the words already complete. White space separates
/// words; a quoted substring belongs to one word, white space included.
pub open spec fn split_from(
    s: Seq<char>,
    i: int,
    cur: Seq<char>,
    quoted: bool,
    started: bool,
    acc: Seq<Seq<char>>,
) -> Seq<Seq<char>>
    decreases s.len() - i,
{
    if i >= s.len() {
        if started {
            acc.push(cur)
        } else {
            acc
        }
    } else {
        let c = s[i];
        if quoted {
            if c == '"' {
                split_from(s, i + 1, cur, false, true, acc)
            } else {
                split_from(s, i + 1, cur.push(c), true, true, acc)
            }
        } else if is_space(c) {
            if started {
                split_from(s, i + 1, Seq::empty(), false, false, acc.push(cur))
            } else {
                split_from(s, i + 1, cur, false, false, acc)
            }
        } else if c == '"' {
            split_from(s, i + 1, cur, true, true, acc)
        } else {
            split_from(s, i + 1, cur.push(c), false, true, acc)
        }
    }
}

pub open spec fn split_spec(s: Seq<char>) -> Seq<Seq<char>> {
    split_from(s, 0, Seq::empty(), false, false, Seq::empty())
}

/// Splits a line into words, keeping a quoted substring as one word.
pub fn split_words(line: &Vec<char>) -> (r: Vec<Vec<char>>)
    ensures
        words_of(&r) == split_spec(line@),
{
    let mut acc: Vec<Vec<char>> = Vec::new();
    let mut cur: Vec<char> = Vec::new();
    let mut quoted = false;
    let mut started = false;
    let mut i: usize = 0;
    assert(words_of(&acc) =~= Seq::<Seq<char>>::empty());
    assert(cur@ =~= Seq::<char>::empty());
    while i < line.len()
        invariant
            0 <= i <= line@.len(),
            split_spec(line@) == split_from(line@, i as int, cur@, quoted, started, words_of(&acc)),
        decreases line@.len() - i,
    {
        let c = line[i];
        if quoted {
            if c == '"' {
                quoted = false;
            } else {
                cur.push(c);
            }
            started = true;
        } else if is_space_char(c) {
            if started {
                let ghost before = words_of(&acc);
                acc.push(cur);
                assert(words_of(&acc) =~= before.push(cur@));
                cur = Vec::new();
                assert(cur@ =~= Seq::<char>::empty());
                started = false;
            }
        } else if c == '"' {
            quoted = true;
            started = true;
        } else {
            cur.push(c);
            started = true;
        }
        i = i + 1;
    }
    if started {
        let ghost before = words_of(&acc);
        acc.push(cur);
        assert(words_of(&acc) =~= before.push(cur@));
    }
    acc
}

/// A successfully matched command.
#[derive(Debug)]
pub struct ParsedCommand {
    /// The matched terminal node.
    pub token_id: usize,
    /// Whether the line began with the negation keyword.
    pub negate: bool,
    /// One value per positional parameter along the matched path.
    pub args: Vec<Vec<char>>,
}

pub open spec fn parse_view(r: &Result<ParsedCommand, ParseError>) -> Result<
    (int, bool, Seq<Seq<char>>),
    ParseFailure,
> {
    match r {
        Ok(pc) => Ok((pc.token_id as int, pc.negate, words_of(&pc.args))),
        Err(e) => Err(e.view()),
    }
}

/// Parses the words of a normalized line at `scope`.
pub fn parse_command(t: &Commands, scope: usize, line: &Vec<char>) -> (r: Result<ParsedCommand, ParseError>)
    requires
        t.wf(),
        scope < t.len(),
    ensures
        parse_view(&r) == parse_spec(*t, scope as int, split_spec(line@)),
        r matches Ok(pc) ==> pc.token_id < t.len(),
{
    let words = split_words(line);
    let ghost ws = words_of(&words);
    let no = vec!['n', 'o'];
    assert(no@ =~= word_no());
    let negate = words.len() > 0 && chars_eq(&words[0], &no);
    let mut i: usize = if negate {
        1
    } else {
        0
    };
    let ghost start = i as int;
    proof {
        if words@.len() > 0 {
            assert(ws[0] == words@[0]@);
        }
        assert(negate == (ws.len() > 0 && ws[0] == word_no()));
    }
    let mut node = scope;
    let mut args: Vec<Vec<char>> = Vec::new();
    assert(words_of(&args) =~= Seq::<Seq<char>>::empty());
    while i < words.len()
        invariant
            t.wf(),
            node < t.len(),
            i <= words@.len(),
            ws == words_of(&words),
            ws == split_spec(line@),
            negate == (ws.len() > 0 && ws[0] == word_no()),
            start == (if negate {
                1int
            } else {
                0int
            }),
            descend(*t, scope as int, ws, start, seq![]) == descend(
                *t,
                node as int,
                ws,
                i as int,
                words_of(&args),
            ),
        decreases words@.len() - i,
    {
        let m = match_word(t, node, &words[i]);
        proof {
            lemma_word_match_exact(t, node as int, words@[i as int]@, &m);
            assert(ws[i as int] == words@[i as int]@);
            assert(spec_match(*t, node as int, ws[i as int]) == word_match_view(&m));
        }
        match m {
            WordMatch::Keyword(c) => {
                node = c;
            },
            WordMatch::Param(p) => {
                let pt = match t.nodes[p].kind {
                    NodeKind::Param(pt) => pt,
                    NodeKind::Keyword => ParamType::Text,
                };
                assert(pt == param_type(*t, p as int));
                if !arg_valid_exec(pt, &words[i]) {
                    assert(descend(*t, node as int, ws, i as int, words_of(&args)) == Err::<(int, Seq<Seq<char>>), ParseFailure>(ParseFailure::Invalid(p as int, ws[i as int])));
                    let e = ParseError::InvalidArgument(p, copy_word(&words[i]));
                    assert(e.view() == ParseFailure::Invalid(p as int, ws[i as int]));
                    return Err(e);
                }
                let ghost before = words_of(&args);
                args.push(copy_word(&words[i]));
                assert(words_of(&args) =~= before.push(ws[i as int]));
                node = p;
            },
            WordMatch::Ambiguous(v) => {
                assert(descend(*t, node as int, ws, i as int, words_of(&args)) == Err::<(int, Seq<Seq<char>>), ParseFailure>(ParseFailure::Ambiguous(ws[i as int], seq_as_set(v@))));
                let e = ParseError::AmbiguousToken(copy_word(&words[i]), v);
                assert(e.view() == ParseFailure::Ambiguous(ws[i as int], seq_as_set(v@)));
                return Err(e);
            },
            WordMatch::NoMatch => {
                if has_children_exec(t, node) {
                    return Err(ParseError::UnknownToken(copy_word(&words[i])));
                } else {
                    return Err(ParseError::TrailingInput(copy_word(&words[i])));
                }
            },
        }
        i = i + 1;
    }
    if t.nodes[node].action.is_none() && has_children_exec(t, node) {
        return Err(ParseError::IncompleteCommand);
    }
    if negate {
        let edit = match t.nodes[node].action {
            Some(Action::ConfigEdit(_)) => true,
            _ => false,
        };
        if !edit {
            return Err(ParseError::IllegalNegation(node));
        }
    }
    Ok(ParsedCommand { token_id: node, negate, args })
}


/// In any scope, a word that abbreviates exactly one keyword selects that
/// keyword; a word that abbreviates two or more keywords, none of them in
/// full, is ambiguous, and the error names every keyword it abbreviates.
pub proof fn lemma_abbreviation_uniqueness(t: Commands, scope: int, w: Seq<char>)
    ensures
        forall|c: int| unique_prefix(t, scope, w, c) ==> spec_match(t, scope, w) == MatchSpec::Keyword(c),
        forall|a: int, b: int|
            a != b && t.prefix_match(scope, w, a) && t.prefix_match(scope, w, b) && (forall|d: int|
                !t.exact_match(scope, w, d)) ==> spec_match(t, scope, w) == MatchSpec::Ambiguous(
                Set::new(|d: int| t.prefix_match(scope, w, d)),
            ),
{
    lemma_exact_is_prefix(&t, scope, w);
    assert forall|c: int| unique_prefix(t, scope, w, c) implies spec_match(t, scope, w)
        == MatchSpec::Keyword(c) by {
        if exists|e: int| t.exact_match(scope, w, e) {
            let e = choose|e: int| t.exact_match(scope, w, e);
            assert(t.prefix_match(scope, w, e));
        } else {
            let u = choose|u: int| unique_prefix(t, scope, w, u);
            assert(u == c);
        }
    }
    assert forall|a: int, b: int|
        a != b && t.prefix_match(scope, w, a) && t.prefix_match(scope, w, b) && (forall|d: int|
            !t.exact_match(scope, w, d)) implies spec_match(t, scope, w) == MatchSpec::Ambiguous(
        Set::new(|d: int| t.prefix_match(scope, w, d)),
    ) by {
        assert(!exists|c: int| unique_prefix(t, scope, w, c));
    }
}

/// A negated command parses only when its node edits the configuration;
/// negating any other node is an error naming that node.
pub proof fn lemma_negation_restricted(t: Commands, scope: int, words: Seq<Seq<char>>)
    ensures
        forall|n: int, args: Seq<Seq<char>>|
            parse_spec(t, scope, words) == Ok::<(int, bool, Seq<Seq<char>>), ParseFailure>((n, true, args))
                ==> is_config_edit(t.node(n).action),
        forall|n: int, args: Seq<Seq<char>>|
            words.len() > 0 && words[0] == word_no() && descend(t, scope, words, 1, seq![]) == Ok::<
                (int, Seq<Seq<char>>),
                ParseFailure,
            >((n, args)) && !is_config_edit(t.node(n).action) ==> parse_spec(t, scope, words)
                == Err::<(int, bool, Seq<Seq<char>>), ParseFailure>(ParseFailure::IllegalNegation(n)),
{
}


/// The node that the descent from `node` stands on when it reaches word
/// `j`, if it gets that far.
pub open spec fn reached(t: Commands, node: int, words: Seq<Seq<char>>, i: int, j: int) -> Option<int>
    decreases j - i,
{
    if i >= j {
        Some(node)
    } else if i >= words.len() {
        None
    } else {
        match spec_match(t, node, words[i]) {
            MatchSpec::Keyword(c) => reached(t, c, words, i + 1, j),
            MatchSpec::Param(p) => if arg_valid(param_type(t, p), words[i]) {
                reached(t, p, words, i + 1, j)
            } else {
                None
            },
            _ => None,
        }
    }
}

proof fn lemma_descend_tail(
    t: Commands,
    n: int,
    ws: Seq<Seq<char>>,
    ws2: Seq<Seq<char>>,
    i: int,
    args: Seq<Seq<char>>,
)
    requires
        ws.len() == ws2.len(),
        0 <= i,
        forall|k: int| i <= k < ws.len() ==> ws[k] == ws2[k],
    ensures
        descend(t, n, ws, i, args) == descend(t, n, ws2, i, args),
    decreases ws.len() - i,
{
    if i < ws.len() {
        assert(ws[i] == ws2[i]);
        match spec_match(t, n, ws[i]) {
            MatchSpec::Keyword(c) => lemma_descend_tail(t, c, ws, ws2, i + 1, args),
            MatchSpec::Param(p) => lemma_descend_tail(t, p, ws, ws2, i + 1, args.push(ws[i])),
            _ => {},
        }
    }
}

/// A unique abbreviation of a keyword matches as the keyword's full text does.
proof fn lemma_abbreviation_same_match(t: Commands, scope: int, w: Seq<char>, c: int)
    requires
        t.wf(),
        unique_prefix(t, scope, w, c),
    ensures
        spec_match(t, scope, w) == MatchSpec::Keyword(c),
        spec_match(t, scope, t.node(c).name@) == MatchSpec::Keyword(c),
{
    lemma_abbreviation_uniqueness(t, scope, w);
    let full = t.node(c).name@;
    assert(t.exact_match(scope, full, c));
    let e = choose|e: int| t.exact_match(scope, full, e);
    if e != c {
        assert(t.node(e).name@ != t.node(c).name@);
    }
}

proof fn lemma_descend_abbreviation(
    t: Commands,
    node: int,
    ws: Seq<Seq<char>>,
    i: int,
    args: Seq<Seq<char>>,
    j: int,
    c: int,
)
    requires
        t.wf(),
        0 <= i <= j < ws.len(),
        reached(t, node, ws, i, j) matches Some(n) && unique_prefix(t, n, ws[j], c),
    ensures
        descend(t, node, ws, i, args) == descend(t, node, ws.update(j, t.node(c).name@), i, args),
    decreases j - i,
{
    let ws2 = ws.update(j, t.node(c).name@);
    if i < j {
        assert(ws2[i] == ws[i]);
        match spec_match(t, node, ws[i]) {
            MatchSpec::Keyword(d) => lemma_descend_abbreviation(t, d, ws, i + 1, args, j, c),
            MatchSpec::Param(p) => {
                if arg_valid(param_type(t, p), ws[i]) {
                    lemma_descend_abbreviation(t, p, ws, i + 1, args.push(ws[i]), j, c);
                }
            },
            _ => {},
        }
    } else {
        lemma_abbreviation_same_match(t, node, ws[j], c);
        assert(ws2[j] == t.node(c).name@);
        lemma_descend_tail(t, c, ws, ws2, j + 1, args);
    }
}

/// Writing a keyword in full in place of a unique abbreviation of it
/// changes nothing: wherever the descent meets a word that abbreviates
/// exactly one keyword of the scope it stands on, the line parses as the
/// line with that keyword written out. (A first word that reads `no` is
/// the negation word, not an abbreviation.)
pub proof fn lemma_abbreviation_in_line(t: Commands, scope: int, ws: Seq<Seq<char>>, j: int, c: int)
    requires
        t.wf(),
        0 <= j < ws.len(),
        j == 0 ==> ws[0] != word_no() && t.node(c).name@ != word_no(),
        reached(t, scope, ws, if ws[0] == word_no() { 1 } else { 0 }, j) matches Some(n) && unique_prefix(
            t,
            n,
            ws[j],
            c,
        ),
    ensures
        parse_spec(t, scope, ws) == parse_spec(t, scope, ws.update(j, t.node(c).name@)),
{
    let ws2 = ws.update(j, t.node(c).name@);
    let start: int = if ws[0] == word_no() { 1 } else { 0 };
    if j > 0 {
        assert(ws2[0] == ws[0]);
    }
    assert((ws2[0] == word_no()) == (ws[0] == word_no()));
    lemma_descend_abbreviation(t, scope, ws, start, seq![], j, c);
}

} // verus!
