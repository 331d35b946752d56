use vstd::prelude::*;
use vstd::string::StrSliceExecFns;

verus! {

/// Is `p` a prefix of `s`?
pub open spec fn is_prefix_of(p: Seq<char>, s: Seq<char>) -> bool {
    p.len() <= s.len() && s.subrange(0, p.len() as int) == p
}

pub open spec fn is_space(c: char) -> bool {
    c == ' ' || c == '\t' || c == '\n' || c == '\r'
}

pub open spec fn is_comment_start(c: char) -> bool {
    c == '!' || c == '#'
}

/// The line up to (not including) its first comment character.
pub open spec fn strip_comment(s: Seq<char>) -> Seq<char>
    decreases s.len(),
{
    if s.len() == 0 {
        s
    } else if is_comment_start(s[0]) {
        Seq::empty()
    } else {
        seq![s[0]] + strip_comment(s.drop_first())
    }
}

pub open spec fn trim_start(s: Seq<char>) -> Seq<char>
    decreases s.len(),
{
    if s.len() > 0 && is_space(s[0]) {
        trim_start(s.drop_first())
    } else {
        s
    }
}

pub open spec fn trim_end(s: Seq<char>) -> Seq<char>
    decreases s.len(),
{
    if s.len() > 0 && is_space(s.last()) {
        trim_end(s.drop_last())
    } else {
        s
    }
}

/// A line with its comment and its surrounding white space removed.
pub open spec fn normalized(s: Seq<char>) -> Seq<char> {
    trim_end(trim_start(strip_comment(s)))
}

/// What normalizing a line yields: `None` for a blank or comment-only line.
pub open spec fn normalize_spec(s: Seq<char>) -> Option<Seq<char>> {
    if normalized(s).len() == 0 {
        None
    } else {
        Some(normalized(s))
    }
}

/// The characters of a string slice.
pub fn chars_of(s: &str) -> (r: Vec<char>)
    ensures
        r@ == s@,
{
    let n = s.unicode_len();
    let mut r: Vec<char> = Vec::new();
    let mut i: usize = 0;
    while i < n
        invariant
            n == s@.len(),
            0 <= i <= n,
            r@ == s@.subrange(0, i as int),
        decreases n - i,
    {
        r.push(s.get_char(i));
        i = i + 1;
        assert(r@ =~= s@.subrange(0, i as int));
    }
    assert(r@ =~= s@);
    r
}

pub fn is_space_char(c: char) -> (r: bool)
    ensures
        r == is_space(c),
{
    c == ' ' || c == '\t' || c == '\n' || c == '\r'
}

/// Character-wise equality of two words.
pub fn chars_eq(a: &Vec<char>, b: &Vec<char>) -> (r: bool)
    ensures
        r == (a@ == b@),
{
    if a.len() != b.len() {
        return false;
    }
    let mut i: usize = 0;
    while i < a.len()
        invariant
            a@.len() == b@.len(),
            0 <= i <= a@.len(),
            forall|j: int| 0 <= j < i ==> a@[j] == b@[j],
        decreases a@.len() - i,
    {
        if a[i] != b[i] {
            return false;
        }
        i = i + 1;
    }
    assert(a@ =~= b@);
    true
}

/// Does `s` start with `p`?
pub fn starts_with(p: &Vec<char>, s: &Vec<char>) -> (r: bool)
    ensures
        r == is_prefix_of(p@, s@),
{
    if p.len() > s.len() {
        return false;
    }
    let mut i: usize = 0;
    while i < p.len()
        invariant
            p@.len() <= s@.len(),
            0 <= i <= p@.len(),
            forall|j: int| 0 <= j < i ==> p@[j] == s@[j],
        decreases p@.len() - i,
    {
        if p[i] != s[i] {
            assert(s@.subrange(0, p@.len() as int)[i as int] != p@[i as int]);
            return false;
        }
        i = i + 1;
    }
    assert(s@.subrange(0, p@.len() as int) =~= p@);
    true
}

/// A copy of the characters `s[lo..hi]`.
pub fn slice_chars(s: &Vec<char>, lo: usize, hi: usize) -> (r: Vec<char>)
    requires
        lo <= hi <= s@.len(),
    ensures
        r@ == s@.subrange(lo as int, hi as int),
{
    let mut r: Vec<char> = Vec::new();
    let mut i: usize = lo;
    while i < hi
        invariant
            lo <= i <= hi <= s@.len(),
            r@ == s@.subrange(lo as int, i as int),
        decreases hi - i,
    {
        r.push(s[i]);
        i = i + 1;
        assert(r@ =~= s@.subrange(lo as int, i as int));
    }
    r
}


/// Normalizes one input line: drops its comment and surrounding white space,
/// and yields `None` when nothing is left.
pub fn normalize_input_line(line: &Vec<char>) -> (r: Option<Vec<char>>)
    ensures
        r matches Some(v) ==> normalize_spec(line@) == Some(v@),
        r is None ==> normalize_spec(line@) is None,
{
    let n = line.len();
    // Cut the comment.
    let mut cut: usize = 0;
    assert(line@.subrange(0, 0) + line@.subrange(0, n as int) =~= line@);
    while cut < n && line[cut] != '!' && line[cut] != '#'
        invariant
            0 <= cut <= n == line@.len(),
            strip_comment(line@) == line@.subrange(0, cut as int) + strip_comment(
                line@.subrange(cut as int, n as int),
            ),
        decreases n - cut,
    {
        proof {
            let rest = line@.subrange(cut as int, n as int);
            assert(rest.drop_first() =~= line@.subrange(cut + 1, n as int));
            assert(line@.subrange(0, cut + 1) =~= line@.subrange(0, cut as int) + seq![
                rest[0],
            ]);
        }
        cut = cut + 1;
    }
    let ghost t = line@.subrange(0, cut as int);
    proof {
        let rest = line@.subrange(cut as int, n as int);
        assert(strip_comment(rest) =~= Seq::<char>::empty());
        assert(strip_comment(line@) =~= t);
    }
    // Skip leading white space.
    let mut lo: usize = 0;
    while lo < cut && is_space_char(line[lo])
        invariant
            0 <= lo <= cut <= n == line@.len(),
            t == line@.subrange(0, cut as int),
            trim_start(t) == trim_start(line@.subrange(lo as int, cut as int)),
        decreases cut - lo,
    {
        proof {
            assert(line@.subrange(lo as int, cut as int).drop_first() =~= line@.subrange(
                lo + 1,
                cut as int,
            ));
        }
        lo = lo + 1;
    }
    let ghost u = line@.subrange(lo as int, cut as int);
    assert(trim_start(u) == u);
    // Drop trailing white space.
    let mut hi: usize = cut;
    while hi > lo && is_space_char(line[hi - 1])
        invariant
            0 <= lo <= hi <= cut <= n == line@.len(),
            u == line@.subrange(lo as int, cut as int),
            trim_end(u) == trim_end(line@.subrange(lo as int, hi as int)),
        decreases hi - lo,
    {
        proof {
            assert(line@.subrange(lo as int, hi as int).drop_last() =~= line@.subrange(
                lo as int,
                hi - 1,
            ));
        }
        hi = hi - 1;
    }
    assert(trim_end(line@.subrange(lo as int, hi as int)) == line@.subrange(lo as int, hi as int));
    if hi == lo {
        None
    } else {
        Some(slice_chars(line, lo, hi))
    }
}

proof fn lemma_strip_comment_clean(s: Seq<char>)
    ensures
        forall|i: int| 0 <= i < strip_comment(s).len() ==> !is_comment_start(#[trigger] strip_comment(s)[i]),
    decreases s.len(),
{
    if s.len() > 0 && !is_comment_start(s[0]) {
        lemma_strip_comment_clean(s.drop_first());
        let r = strip_comment(s);
        assert forall|i: int| 0 <= i < r.len() implies !is_comment_start(#[trigger] r[i]) by {
            if i > 0 {
                assert(r[i] == strip_comment(s.drop_first())[i - 1]);
            }
        }
    }
}

proof fn lemma_strip_comment_noop(s: Seq<char>)
    requires
        forall|i: int| 0 <= i < s.len() ==> !is_comment_start(#[trigger] s[i]),
    ensures
        strip_comment(s) == s,
    decreases s.len(),
{
    if s.len() > 0 {
        assert(!is_comment_start(s[0]));
        lemma_strip_comment_noop(s.drop_first());
        assert(seq![s[0]] + s.drop_first() =~= s);
    }
}

proof fn lemma_trim_start_suffix(s: Seq<char>)
    ensures
        trim_start(s).len() <= s.len(),
        trim_start(s) == s.subrange(s.len() - trim_start(s).len(), s.len() as int),
        trim_start(s).len() > 0 ==> !is_space(trim_start(s)[0]),
    decreases s.len(),
{
    if s.len() > 0 && is_space(s[0]) {
        lemma_trim_start_suffix(s.drop_first());
        assert(s.drop_first().subrange(
            s.drop_first().len() - trim_start(s).len(),
            s.drop_first().len() as int,
        ) =~= s.subrange(s.len() - trim_start(s).len(), s.len() as int));
    } else {
        assert(s.subrange(0, s.len() as int) =~= s);
    }
}

proof fn lemma_trim_end_prefix(s: Seq<char>)
    ensures
        trim_end(s).len() <= s.len(),
        trim_end(s) == s.subrange(0, trim_end(s).len() as int),
        trim_end(s).len() > 0 ==> !is_space(trim_end(s).last()),
    decreases s.len(),
{
    if s.len() > 0 && is_space(s.last()) {
        lemma_trim_end_prefix(s.drop_last());
        assert(s.drop_last().subrange(0, trim_end(s).len() as int) =~= s.subrange(
            0,
            trim_end(s).len() as int,
        ));
    } else {
        assert(s.subrange(0, s.len() as int) =~= s);
    }
}

/// Normalizing a line that is already normalized gives it back unchanged.
pub proof fn lemma_normalize_idempotent(line: Seq<char>)
    ensures
        normalize_spec(line) matches Some(t) ==> normalize_spec(t) == Some(t),
{
    let a = strip_comment(line);
    let b = trim_start(a);
    let t = trim_end(b);
    if t.len() > 0 {
        lemma_strip_comment_clean(line);
        lemma_trim_start_suffix(a);
        lemma_trim_end_prefix(b);
        assert forall|i: int| 0 <= i < t.len() implies !is_comment_start(#[trigger] t[i]) by {
            assert(t[i] == b[i]);
            assert(b[i] == a[a.len() - b.len() + i]);
        }
        lemma_strip_comment_noop(t);
        assert(t[0] == b[0]);
        assert(trim_start(t) == t);
        assert(trim_end(t) == t);
    }
}

} // verus!
