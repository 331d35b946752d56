use vstd::prelude::*;

use crate::parser::{copy_words, words_of};
use crate::text::chars_eq;

verus! {

/// A configuration key: a path of words.
pub type Key = Seq<Seq<char>>;

/// `p` is `k` or an ancestor of it.
pub open spec fn key_within(p: Key, k: Key) -> bool {
    p.len() <= k.len() && k.subrange(0, p.len() as int) == p
}

/// Word-wise equality of two lists of words.
pub fn words_eq(a: &Vec<Vec<char>>, b: &Vec<Vec<char>>) -> (r: bool)
    ensures
        r == (words_of(a) == words_of(b)),
{
    if a.len() != b.len() {
        return false;
    }
    let mut i: usize = 0;
    while i < a.len()
        invariant
            a@.len() == b@.len(),
            0 <= i <= a@.len(),
            forall|j: int| 0 <= j < i ==> words_of(a)[j] == words_of(b)[j],
        decreases a@.len() - i,
    {
        if !chars_eq(&a[i], &b[i]) {
            assert(words_of(a)[i as int] != words_of(b)[i as int]);
            return false;
        }
        i = i + 1;
    }
    assert(words_of(a) =~= words_of(b));
    true
}

/// Whether the key `p` is `k` or one of its ancestors.
pub fn key_within_exec(p: &Vec<Vec<char>>, k: &Vec<Vec<char>>) -> (r: bool)
    ensures
        r == key_within(words_of(p), words_of(k)),
{
    if p.len() > k.len() {
        return false;
    }
    let mut i: usize = 0;
    while i < p.len()
        invariant
            p@.len() <= k@.len(),
            0 <= i <= p@.len(),
            forall|j: int| 0 <= j < i ==> words_of(p)[j] == words_of(k)[j],
        decreases p@.len() - i,
    {
        if !chars_eq(&p[i], &k[i]) {
            assert(words_of(k).subrange(0, p@.len() as int)[i as int] != words_of(p)[i as int]);
            return false;
        }
        i = i + 1;
    }
    assert(words_of(k).subrange(0, p@.len() as int) =~= words_of(p));
    true
}

/// One configured value.
#[derive(Debug)]
pub struct ConfigEntry {
    pub key: Vec<Vec<char>>,
    pub value: Vec<Vec<char>>,
}

/// A configuration: values held at distinct keys.
#[derive(Debug)]
pub struct ConfigTree {
    pub entries: Vec<ConfigEntry>,
}

impl ConfigTree {
    pub open spec fn key_at(&self, i: int) -> Key {
        words_of(&self.entries@[i].key)
    }

    pub open spec fn value_at(&self, i: int) -> Seq<Seq<char>> {
        words_of(&self.entries@[i].value)
    }

    pub open spec fn has_key(&self, k: Key) -> bool {
        exists|i: int| 0 <= i < self.entries@.len() && self.key_at(i) == k
    }

    /// No key is held twice.
    pub open spec fn wf(&self) -> bool {
        forall|i: int, j: int|
            0 <= i < self.entries@.len() && 0 <= j < self.entries@.len() && i != j ==> #[trigger] self.key_at(i)
                != #[trigger] self.key_at(j)
    }

    /// The configuration as a map from keys to values.
    pub open spec fn view(&self) -> Map<Key, Seq<Seq<char>>> {
        Map::new(
            |k: Key| self.has_key(k),
            |k: Key| self.value_at(choose|i: int| 0 <= i < self.entries@.len() && self.key_at(i) == k),
        )
    }

    proof fn lemma_view_at(&self, i: int)
        requires
            self.wf(),
            0 <= i < self.entries@.len(),
        ensures
            self@.contains_key(self.key_at(i)),
            self@[self.key_at(i)] == self.value_at(i),
    {
        let k = self.key_at(i);
        assert(self.has_key(k));
        let j = choose|j: int| 0 <= j < self.entries@.len() && self.key_at(j) == k;
        assert(j == i);
    }

    /// An empty configuration.
    pub fn new() -> (r: ConfigTree)
        ensures
            r.wf(),
            r@ == Map::<Key, Seq<Seq<char>>>::empty(),
    {
        let r = ConfigTree { entries: Vec::new() };
        assert(r@ =~= Map::<Key, Seq<Seq<char>>>::empty());
        r
    }

    /// The position of `key`, if it is held.
    pub fn find(&self, key: &Vec<Vec<char>>) -> (r: Option<usize>)
        ensures
            r matches Some(i) ==> i < self.entries@.len() && self.key_at(i as int) == words_of(key),
            r is None ==> !self.has_key(words_of(key)),
    {
        let mut i: usize = 0;
        while i < self.entries.len()
            invariant
                0 <= i <= self.entries@.len(),
                forall|j: int| 0 <= j < i ==> self.key_at(j) != words_of(key),
            decreases self.entries@.len() - i,
        {
            if words_eq(&self.entries[i].key, key) {
                return Some(i);
            }
            i = i + 1;
        }
        None
    }

    /// The value held at `key`.
    pub fn get(&self, key: &Vec<Vec<char>>) -> (r: Option<Vec<Vec<char>>>)
        requires
            self.wf(),
        ensures
            r is None <==> !self@.contains_key(words_of(key)),
            r matches Some(v) ==> words_of(&v) == self@[words_of(key)],
    {
        match self.find(key) {
            Some(i) => {
                proof {
                    self.lemma_view_at(i as int);
                }
                Some(copy_words(&self.entries[i].value))
            },
            None => None,
        }
    }

    /// Sets the value at `key`, replacing what was there.
    pub fn set(&mut self, key: Vec<Vec<char>>, value: Vec<Vec<char>>)
        requires
            old(self).wf(),
        ensures
            final(self).wf(),
            final(self)@ == old(self)@.insert(words_of(&key), words_of(&value)),
    {
        let ghost k = words_of(&key);
        let ghost v = words_of(&value);
        let pos = self.find(&key);
        match pos {
            Some(i) => {
                self.entries.set(i, ConfigEntry { key, value });
                proof {
                    assert forall|a: int, b: int|
                        0 <= a < self.entries@.len() && 0 <= b < self.entries@.len() && a != b implies #[trigger] self.key_at(a)
                            != #[trigger] self.key_at(b) by {
                        assert(old(self).key_at(a) != old(self).key_at(b));
                    }
                    assert forall|kk: Key| #[trigger] self@.contains_key(kk) == old(self)@.insert(k, v).contains_key(kk) by {
                        if self.has_key(kk) {
                            let j = choose|j: int| 0 <= j < self.entries@.len() && self.key_at(j) == kk;
                            if j != i {
                                assert(old(self).key_at(j) == kk);
                            }
                        }
                        if old(self).has_key(kk) {
                            let j = choose|j: int| 0 <= j < old(self).entries@.len() && old(self).key_at(j) == kk;
                            assert(self.key_at(j) == kk);
                        }
                    }
                    assert forall|kk: Key| #[trigger] self@.contains_key(kk) implies self@[kk] == old(self)@.insert(k, v)[kk] by {
                        let j = choose|j: int| 0 <= j < self.entries@.len() && self.key_at(j) == kk;
                        self.lemma_view_at(j);
                        if j != i {
                            old(self).lemma_view_at(j);
                        }
                    }
                    assert(self@ =~= old(self)@.insert(k, v));
                }
            },
            None => {
                self.entries.push(ConfigEntry { key, value });
                proof {
                    let n = old(self).entries@.len() as int;
                    assert forall|a: int, b: int|
                        0 <= a < self.entries@.len() && 0 <= b < self.entries@.len() && a != b implies #[trigger] self.key_at(a)
                            != #[trigger] self.key_at(b) by {
                        if a < n && b < n {
                            assert(old(self).key_at(a) != old(self).key_at(b));
                        } else if a < n {
                            assert(old(self).key_at(a) == self.key_at(a));
                        } else {
                            assert(old(self).key_at(b) == self.key_at(b));
                        }
                    }
                    assert forall|kk: Key| #[trigger] self@.contains_key(kk) == old(self)@.insert(k, v).contains_key(kk) by {
                        if self.has_key(kk) {
                            let j = choose|j: int| 0 <= j < self.entries@.len() && self.key_at(j) == kk;
                            if j != n {
                                assert(old(self).key_at(j) == kk);
                            }
                        }
                        if old(self).has_key(kk) {
                            let j = choose|j: int| 0 <= j < old(self).entries@.len() && old(self).key_at(j) == kk;
                            assert(self.key_at(j) == kk);
                        }
                        if kk == k {
                            assert(self.key_at(n) == k);
                        }
                    }
                    assert forall|kk: Key| #[trigger] self@.contains_key(kk) implies self@[kk] == old(self)@.insert(k, v)[kk] by {
                        let j = choose|j: int| 0 <= j < self.entries@.len() && self.key_at(j) == kk;
                        self.lemma_view_at(j);
                        if j != n {
                            old(self).lemma_view_at(j);
                        }
                    }
                    assert(self@ =~= old(self)@.insert(k, v));
                }
            },
        }
    }
}


/// Whether an entry at `k` stays when the subtree at `p` (if any) is removed.
pub open spec fn stays(p: Option<Key>, k: Key) -> bool {
    match p {
        Some(p) => !key_within(p, k),
        None => true,
    }
}

/// The map `m` without the subtree at `p`: `p` and every key below it.
pub open spec fn without_subtree(m: Map<Key, Seq<Seq<char>>>, p: Key) -> Map<Key, Seq<Seq<char>>> {
    m.restrict(Set::new(|k: Key| !key_within(p, k)))
}

pub open spec fn stays_opt(p: Option<&Vec<Vec<char>>>, k: Key) -> bool {
    match p {
        Some(p) => stays(Some(words_of(p)), k),
        None => stays(None, k),
    }
}

impl ConfigTree {
    /// A copy of the entries that stay once the subtree at `p` is removed
    /// (all of them when `p` is `None`).
    fn retain_outside(&self, p: Option<&Vec<Vec<char>>>) -> (r: ConfigTree)
        requires
            self.wf(),
        ensures
            r.wf(),
            r@ == self@.restrict(Set::new(|k: Key| stays_opt(p, k))),
    {
        let mut out: Vec<ConfigEntry> = Vec::new();
        let ghost mut src: Seq<int> = Seq::empty();
        let mut i: usize = 0;
        while i < self.entries.len()
            invariant
                self.wf(),
                0 <= i <= self.entries@.len(),
                src.len() == out@.len(),
                forall|a: int|
                    0 <= a < out@.len() ==> {
                        &&& 0 <= #[trigger] src[a] < i
                        &&& self.key_at(src[a]) == words_of(&out@[a].key)
                        &&& self.value_at(src[a]) == words_of(&out@[a].value)
                        &&& stays_opt(p, self.key_at(src[a]))
                    },
                forall|a: int, b: int| 0 <= a < b < out@.len() ==> #[trigger] src[a] < #[trigger] src[b],
                forall|j: int|
                    0 <= j < i && stays_opt(p, #[trigger] self.key_at(j)) ==> exists|a: int|
                        0 <= a < out@.len() && src[a] == j,
            decreases self.entries@.len() - i,
        {
            let keep = match p {
                Some(pk) => !key_within_exec(pk, &self.entries[i].key),
                None => true,
            };
            if keep {
                let e = ConfigEntry {
                    key: copy_words(&self.entries[i].key),
                    value: copy_words(&self.entries[i].value),
                };
                out.push(e);
                proof {
                    let n = src.len() as int;
                    let old_src = src;
                    assert(forall|j: int| 0 <= j < i && stays_opt(p, #[trigger] self.key_at(j)) ==> exists|a: int|
                        0 <= a < n && old_src[a] == j);
                    src = src.push(i as int);
                    assert forall|j: int|
                        0 <= j < i + 1 && stays_opt(p, #[trigger] self.key_at(j)) implies exists|a: int|
                            0 <= a < out@.len() && src[a] == j by {
                        if j == i {
                            assert(src[n] == j);
                        } else {
                            let a = choose|a: int| 0 <= a < n && old_src[a] == j;
                            assert(src[a] == j);
                        }
                    }
                }
            }
            i = i + 1;
        }
        let r = ConfigTree { entries: out };
        proof {
            assert forall|a: int, b: int|
                0 <= a < r.entries@.len() && 0 <= b < r.entries@.len() && a != b implies #[trigger] r.key_at(a)
                    != #[trigger] r.key_at(b) by {
                assert(src[a] != src[b]) by {
                    if a < b {
                        assert(src[a] < src[b]);
                    } else {
                        assert(src[b] < src[a]);
                    }
                }
                assert(self.key_at(src[a]) != self.key_at(src[b]));
            }
            let target = self@.restrict(Set::new(|k: Key| stays_opt(p, k)));
            assert forall|k: Key| #[trigger] r@.contains_key(k) == target.contains_key(k) by {
                if r.has_key(k) {
                    let a = choose|a: int| 0 <= a < r.entries@.len() && r.key_at(a) == k;
                    assert(self.key_at(src[a]) == k);
                    assert(self.has_key(k));
                }
                if target.contains_key(k) {
                    let j = choose|j: int| 0 <= j < self.entries@.len() && self.key_at(j) == k;
                    let a = choose|a: int| 0 <= a < out@.len() && src[a] == j;
                    assert(r.key_at(a) == k);
                }
            }
            assert forall|k: Key| #[trigger] r@.contains_key(k) implies r@[k] == target[k] by {
                let a = choose|a: int| 0 <= a < r.entries@.len() && r.key_at(a) == k;
                r.lemma_view_at(a);
                self.lemma_view_at(src[a]);
            }
            assert(r@ =~= target);
        }
        r
    }

    /// A copy of this configuration.
    pub fn copy(&self) -> (r: ConfigTree)
        requires
            self.wf(),
        ensures
            r.wf(),
            r@ == self@,
    {
        let r = self.retain_outside(None);
        assert(r@ =~= self@);
        r
    }

    /// Removes the value at `key` and everything below it; a key that is
    /// not held is no error.
    pub fn remove_subtree(&mut self, key: &Vec<Vec<char>>)
        requires
            old(self).wf(),
        ensures
            final(self).wf(),
            final(self)@ == without_subtree(old(self)@, words_of(key)),
    {
        let r = self.retain_outside(Some(key));
        assert(r@ =~= without_subtree(self@, words_of(key)));
        *self = r;
    }
}


/// One change of a diff: set `key` to a value, or delete it (`None`).
#[derive(Debug)]
pub struct ConfigChange {
    pub key: Vec<Vec<char>>,
    pub value: Option<Vec<Vec<char>>>,
}

pub open spec fn change_key(c: &ConfigChange) -> Key {
    words_of(&c.key)
}

/// `k` is set in `to` and differs from `from` there.
pub open spec fn differs_at(from: Map<Key, Seq<Seq<char>>>, to: Map<Key, Seq<Seq<char>>>, k: Key) -> bool {
    to.contains_key(k) && (!from.contains_key(k) || from[k] != to[k])
}

/// The changes in `cs` are exactly those that turn `from` into `to`.
pub open spec fn is_diff(cs: Seq<ConfigChange>, from: Map<Key, Seq<Seq<char>>>, to: Map<Key, Seq<Seq<char>>>) -> bool {
    &&& forall|a: int| 0 <= a < cs.len() ==> match #[trigger] cs[a].value {
        Some(v) => differs_at(from, to, change_key(&cs[a])) && words_of(&v) == to[change_key(&cs[a])],
        None => from.contains_key(change_key(&cs[a])) && !to.contains_key(change_key(&cs[a])),
    }
    &&& forall|k: Key| differs_at(from, to, k) ==> exists|a: int|
        0 <= a < cs.len() && #[trigger] change_key(&cs[a]) == k && cs[a].value is Some
    &&& forall|k: Key| from.contains_key(k) && !to.contains_key(k) ==> exists|a: int|
        0 <= a < cs.len() && #[trigger] change_key(&cs[a]) == k && cs[a].value is None
}

impl ConfigTree {
    /// The changes that turn this configuration into `to`: a value for
    /// each key that `to` sets differently, a deletion for each key that
    /// `to` no longer holds.
    pub fn changes_to(&self, to: &ConfigTree) -> (r: Vec<ConfigChange>)
        requires
            self.wf(),
            to.wf(),
        ensures
            is_diff(r@, self@, to@),
    {
        let mut out: Vec<ConfigChange> = Vec::new();
        let mut i: usize = 0;
        while i < to.entries.len()
            invariant
                self.wf(),
                to.wf(),
                0 <= i <= to.entries@.len(),
                forall|a: int| 0 <= a < out@.len() ==> match #[trigger] out@[a].value {
                    Some(v) => differs_at(self@, to@, change_key(&out@[a])) && words_of(&v) == to@[change_key(&out@[a])],
                    None => self@.contains_key(change_key(&out@[a])) && !to@.contains_key(change_key(&out@[a])),
                },
                forall|j: int| 0 <= j < i && differs_at(self@, to@, #[trigger] to.key_at(j)) ==> exists|a: int|
                    0 <= a < out@.len() && #[trigger] change_key(&out@[a]) == to.key_at(j) && out@[a].value is Some,
            decreases to.entries@.len() - i,
        {
            proof {
                to.lemma_view_at(i as int);
            }
            let differs = match self.find(&to.entries[i].key) {
                None => true,
                Some(p) => {
                    proof {
                        self.lemma_view_at(p as int);
                    }
                    !words_eq(&self.entries[p].value, &to.entries[i].value)
                },
            };
            proof {
                if !self.has_key(to.key_at(i as int)) {
                    assert(!self@.contains_key(to.key_at(i as int)));
                }
            }
            if differs {
                let ghost before = out@;
                out.push(ConfigChange {
                    key: copy_words(&to.entries[i].key),
                    value: Some(copy_words(&to.entries[i].value)),
                });
                proof {
                    assert forall|j: int| 0 <= j < i + 1 && differs_at(self@, to@, #[trigger] to.key_at(j)) implies exists|a: int|
                        0 <= a < out@.len() && #[trigger] change_key(&out@[a]) == to.key_at(j) && out@[a].value is Some by {
                        if j == i {
                            assert(change_key(&out@[before.len() as int]) == to.key_at(j));
                        } else {
                            let a = choose|a: int| 0 <= a < before.len() && #[trigger] change_key(&before[a]) == to.key_at(j) && before[a].value is Some;
                            assert(out@[a] == before[a]);
                        }
                    }
                }
            }
            i = i + 1;
        }
        let ghost set_part = out@;
        let mut i: usize = 0;
        while i < self.entries.len()
            invariant
                self.wf(),
                to.wf(),
                0 <= i <= self.entries@.len(),
                out@.len() >= set_part.len(),
                forall|a: int| 0 <= a < set_part.len() ==> out@[a] == set_part[a],
                forall|a: int| 0 <= a < out@.len() ==> match #[trigger] out@[a].value {
                    Some(v) => differs_at(self@, to@, change_key(&out@[a])) && words_of(&v) == to@[change_key(&out@[a])],
                    None => self@.contains_key(change_key(&out@[a])) && !to@.contains_key(change_key(&out@[a])),
                },
                forall|k: Key| differs_at(self@, to@, k) ==> exists|a: int|
                    0 <= a < set_part.len() && #[trigger] change_key(&set_part[a]) == k && set_part[a].value is Some,
                forall|j: int| 0 <= j < i && !to@.contains_key(#[trigger] self.key_at(j)) ==> exists|a: int|
                    0 <= a < out@.len() && #[trigger] change_key(&out@[a]) == self.key_at(j) && out@[a].value is None,
            decreases self.entries@.len() - i,
        {
            proof {
                self.lemma_view_at(i as int);
            }
            let found = to.find(&self.entries[i].key);
            if found.is_none() {
                let ghost before = out@;
                out.push(ConfigChange { key: copy_words(&self.entries[i].key), value: None });
                proof {
                    assert(!to@.contains_key(self.key_at(i as int)));
                    assert forall|j: int| 0 <= j < i + 1 && !to@.contains_key(#[trigger] self.key_at(j)) implies exists|a: int|
                        0 <= a < out@.len() && #[trigger] change_key(&out@[a]) == self.key_at(j) && out@[a].value is None by {
                        if j == i {
                            assert(change_key(&out@[before.len() as int]) == self.key_at(j));
                        } else {
                            let a = choose|a: int| 0 <= a < before.len() && #[trigger] change_key(&before[a]) == self.key_at(j) && before[a].value is None;
                            assert(out@[a] == before[a]);
                        }
                    }
                }
            } else {
                proof {
                    let p = found->0;
                    to.lemma_view_at(p as int);
                }
            }
            i = i + 1;
        }
        proof {
            assert forall|k: Key| differs_at(self@, to@, k) implies exists|a: int|
                0 <= a < out@.len() && #[trigger] change_key(&out@[a]) == k && out@[a].value is Some by {
                let a = choose|a: int| 0 <= a < set_part.len() && #[trigger] change_key(&set_part[a]) == k && set_part[a].value is Some;
                assert(out@[a] == set_part[a]);
            }
            assert forall|k: Key| self@.contains_key(k) && !to@.contains_key(k) implies exists|a: int|
                0 <= a < out@.len() && #[trigger] change_key(&out@[a]) == k && out@[a].value is None by {
                let j = choose|j: int| 0 <= j < self.entries@.len() && self.key_at(j) == k;
                assert(!to@.contains_key(self.key_at(j)));
            }
        }
        out
    }
}


/// Some change of `cs` sets `k`.
pub open spec fn sets(cs: Seq<ConfigChange>, k: Key) -> bool {
    exists|a: int| 0 <= a < cs.len() && #[trigger] change_key(&cs[a]) == k && cs[a].value is Some
}

/// Some change of `cs` deletes `k`.
pub open spec fn deletes(cs: Seq<ConfigChange>, k: Key) -> bool {
    exists|a: int| 0 <= a < cs.len() && #[trigger] change_key(&cs[a]) == k && cs[a].value is None
}

/// `from` with the changes `cs` applied: a set key takes the value of a
/// change that sets it, a deleted key goes, every other key stays.
pub open spec fn apply_changes(from: Map<Key, Seq<Seq<char>>>, cs: Seq<ConfigChange>) -> Map<Key, Seq<Seq<char>>> {
    Map::new(
        |k: Key| sets(cs, k) || (from.contains_key(k) && !deletes(cs, k)),
        |k: Key| if sets(cs, k) {
            words_of(&cs[choose|a: int| 0 <= a < cs.len() && #[trigger] change_key(&cs[a]) == k && cs[a].value is Some].value->0)
        } else {
            from[k]
        },
    )
}

/// The diff from one configuration to another is complete: applying all of
/// it to the first gives the second, key for key and value for value.
pub proof fn lemma_diff_applies_whole(cs: Seq<ConfigChange>, from: Map<Key, Seq<Seq<char>>>, to: Map<Key, Seq<Seq<char>>>)
    requires
        is_diff(cs, from, to),
    ensures
        apply_changes(from, cs) == to,
{
    let r = apply_changes(from, cs);
    assert forall|k: Key| #[trigger] r.contains_key(k) == to.contains_key(k) by {
        if sets(cs, k) {
            let a = choose|a: int| 0 <= a < cs.len() && #[trigger] change_key(&cs[a]) == k && cs[a].value is Some;
            assert(differs_at(from, to, change_key(&cs[a])));
        } else if deletes(cs, k) {
            let a = choose|a: int| 0 <= a < cs.len() && #[trigger] change_key(&cs[a]) == k && cs[a].value is None;
            assert(!to.contains_key(change_key(&cs[a])));
        } else {
            assert(!differs_at(from, to, k));
            assert(!(from.contains_key(k) && !to.contains_key(k)));
        }
    }
    assert forall|k: Key| #[trigger] r.contains_key(k) implies r[k] == to[k] by {
        if sets(cs, k) {
            let a = choose|a: int| 0 <= a < cs.len() && #[trigger] change_key(&cs[a]) == k && cs[a].value is Some;
            assert(words_of(&cs[a].value->0) == to[change_key(&cs[a])]);
        } else {
            assert(!differs_at(from, to, k));
        }
    }
    assert(r =~= to);
}

} // verus!
