//! A character-keyed prefix trie over command names: word insertion and
//! prefix-based completion lookup.
//!
//! A trie value is modelled by the set of words it contains
//! (`Trie::words`); every operation is specified against that set.
use crate::text::{chars_of, push_char, string_from_chars};
use crate::utils::{listed_names, listed_names_before, SearchDir};
use vstd::prelude::*;

verus! {

/// One trie node: labelled edges to child nodes, and a flag marking whether
/// a complete word terminates here. The root represents the empty prefix.
pub struct Trie {
    pub child: Vec<(char, Trie)>,
    pub is_leaf: bool,
}

/// No two edges out of one node carry the same character.
pub open spec fn distinct_labels(ch: Seq<(char, Trie)>) -> bool {
    forall|i: int, j: int| 0 <= i < j < ch.len() ==> ch[i].0 != ch[j].0
}

/// Labels are unique within a node with distinct labels.
proof fn lemma_unique_label(ch: Seq<(char, Trie)>, j: int, k: int)
    requires
        distinct_labels(ch),
        0 <= j < ch.len(),
        0 <= k < ch.len(),
        ch[j].0 == ch[k].0,
    ensures
        j == k,
{
}

/// Two non-empty sequences with equal head and equal tail are equal.
proof fn lemma_head_tail_eq(u: Seq<char>, v: Seq<char>)
    requires
        u.len() > 0,
        v.len() > 0,
        u[0] == v[0],
        u.drop_first() == v.drop_first(),
    ensures
        u == v,
{
    assert(u.drop_first().len() == u.len() - 1);
    assert(v.drop_first().len() == v.len() - 1);
    assert(u.drop_first().len() == v.drop_first().len());
    assert(u.len() == v.len());
    assert forall|k: int| 0 <= k < u.len() implies u[k] == v[k] by {
        if k > 0 {
            assert(u[k] == u.drop_first()[k - 1]);
            assert(v[k] == v.drop_first()[k - 1]);
        }
    }
    assert(u =~= v);
}

impl Trie {
    /// Whether the word terminates in this subtrie.
    pub open spec fn contains_word(self, w: Seq<char>) -> bool
        decreases w.len(),
    {
        if w.len() == 0 {
            self.is_leaf
        } else {
            exists|i: int|
                #![auto]
                0 <= i < self.child@.len() && self.child@[i].0 == w[0]
                    && self.child@[i].1.contains_word(w.drop_first())
        }
    }

    /// The set of words this trie holds: the trie's mathematical model.
    pub open spec fn words(self) -> Set<Seq<char>> {
        Set::new(|w: Seq<char>| self.contains_word(w))
    }

    /// Well-formed: every node's edge labels are distinct.
    pub open spec fn wf(self) -> bool
        decreases self,
    {
        distinct_labels(self.child@) && (forall|i: int|
            #![auto]
            0 <= i < self.child@.len() ==> self.child@[i].1.wf())
    }

    /// An empty trie: no words at all.
    pub fn new() -> (t: Trie)
        ensures
            t.wf(),
            t.words() == Set::<Seq<char>>::empty(),
    {
        let t = Trie { child: Vec::new(), is_leaf: false };
        proof {
            assert forall|w: Seq<char>| !t.contains_word(w) by {
                if w.len() > 0 {
                    assert(t.child@.len() == 0);
                }
            }
            assert(t.words() =~= Set::<Seq<char>>::empty());
        }
        t
    }

    /// The position of the edge labelled `c`, if there is one.
    fn find_child(&self, c: char) -> (r: Option<usize>)
        ensures
            match r {
                Some(p) => p < self.child@.len() && self.child@[p as int].0 == c,
                None => forall|i: int| 0 <= i < self.child@.len() ==> self.child@[i].0 != c,
            },
    {
        let mut p: usize = 0;
        while p < self.child.len()
            invariant
                p <= self.child@.len(),
                forall|i: int| 0 <= i < p ==> self.child@[i].0 != c,
            decreases self.child@.len() - p,
        {
            if self.child[p].0 == c {
                return Some(p);
            }
            p += 1;
        }
        None
    }

    /// Inserts the suffix of `w` that starts at position `i` below this node.
    fn insert_at(&mut self, w: &Vec<char>, i: usize)
        requires
            old(self).wf(),
            i <= w@.len(),
        ensures
            final(self).wf(),
            final(self).is_leaf == (old(self).is_leaf || i == w@.len()),
            forall|u: Seq<char>|
                final(self).contains_word(u) <==> (old(self).contains_word(u) || u == w@.skip(
                    i as int,
                )),
        decreases w@.len() - i,
    {
        if i == w.len() {
            self.is_leaf = true;
            proof {
                assert(w@.skip(i as int) =~= Seq::<char>::empty());
                assert forall|u: Seq<char>|
                    self.contains_word(u) <==> (old(self).contains_word(u) || u == w@.skip(
                        i as int,
                    )) by {
                    if u.len() == 0 {
                        assert(u =~= Seq::<char>::empty());
                    } else {
                        assert(self.child@ == old(self).child@);
                        assert(u != w@.skip(i as int));
                    }
                }
            }
        } else {
            let c = w[i];
            let ghost suffix = w@.skip(i as int);
            let ghost subsuffix = w@.skip(i as int + 1);
            proof {
                assert(suffix.len() > 0);
                assert(suffix[0] == c);
                assert(suffix.drop_first() =~= subsuffix);
            }
            match self.find_child(c) {
                Some(p) => {
                    let ghost ch0 = self.child@;
                    let ghost n = ch0.len() as int;
                    let pair = self.child.swap_remove(p);
                    let label = pair.0;
                    let mut sub = pair.1;
                    let ghost sub0 = sub;
                    proof {
                        assert(old(self).wf());
                        assert(sub0.wf()) by {
                            assert(ch0[p as int].1 == sub0);
                        }
                    }
                    sub.insert_at(w, i + 1);
                    self.child.push((label, sub));
                    proof {
                        let ch1 = ch0.update(p as int, ch0.last()).drop_last();
                        let ch2 = self.child@;
                        assert(ch2 =~= ch1.push((label, sub)));
                        // Where each pair of the old child vector now lives.
                        assert forall|k: int|
                            #![trigger ch0[k]]
                            0 <= k < n && k != p implies exists|j: int|
                            #![auto]
                            0 <= j < ch2.len() && ch2[j] == ch0[k] by {
                            if k == n - 1 {
                                assert(ch2[p as int] == ch0[k]);
                            } else {
                                assert(ch2[k] == ch0[k]);
                            }
                        }
                        // Where each new pair except the last came from.
                        assert forall|j: int|
                            #![trigger ch2[j]]
                            0 <= j < ch2.len() - 1 implies exists|k: int|
                            #![auto]
                            0 <= k < n && k != p && ch2[j] == ch0[k] by {
                            if j == p {
                                assert(ch2[j] == ch0[n - 1]);
                                assert(p < n - 1);
                            } else {
                                assert(ch2[j] == ch0[j]);
                            }
                        }
                        // Labels other than c are untouched, so wf is kept.
                        assert(distinct_labels(ch2)) by {
                            assert forall|x: int, y: int|
                                0 <= x < y < ch2.len() implies ch2[x].0 != ch2[y].0 by {
                                if y == ch2.len() - 1 {
                                    let k = choose|k: int|
                                        #![auto]
                                        0 <= k < n && k != p && ch2[x] == ch0[k];
                                    assert(ch0[k].0 == ch2[x].0);
                                    if ch2[x].0 == label {
                                        lemma_unique_label(ch0, k, p as int);
                                        assert(false);
                                    }
                                } else {
                                    let kx = choose|k: int|
                                        #![auto]
                                        0 <= k < n && k != p && ch2[x] == ch0[k];
                                    let ky = choose|k: int|
                                        #![auto]
                                        0 <= k < n && k != p && ch2[y] == ch0[k];
                                    if ch2[x].0 == ch2[y].0 {
                                        lemma_unique_label(ch0, kx, ky);
                                        assert(ch2[x] == ch2[y]);
                                        if x == p {
                                            assert(ch2[x] == ch0[n - 1]);
                                            assert(ch2[y] == ch0[y]);
                                            lemma_unique_label(ch0, n - 1, y);
                                        } else if y == p {
                                            assert(ch2[y] == ch0[n - 1]);
                                            assert(ch2[x] == ch0[x]);
                                            lemma_unique_label(ch0, n - 1, x);
                                        } else {
                                            assert(ch2[x] == ch0[x]);
                                            assert(ch2[y] == ch0[y]);
                                            lemma_unique_label(ch0, x, y);
                                        }
                                        assert(false);
                                    }
                                }
                            }
                        }
                        assert(self.wf()) by {
                            assert forall|j: int| #![auto] 0 <= j < ch2.len() implies ch2[j].1.wf() by {
                                if j == ch2.len() - 1 {
                                } else {
                                    let k = choose|k: int|
                                        #![auto]
                                        0 <= k < n && k != p && ch2[j] == ch0[k];
                                    assert(ch0[k].1.wf());
                                }
                            }
                        }
                        // The word sets relate as required.
                        assert forall|u: Seq<char>|
                            self.contains_word(u) <==> (old(self).contains_word(u) || u
                                == suffix) by {
                            if u.len() == 0 {
                                assert(u != suffix);
                            } else if u[0] != c {
                                assert(u != suffix);
                                if self.contains_word(u) {
                                    let j = choose|j: int|
                                        #![auto]
                                        0 <= j < ch2.len() && ch2[j].0 == u[0]
                                            && ch2[j].1.contains_word(u.drop_first());
                                    assert(j != ch2.len() - 1);
                                    let k = choose|k: int|
                                        #![auto]
                                        0 <= k < n && k != p && ch2[j] == ch0[k];
                                    assert(ch0[k].0 == u[0] && ch0[k].1.contains_word(
                                        u.drop_first(),
                                    ));
                                    assert(old(self).contains_word(u));
                                }
                                if old(self).contains_word(u) {
                                    let k = choose|k: int|
                                        #![auto]
                                        0 <= k < n && ch0[k].0 == u[0]
                                            && ch0[k].1.contains_word(u.drop_first());
                                    assert(k != p);
                                    let j = choose|j: int|
                                        #![auto]
                                        0 <= j < ch2.len() && ch2[j] == ch0[k];
                                    assert(ch2[j].0 == u[0] && ch2[j].1.contains_word(
                                        u.drop_first(),
                                    ));
                                    assert(self.contains_word(u));
                                }
                            } else {
                                // u starts with c: only the updated child matters.
                                let last = ch2.len() - 1;
                                assert(ch2[last].0 == c && ch2[last].1 == sub);
                                if self.contains_word(u) {
                                    let j = choose|j: int|
                                        #![auto]
                                        0 <= j < ch2.len() && ch2[j].0 == u[0]
                                            && ch2[j].1.contains_word(u.drop_first());
                                    if j != last {
                                        let k = choose|k: int|
                                            #![auto]
                                            0 <= k < n && k != p && ch2[j] == ch0[k];
                                        lemma_unique_label(ch0, k, p as int);
                                        assert(false);
                                    }
                                    assert(sub.contains_word(u.drop_first()));
                                    if u.drop_first() == subsuffix {
                                        lemma_head_tail_eq(u, suffix);
                                    } else {
                                        assert(sub0.contains_word(u.drop_first()));
                                        assert(ch0[p as int].0 == c && ch0[p as int].1
                                            == sub0);
                                        assert(old(self).contains_word(u));
                                    }
                                }
                                if old(self).contains_word(u) {
                                    let k = choose|k: int|
                                        #![auto]
                                        0 <= k < n && ch0[k].0 == u[0]
                                            && ch0[k].1.contains_word(u.drop_first());
                                    lemma_unique_label(ch0, k, p as int);
                                    assert(sub0.contains_word(u.drop_first()));
                                    assert(sub.contains_word(u.drop_first()));
                                    assert(self.contains_word(u));
                                }
                                if u == suffix {
                                    assert(u.drop_first() =~= subsuffix);
                                    assert(sub.contains_word(subsuffix));
                                    assert(self.contains_word(u));
                                }
                            }
                        }
                    }
                },
                None => {
                    let ghost ch0 = self.child@;
                    let mut sub = Trie::new();
                    let ghost sub_init = sub;
                    sub.insert_at(w, i + 1);
                    self.child.push((c, sub));
                    proof {
                        let ch2 = self.child@;
                        let last = ch2.len() - 1;
                        assert(ch2 =~= ch0.push((c, sub)));
                        assert forall|u: Seq<char>|
                            sub.contains_word(u) <==> u == subsuffix by {
                            assert(!sub_init.contains_word(u)) by {
                                assert(sub_init.words().contains(u) == sub_init.contains_word(u));
                                assert(!Set::<Seq<char>>::empty().contains(u));
                            }
                        }
                        assert(distinct_labels(ch2)) by {
                            assert forall|x: int, y: int|
                                0 <= x < y < ch2.len() implies ch2[x].0 != ch2[y].0 by {
                                if y == last {
                                    assert(ch2[x] == ch0[x]);
                                    assert(ch0[x].0 != c);
                                } else {
                                    assert(ch2[x] == ch0[x] && ch2[y] == ch0[y]);
                                }
                            }
                        }
                        assert(self.wf()) by {
                            assert forall|j: int| #![auto] 0 <= j < ch2.len() implies ch2[j].1.wf() by {
                                if j != last {
                                    assert(ch2[j] == ch0[j]);
                                }
                            }
                        }
                        assert forall|u: Seq<char>|
                            self.contains_word(u) <==> (old(self).contains_word(u) || u
                                == suffix) by {
                            if u.len() == 0 {
                                assert(u != suffix);
                            } else if u[0] != c {
                                assert(u != suffix);
                                if self.contains_word(u) {
                                    let j = choose|j: int|
                                        #![auto]
                                        0 <= j < ch2.len() && ch2[j].0 == u[0]
                                            && ch2[j].1.contains_word(u.drop_first());
                                    assert(j != last);
                                    assert(ch2[j] == ch0[j]);
                                    assert(old(self).contains_word(u));
                                }
                                if old(self).contains_word(u) {
                                    let k = choose|k: int|
                                        #![auto]
                                        0 <= k < ch0.len() && ch0[k].0 == u[0]
                                            && ch0[k].1.contains_word(u.drop_first());
                                    assert(ch2[k] == ch0[k]);
                                    assert(self.contains_word(u));
                                }
                            } else {
                                assert(ch2[last].0 == c && ch2[last].1 == sub);
                                if self.contains_word(u) {
                                    let j = choose|j: int|
                                        #![auto]
                                        0 <= j < ch2.len() && ch2[j].0 == u[0]
                                            && ch2[j].1.contains_word(u.drop_first());
                                    if j != last {
                                        assert(ch2[j] == ch0[j]);
                                        assert(ch0[j].0 != c);
                                        assert(false);
                                    }
                                    assert(sub.contains_word(u.drop_first()));
                                    assert(u.drop_first() == subsuffix);
                                    lemma_head_tail_eq(u, suffix);
                                }
                                if old(self).contains_word(u) {
                                    let k = choose|k: int|
                                        #![auto]
                                        0 <= k < ch0.len() && ch0[k].0 == u[0]
                                            && ch0[k].1.contains_word(u.drop_first());
                                    assert(ch0[k].0 != c);
                                    assert(false);
                                }
                                if u == suffix {
                                    assert(u.drop_first() =~= subsuffix);
                                    assert(sub.contains_word(subsuffix));
                                    assert(self.contains_word(u));
                                }
                            }
                        }
                    }
                },
            }
        }
    }

    /// The words of this subtrie, each spliced onto the end of `base`.
    pub open spec fn suffixed_words(self, base: Seq<char>) -> Set<Seq<char>> {
        Set::new(
            |u: Seq<char>| base.is_prefix_of(u) && self.contains_word(u.skip(base.len() as int)),
        )
    }

    /// The words of the trie that start with the prefix: what completion
    /// must return.
    pub open spec fn completions_of(self, prefix: Seq<char>) -> Set<Seq<char>> {
        Set::new(|w: Seq<char>| self.words().contains(w) && prefix.is_prefix_of(w))
    }

    /// Inserts a word. Inserting the same word twice is idempotent: the
    /// trie's word set gains exactly this word.
    pub fn insert(&mut self, word: &str)
        requires
            old(self).wf(),
        ensures
            final(self).wf(),
            final(self).words() == old(self).words().insert(word@),
    {
        let chars = chars_of(word);
        self.insert_at(&chars, 0);
        proof {
            assert(chars@.skip(0) =~= word@);
            assert(self.words() =~= old(self).words().insert(word@));
        }
    }
}

impl Trie {
    /// Every word of the trie that has the given prefix, each exactly once,
    /// the prefix itself included when it is a complete word. The order is
    /// unspecified; callers needing a deterministic order sort explicitly.
    pub fn completions(&self, prefix: &Vec<char>) -> (r: Vec<String>)
        requires
            self.wf(),
        ensures
            r.deep_view().to_set() == self.completions_of(prefix@),
            r.deep_view().no_duplicates(),
    {
        let mut node: &Trie = self;
        let mut i: usize = 0;
        while i < prefix.len()
            invariant
                i <= prefix@.len(),
                node.wf(),
                forall|s: Seq<char>|
                    #![auto]
                    self.contains_word(prefix@.take(i as int) + s) <==> node.contains_word(s),
            decreases prefix@.len() - i,
        {
            let c = prefix[i];
            let ghost pre_node = *node;
            match node.find_child(c) {
                Some(p) => {
                    node = &node.child[p].1;
                    proof {
                        assert forall|s: Seq<char>|
                            #![auto]
                            self.contains_word(prefix@.take(i + 1) + s) <==> node.contains_word(
                                s,
                            ) by {
                            let cs = seq![c] + s;
                            assert(prefix@.take(i + 1) + s =~= prefix@.take(i as int) + cs);
                            assert(cs.len() > 0 && cs[0] == c);
                            assert(cs.drop_first() =~= s);
                            if pre_node.contains_word(cs) {
                                let j = choose|j: int|
                                    #![auto]
                                    0 <= j < pre_node.child@.len() && pre_node.child@[j].0 == cs[0]
                                        && pre_node.child@[j].1.contains_word(cs.drop_first());
                                lemma_unique_label(pre_node.child@, j, p as int);
                                assert(node.contains_word(s));
                            }
                            if node.contains_word(s) {
                                assert(pre_node.child@[p as int].0 == cs[0]
                                    && pre_node.child@[p as int].1.contains_word(cs.drop_first()));
                                assert(pre_node.contains_word(cs));
                            }
                        }
                    }
                },
                None => {
                    // The walk fell off the tree: nothing completes the prefix.
                    proof {
                        assert forall|w: Seq<char>|
                            !self.completions_of(prefix@).contains(w) by {
                            if self.words().contains(w) && prefix@.is_prefix_of(w) {
                                let s = w.skip(i as int);
                                assert(prefix@.take(i as int) =~= w.subrange(0, i as int));
                                assert(prefix@.take(i as int) + s =~= w);
                                assert(node.contains_word(s));
                                assert(s.len() > 0);
                                assert(s[0] == w[i as int]);
                                assert(w[i as int] == prefix@[i as int]);
                                let j = choose|j: int|
                                    #![auto]
                                    0 <= j < node.child@.len() && node.child@[j].0 == s[0]
                                        && node.child@[j].1.contains_word(s.drop_first());
                                assert(false);
                            }
                        }
                        assert(self.completions_of(prefix@) =~= Set::<Seq<char>>::empty());
                        assert(Seq::<Seq<char>>::empty().to_set() =~= Set::<Seq<char>>::empty());
                    }
                    let r: Vec<String> = Vec::new();
                    assert(r.deep_view() =~~= Seq::<Seq<char>>::empty());
                    return r;
                },
            }
            i += 1;
        }
        let base = string_from_chars(prefix);
        let mut results: Vec<String> = Vec::new();
        dfs(node, base, &mut results);
        proof {
            assert(prefix@.take(prefix@.len() as int) =~= prefix@);
            assert forall|w: Seq<char>|
                self.completions_of(prefix@).contains(w) <==> node.suffixed_words(
                    prefix@,
                ).contains(w) by {
                if prefix@.is_prefix_of(w) {
                    let s = w.skip(prefix@.len() as int);
                    assert(prefix@ + s =~= w);
                    assert(self.contains_word(prefix@.take(prefix@.len() as int) + s)
                        <==> node.contains_word(s));
                }
            }
            assert(self.completions_of(prefix@) =~= node.suffixed_words(prefix@));
            assert(results.deep_view().skip(0) =~~= results.deep_view());
        }
        results
    }

    /// Every word of the trie that starts with the given prefix: exactly the
    /// set of inserted words of which the prefix is a prefix.
    pub fn get_words_with_prefix(&self, prefix: &str) -> (r: Vec<String>)
        requires
            self.wf(),
        ensures
            r.deep_view().to_set() == self.completions_of(prefix@),
            r.deep_view().no_duplicates(),
    {
        let p = chars_of(prefix);
        self.completions(&p)
    }
}

/// Populates the trie with every file name of every readable search-path
/// directory, and with the builtin command names.
pub fn initialize_trie(trie: &mut Trie, dirs: &Vec<SearchDir>)
    requires
        old(trie).wf(),
    ensures
        final(trie).wf(),
        final(trie).words() == old(trie).words().union(listed_names(dirs@)).insert(
            "exit"@,
        ).insert("echo"@).insert("type"@),
{
    let ghost w0 = old(trie).words();
    let mut di: usize = 0;
    while di < dirs.len()
        invariant
            old(trie).wf(),
            di <= dirs@.len(),
            trie.wf(),
            trie.words() == w0.union(listed_names_before(dirs@, di as int, 0)),
            w0 == old(trie).words(),
        decreases dirs@.len() - di,
    {
        let d = &dirs[di];
        if d.readable {
            let mut ej: usize = 0;
            while ej < d.entries.len()
                invariant
                    old(trie).wf(),
                    di < dirs@.len(),
                    d == dirs@[di as int],
                    d.readable,
                    ej <= d.entries@.len(),
                    trie.wf(),
                    trie.words() == w0.union(listed_names_before(dirs@, di as int, ej as int)),
                    w0 == old(trie).words(),
                decreases d.entries@.len() - ej,
            {
                let ghost before = trie.words();
                trie.insert(d.entries[ej].as_str());
                proof {
                    let name = d.entries@[ej as int]@;
                    assert forall|w: Seq<char>|
                        trie.words().contains(w) <==> w0.union(
                            listed_names_before(dirs@, di as int, ej + 1),
                        ).contains(w) by {
                        if w == name {
                            assert(listed_names_before(dirs@, di as int, ej + 1).contains(w)) by {
                                assert(0 <= di < dirs@.len() && dirs@[di as int].readable && 0 <= ej
                                    < dirs@[di as int].entries@.len()
                                    && dirs@[di as int].entries@[ej as int]@ == w && (ej
                                    < ej + 1));
                            }
                        }
                    }
                    assert(trie.words() =~= w0.union(
                        listed_names_before(dirs@, di as int, ej + 1),
                    ));
                }
                ej += 1;
            }
            proof {
                assert(listed_names_before(dirs@, di as int, d.entries@.len() as int)
                    =~= listed_names_before(dirs@, di + 1, 0));
            }
        } else {
            proof {
                assert(listed_names_before(dirs@, di as int, 0) =~= listed_names_before(
                    dirs@,
                    di + 1,
                    0,
                ));
            }
        }
        di += 1;
    }
    trie.insert("exit");
    trie.insert("echo");
    trie.insert("type");
    proof {
        assert(listed_names_before(dirs@, dirs@.len() as int, 0) =~= listed_names(dirs@));
        assert(trie.words() =~= old(trie).words().union(listed_names(dirs@)).insert(
            "exit"@,
        ).insert("echo"@).insert("type"@));
    }
}

/// The suffixed words of the first `k` children of `t`, under `base`.
pub open spec fn children_words(t: Trie, base: Seq<char>, k: int) -> Set<Seq<char>>
    decreases k,
{
    if k <= 0 {
        Set::empty()
    } else {
        children_words(t, base, k - 1).union(
            t.child@[k - 1].1.suffixed_words(base.push(t.child@[k - 1].0)),
        )
    }
}

/// Membership in `children_words` is membership under one of the children.
proof fn lemma_children_words_mem(t: Trie, base: Seq<char>, k: int, u: Seq<char>)
    requires
        0 <= k,
    ensures
        children_words(t, base, k).contains(u) <==> exists|j: int|
            #![auto]
            0 <= j < k && t.child@[j].1.suffixed_words(base.push(t.child@[j].0)).contains(u),
    decreases k,
{
    if k > 0 {
        lemma_children_words_mem(t, base, k - 1, u);
        if children_words(t, base, k).contains(u) {
            if t.child@[k - 1].1.suffixed_words(base.push(t.child@[k - 1].0)).contains(u) {
                assert(0 <= k - 1 < k && t.child@[k - 1].1.suffixed_words(
                    base.push(t.child@[k - 1].0),
                ).contains(u));
            }
        }
    }
}

/// Anything a child contributes extends `base` by that child's label.
proof fn lemma_children_words_elem(t: Trie, base: Seq<char>, k: int, u: Seq<char>)
    requires
        0 <= k <= t.child@.len(),
        children_words(t, base, k).contains(u),
    ensures
        u.len() > base.len(),
        base.is_prefix_of(u),
        exists|j: int| #![auto] 0 <= j < k && u[base.len() as int] == t.child@[j].0,
{
    lemma_children_words_mem(t, base, k, u);
    let j = choose|j: int|
        #![auto]
        0 <= j < k && t.child@[j].1.suffixed_words(base.push(t.child@[j].0)).contains(u);
    let b = base.push(t.child@[j].0);
    assert(b.is_prefix_of(u));
    assert(u[base.len() as int] == b[base.len() as int]);
    assert(base =~= b.subrange(0, base.len() as int));
    assert(base.is_prefix_of(u)) by {
        assert(base =~= u.subrange(0, base.len() as int));
    }
}

/// The words under a node are the node itself, if it is a leaf, and the
/// words under its children.
proof fn lemma_suffixed_words_decompose(t: Trie, base: Seq<char>)
    ensures
        t.suffixed_words(base) == if t.is_leaf {
            children_words(t, base, t.child@.len() as int).insert(base)
        } else {
            children_words(t, base, t.child@.len() as int)
        },
{
    let n = t.child@.len() as int;
    let all = children_words(t, base, n);
    assert forall|u: Seq<char>|
        t.suffixed_words(base).contains(u) <==> (all.contains(u) || (t.is_leaf && u == base)) by {
        lemma_children_words_mem(t, base, n, u);
        if t.suffixed_words(base).contains(u) {
            let s = u.skip(base.len() as int);
            if s.len() == 0 {
                assert(u =~= base);
            } else {
                let i = choose|i: int|
                    #![auto]
                    0 <= i < t.child@.len() && t.child@[i].0 == s[0]
                        && t.child@[i].1.contains_word(s.drop_first());
                let b = base.push(t.child@[i].0);
                assert(u[base.len() as int] == s[0]);
                assert(b.is_prefix_of(u)) by {
                    assert(b =~= u.subrange(0, b.len() as int));
                }
                assert(u.skip(b.len() as int) =~= s.drop_first());
                assert(t.child@[i].1.suffixed_words(b).contains(u));
            }
        }
        if all.contains(u) {
            let j = choose|j: int|
                #![auto]
                0 <= j < n && t.child@[j].1.suffixed_words(base.push(t.child@[j].0)).contains(u);
            let b = base.push(t.child@[j].0);
            let s = u.skip(base.len() as int);
            assert(base.is_prefix_of(u)) by {
                assert(base =~= u.subrange(0, base.len() as int));
            }
            assert(s.len() > 0);
            assert(s[0] == u[base.len() as int]);
            assert(u[base.len() as int] == b[base.len() as int]);
            assert(b[base.len() as int] == t.child@[j].0);
            assert(s[0] == t.child@[j].0);
            assert(s.drop_first() =~= u.skip(b.len() as int));
            assert(t.contains_word(s));
        }
        if t.is_leaf && u == base {
            assert(base.is_prefix_of(u)) by {
                assert(base =~= u.subrange(0, base.len() as int));
            }
            assert(u.skip(base.len() as int).len() == 0);
        }
    }
    if t.is_leaf {
        assert(t.suffixed_words(base) =~= all.insert(base));
    } else {
        assert(t.suffixed_words(base) =~= all);
    }
}

/// Concatenation of sequences takes their element sets together.
proof fn lemma_to_set_append(a: Seq<Seq<char>>, b: Seq<Seq<char>>)
    ensures
        (a + b).to_set() == a.to_set().union(b.to_set()),
{
    assert forall|x: Seq<char>|
        (a + b).to_set().contains(x) <==> a.to_set().contains(x) || b.to_set().contains(x) by {
        if a.contains(x) {
            let i = choose|i: int| 0 <= i < a.len() && a[i] == x;
            assert((a + b)[i] == x);
        }
        if b.contains(x) {
            let i = choose|i: int| 0 <= i < b.len() && b[i] == x;
            assert((a + b)[a.len() + i] == x);
        }
        if (a + b).contains(x) {
            let i = choose|i: int| 0 <= i < (a + b).len() && (a + b)[i] == x;
            if i < a.len() {
                assert(a[i] == x);
            } else {
                assert(b[i - a.len()] == x);
            }
        }
    }
    assert((a + b).to_set() =~= a.to_set().union(b.to_set()));
}

/// Concatenating duplicate-free sequences with no common element stays
/// duplicate-free.
proof fn lemma_no_dup_append(a: Seq<Seq<char>>, b: Seq<Seq<char>>)
    requires
        a.no_duplicates(),
        b.no_duplicates(),
        forall|u: Seq<char>| a.contains(u) ==> !b.contains(u),
    ensures
        (a + b).no_duplicates(),
{
    let s = a + b;
    assert forall|i: int, j: int|
        0 <= i < s.len() && 0 <= j < s.len() && i != j implies s[i] != s[j] by {
        if i < a.len() && j < a.len() {
            assert(s[i] == a[i] && s[j] == a[j]);
        } else if i >= a.len() && j >= a.len() {
            assert(s[i] == b[i - a.len()] && s[j] == b[j - a.len()]);
        } else if i < a.len() {
            assert(s[i] == a[i] && s[j] == b[j - a.len()]);
            assert(a.contains(a[i]));
            if s[i] == s[j] {
                assert(b.contains(a[i]));
            }
        } else {
            assert(s[j] == a[j] && s[i] == b[i - a.len()]);
            assert(a.contains(a[j]));
            if s[i] == s[j] {
                assert(b.contains(a[j]));
            }
        }
    }
}

/// Walks the subtree below `trie` and appends to `results` every word of
/// that subtree, spliced onto `word`: each exactly once, after whatever the
/// vector already held.
pub fn dfs(trie: &Trie, word: String, results: &mut Vec<String>)
    requires
        trie.wf(),
    ensures
        old(results)@.len() <= final(results)@.len(),
        final(results).deep_view().take(old(results)@.len() as int) == old(results).deep_view(),
        final(results).deep_view().skip(old(results)@.len() as int).to_set()
            == trie.suffixed_words(word@),
        final(results).deep_view().skip(old(results)@.len() as int).no_duplicates(),
    decreases *trie,
{
    let ghost base = word@;
    let ghost dv0 = results.deep_view();
    let ghost base_set: Set<Seq<char>> = if trie.is_leaf {
        Set::empty().insert(base)
    } else {
        Set::empty()
    };
    if trie.is_leaf {
        let w = word.clone();
        results.push(w);
        proof {
            assert(results.deep_view() =~~= dv0.push(base));
        }
    }
    proof {
        assert(results.deep_view().take(dv0.len() as int) =~~= dv0);
        let added0 = results.deep_view().skip(dv0.len() as int);
        assert(children_words(*trie, base, 0) =~= Set::<Seq<char>>::empty());
        if trie.is_leaf {
            assert(added0 =~~= seq![base]);
            assert forall|x: Seq<char>| added0.to_set().contains(x) <==> base_set.contains(x) by {
                if base_set.contains(x) {
                    assert(added0[0] == base);
                    assert(added0.contains(base));
                }
            }
        } else {
            assert(added0 =~~= Seq::<Seq<char>>::empty());
        }
        assert(added0.to_set() =~= base_set.union(children_words(*trie, base, 0)));
    }
    let mut k: usize = 0;
    while k < trie.child.len()
        invariant
            trie.wf(),
            word@ == base,
            k <= trie.child@.len(),
            dv0.len() <= results.deep_view().len(),
            results.deep_view().take(dv0.len() as int) == dv0,
            results.deep_view().skip(dv0.len() as int).to_set() == base_set.union(
                children_words(*trie, base, k as int),
            ),
            results.deep_view().skip(dv0.len() as int).no_duplicates(),
            base_set == if trie.is_leaf {
                Set::empty().insert(base)
            } else {
                Set::<Seq<char>>::empty()
            },
        decreases trie.child@.len() - k,
    {
        let ghost added_pre = results.deep_view().skip(dv0.len() as int);
        let ghost len_pre = results.deep_view().len() as int;
        let pair = &trie.child[k];
        let ghost label = pair.0;
        let ghost sub = pair.1;
        let mut new_word = word.clone();
        push_char(&mut new_word, pair.0);
        proof {
            assert(decreases_to!(*trie => trie.child@[k as int].1));
        }
        dfs(&pair.1, new_word, results);
        proof {
            let dv = results.deep_view();
            let added = dv.skip(dv0.len() as int);
            let newly = dv.skip(len_pre);
            assert(dv.take(dv0.len() as int) =~~= dv0);
            assert(added =~~= added_pre + newly);
            lemma_to_set_append(added_pre, newly);
            assert(children_words(*trie, base, k + 1) == children_words(*trie, base, k as int).union(
                sub.suffixed_words(base.push(label)),
            ));
            assert(added.to_set() =~= base_set.union(children_words(*trie, base, k + 1)));
            assert forall|u: Seq<char>| added_pre.contains(u) implies !newly.contains(u) by {
                if newly.contains(u) {
                    assert(newly.to_set().contains(u));
                    assert(u.len() > base.len() && u[base.len() as int] == label) by {
                        assert(base.push(label).is_prefix_of(u));
                        assert(u[base.len() as int] == base.push(label)[base.len() as int]);
                    }
                    assert(added_pre.to_set().contains(u));
                    if base_set.contains(u) {
                        assert(u == base);
                    } else {
                        lemma_children_words_elem(*trie, base, k as int, u);
                        let j = choose|j: int|
                            #![auto]
                            0 <= j < k && u[base.len() as int] == trie.child@[j].0;
                        assert(trie.child@[j].0 != trie.child@[k as int].0);
                    }
                }
            }
            lemma_no_dup_append(added_pre, newly);
        }
        k += 1;
    }
    proof {
        lemma_suffixed_words_decompose(*trie, base);
        let all = children_words(*trie, base, trie.child@.len() as int);
        if trie.is_leaf {
            assert(base_set.union(all) =~= all.insert(base));
        } else {
            assert(base_set.union(all) =~= all);
        }
    }
}

} // verus!
