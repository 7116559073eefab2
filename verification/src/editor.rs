//! The interactive line editor: an input state machine over key events.
//!
//! The editor owns the line buffer and the tab-cycle counter. Every
//! keystroke is one call of `EditorState::handle_key`, which updates the
//! state and says what the terminal must show; reading key events and
//! writing to the terminal happen outside this crate.
use crate::text::{chars_of, string_from_chars};
use crate::trie::Trie;
use vstd::multiset::Multiset;
use vstd::prelude::*;
use vstd::string::StrSliceExecFns;

verus! {

/// Lexicographic order on character sequences, by unicode scalar value.
pub open spec fn chars_le(a: Seq<char>, b: Seq<char>) -> bool
    decreases a.len(),
{
    if a.len() == 0 {
        true
    } else if b.len() == 0 {
        false
    } else if (a[0] as u32) < (b[0] as u32) {
        true
    } else if (a[0] as u32) > (b[0] as u32) {
        false
    } else {
        chars_le(a.drop_first(), b.drop_first())
    }
}

/// Any two character sequences are ordered one way or the other.
pub proof fn lemma_chars_le_total(a: Seq<char>, b: Seq<char>)
    ensures
        chars_le(a, b) || chars_le(b, a),
    decreases a.len(),
{
    if a.len() > 0 && b.len() > 0 && (a[0] as u32) == (b[0] as u32) {
        lemma_chars_le_total(a.drop_first(), b.drop_first());
    }
}

/// The lexicographic order is transitive.
pub proof fn lemma_chars_le_trans(a: Seq<char>, b: Seq<char>, c: Seq<char>)
    requires
        chars_le(a, b),
        chars_le(b, c),
    ensures
        chars_le(a, c),
    decreases a.len(),
{
    if a.len() > 0 && b.len() > 0 && c.len() > 0 && (a[0] as u32) == (b[0] as u32) && (b[0] as u32)
        == (c[0] as u32) {
        lemma_chars_le_trans(a.drop_first(), b.drop_first(), c.drop_first());
    }
}

/// Whether one string is at most the other in lexicographic order.
pub fn str_le(a: &String, b: &String) -> (r: bool)
    ensures
        r == chars_le(a@, b@),
{
    let av = chars_of(a.as_str());
    let bv = chars_of(b.as_str());
    let mut i: usize = 0;
    proof {
        assert(a@.skip(0) =~= a@);
        assert(b@.skip(0) =~= b@);
    }
    while i < av.len() && i < bv.len()
        invariant
            av@ == a@,
            bv@ == b@,
            i <= av@.len(),
            i <= bv@.len(),
            chars_le(a@, b@) == chars_le(a@.skip(i as int), b@.skip(i as int)),
        decreases av@.len() - i,
    {
        let ca = av[i] as u32;
        let cb = bv[i] as u32;
        let ghost sa = a@.skip(i as int);
        let ghost sb = b@.skip(i as int);
        proof {
            assert(sa.len() > 0 && sb.len() > 0);
            assert(sa[0] == a@[i as int] && sb[0] == b@[i as int]);
            assert(sa.drop_first() =~= a@.skip(i + 1));
            assert(sb.drop_first() =~= b@.skip(i + 1));
        }
        if ca < cb {
            return true;
        }
        if ca > cb {
            return false;
        }
        i += 1;
    }
    proof {
        assert(a@.skip(i as int).len() == 0 || b@.skip(i as int).len() == 0);
    }
    if i == av.len() {
        proof {
            assert(a@.skip(i as int).len() == 0);
        }
        true
    } else {
        proof {
            assert(b@.skip(i as int).len() == 0 && a@.skip(i as int).len() > 0);
        }
        false
    }
}

/// A sequence of words in non-decreasing lexicographic order.
pub open spec fn sorted_le(ws: Seq<Seq<char>>) -> bool {
    forall|i: int, j: int| 0 <= i < j < ws.len() ==> chars_le(ws[i], ws[j])
}

/// Sorts the words lexicographically: the result is an ordered rearrangement
/// of the input, nothing added and nothing dropped.
pub fn sort_words(v: &Vec<String>) -> (r: Vec<String>)
    ensures
        sorted_le(r.deep_view()),
        r.deep_view().to_multiset() == v.deep_view().to_multiset(),
        r.deep_view().to_set() == v.deep_view().to_set(),
        v.deep_view().no_duplicates() ==> r.deep_view().no_duplicates(),
{
    let mut out: Vec<String> = Vec::new();
    let mut i: usize = 0;
    proof {
        assert(v.deep_view().take(0).to_multiset() =~= out.deep_view().to_multiset()) by {
            assert(v.deep_view().take(0) =~= Seq::<Seq<char>>::empty());
            assert(out.deep_view() =~= Seq::<Seq<char>>::empty());
        }
    }
    while i < v.len()
        invariant
            i <= v@.len(),
            v@.len() == v.deep_view().len(),
            sorted_le(out.deep_view()),
            out.deep_view().to_multiset() == v.deep_view().take(i as int).to_multiset(),
        decreases v@.len() - i,
    {
        let s = v[i].clone();
        proof {
            assert(s@ == v.deep_view()[i as int]);
        }
        let ghost dv = out.deep_view();
        let mut p: usize = 0;
        loop
            invariant_except_break
                p <= dv.len(),
                dv == out.deep_view(),
                forall|k: int| 0 <= k < p ==> chars_le(dv[k], s@),
            ensures
                p <= dv.len(),
                dv == out.deep_view(),
                forall|k: int| 0 <= k < p ==> chars_le(dv[k], s@),
                p < dv.len() ==> !chars_le(dv[p as int], s@),
            decreases dv.len() - p,
        {
            if p == out.len() {
                break;
            }
            if !str_le(&out[p], &s) {
                break;
            }
            proof {
                assert(out@[p as int]@ == dv[p as int]);
            }
            p += 1;
        }
        out.insert(p, s);
        proof {
            let dv2 = out.deep_view();
            assert(dv2 =~~= dv.take(p as int) + seq![s@] + dv.skip(p as int));
            // The new element sits between what is at most and at least it.
            assert forall|x: int, y: int| 0 <= x < y < dv2.len() implies chars_le(
                dv2[x],
                dv2[y],
            ) by {
                lemma_chars_le_total(dv[p as int], s@);
                if x < p && y < p {
                    assert(dv2[x] == dv[x] && dv2[y] == dv[y]);
                } else if x < p && y == p {
                    assert(dv2[x] == dv[x] && dv2[y] == s@);
                } else if x < p && y > p {
                    assert(dv2[x] == dv[x] && dv2[y] == dv[y - 1]);
                } else if x == p && y > p {
                    assert(dv2[x] == s@ && dv2[y] == dv[y - 1]);
                    assert(!chars_le(dv[p as int], s@));
                    assert(chars_le(s@, dv[p as int]));
                    if y - 1 > p {
                        lemma_chars_le_trans(s@, dv[p as int], dv[y - 1]);
                    }
                } else if x > p && y > p {
                    assert(dv2[x] == dv[x - 1] && dv2[y] == dv[y - 1]);
                }
            }
            // One more element in the multiset.
            vstd::seq_lib::lemma_multiset_commutative(dv.take(p as int) + seq![s@], dv.skip(p as int));
            vstd::seq_lib::lemma_multiset_commutative(dv.take(p as int), seq![s@]);
            vstd::seq_lib::lemma_multiset_commutative(dv.take(p as int), dv.skip(p as int));
            assert(dv.take(p as int) + seq![s@] + dv.skip(p as int) =~~= (dv.take(p as int)
                + seq![s@]) + dv.skip(p as int));
            assert(dv.take(p as int) + dv.skip(p as int) =~~= dv);
            assert(seq![s@].to_multiset() =~= Multiset::<Seq<char>>::empty().insert(s@)) by {
                assert(seq![s@] =~= Seq::<Seq<char>>::empty().push(s@));
                Seq::<Seq<char>>::empty().to_multiset_ensures();
            }
            assert(dv2.to_multiset() =~= dv.to_multiset().insert(s@));
            // The processed prefix grows by the same element.
            let tv = v.deep_view();
            assert(tv.take(i + 1) =~= tv.take(i as int).push(tv[i as int]));
            tv.take(i as int).to_multiset_ensures();
            assert(tv.take(i + 1).to_multiset() =~= tv.take(i as int).to_multiset().insert(s@));
        }
        i += 1;
    }
    proof {
        assert(v.deep_view().take(v.deep_view().len() as int) =~= v.deep_view());
        // Equal multisets mean the same element set.
        out.deep_view().to_multiset_ensures();
        v.deep_view().to_multiset_ensures();
        assert forall|w: Seq<char>|
            out.deep_view().to_set().contains(w) <==> v.deep_view().to_set().contains(w) by {
            assert(out.deep_view().contains(w) <==> out.deep_view().to_multiset().count(w) > 0);
            assert(v.deep_view().contains(w) <==> v.deep_view().to_multiset().count(w) > 0);
        }
        assert(out.deep_view().to_set() =~= v.deep_view().to_set());
        if v.deep_view().no_duplicates() {
            v.deep_view().lemma_multiset_has_no_duplicates();
            out.deep_view().lemma_multiset_has_no_duplicates_conv();
        }
    }
    out
}

/// A common prefix of every word of the set.
pub open spec fn common_prefix_of(p: Seq<char>, ws: Set<Seq<char>>) -> bool {
    forall|w: Seq<char>| ws.contains(w) ==> p.is_prefix_of(w)
}

/// The longest common prefix of the words of the set.
pub open spec fn is_longest_common_prefix(p: Seq<char>, ws: Set<Seq<char>>) -> bool {
    common_prefix_of(p, ws) && (forall|q: Seq<char>| common_prefix_of(q, ws) ==> q.len() <= p.len())
}

/// Whether every word agrees with character `c` at position `idx`.
fn all_agree_at(words: &Vec<String>, idx: usize, c: char) -> (r: bool)
    ensures
        r == forall|k: int|
            0 <= k < words@.len() ==> idx < words@[k]@.len() && words@[k]@[idx as int] == c,
{
    let mut k: usize = 0;
    while k < words.len()
        invariant
            k <= words@.len(),
            forall|j: int| 0 <= j < k ==> idx < words@[j]@.len() && words@[j]@[idx as int] == c,
        decreases words@.len() - k,
    {
        let w = &words[k];
        if idx >= w.as_str().unicode_len() {
            return false;
        }
        if w.as_str().get_char(idx) != c {
            return false;
        }
        k += 1;
    }
    true
}

/// Collects characters while every word agrees at each index: the longest
/// common prefix of one or more words.
pub fn longest_common_prefix(words: &Vec<String>) -> (r: Vec<char>)
    requires
        words@.len() >= 1,
    ensures
        is_longest_common_prefix(r@, words.deep_view().to_set()),
{
    let mut first = chars_of(words[0].as_str());
    let ghost w0 = words@[0]@;
    let mut idx: usize = 0;
    loop
        invariant_except_break
            words@.len() >= 1,
            first@ == w0,
            w0 == words@[0]@,
            idx <= first@.len(),
            forall|k: int|
                #![auto]
                0 <= k < words@.len() ==> (idx <= words@[k]@.len() && w0.take(idx as int)
                    == words@[k]@.subrange(0, idx as int)),
        ensures
            words@.len() >= 1,
            first@ == w0,
            w0 == words@[0]@,
            idx <= first@.len(),
            forall|k: int|
                #![auto]
                0 <= k < words@.len() ==> (idx <= words@[k]@.len() && w0.take(idx as int)
                    == words@[k]@.subrange(0, idx as int)),
            idx == w0.len() || exists|k: int|
                #![auto]
                0 <= k < words@.len() && !(idx < words@[k]@.len() && words@[k]@[idx as int]
                    == w0[idx as int]),
        decreases first@.len() - idx,
    {
        if idx == first.len() {
            break;
        }
        let c = first[idx];
        if !all_agree_at(words, idx, c) {
            break;
        }
        proof {
            assert forall|k: int|
                #![auto]
                0 <= k < words@.len() implies (idx + 1 <= words@[k]@.len() && w0.take(idx + 1)
                == words@[k]@.subrange(0, idx + 1)) by {
                assert(idx < words@[k]@.len() && words@[k]@[idx as int] == c);
                assert(w0.take(idx + 1) =~= words@[k]@.subrange(0, idx + 1));
            }
        }
        idx += 1;
    }
    first.truncate(idx);
    proof {
        assert(first@ =~= w0.take(idx as int));
        let ws = words.deep_view().to_set();
        assert forall|w: Seq<char>| ws.contains(w) implies first@.is_prefix_of(w) by {
            let k = choose|k: int| 0 <= k < words.deep_view().len() && words.deep_view()[k] == w;
            assert(words@[k]@ == w);
            assert(w0.take(idx as int) == w.subrange(0, idx as int));
            assert(first@ =~= w.subrange(0, first@.len() as int));
        }
        assert forall|q: Seq<char>| common_prefix_of(q, ws) implies q.len() <= idx by {
            assert(words.deep_view()[0] == w0);
            assert(words.deep_view().contains(w0));
            assert(ws.contains(w0));
            assert(q.is_prefix_of(w0));
            if q.len() > idx {
                assert(idx < w0.len());
                let k = choose|k: int|
                    #![auto]
                    0 <= k < words@.len() && !(idx < words@[k]@.len() && words@[k]@[idx as int]
                        == w0[idx as int]);
                let wk = words@[k]@;
                assert(words.deep_view()[k] == wk);
                assert(ws.contains(wk));
                assert(q.is_prefix_of(wk));
                assert(idx <= wk.len() && w0.take(idx as int) == wk.subrange(0, idx as int));
                // q reaches past idx in both words, so both agree at idx.
                assert(q[idx as int] == w0[idx as int]) by {
                    assert(q =~= w0.subrange(0, q.len() as int));
                }
                assert(q[idx as int] == wk[idx as int]) by {
                    assert(q =~= wk.subrange(0, q.len() as int));
                }
                assert(false);
            }
        }
    }
    first
}

/// One key event, as the editor sees it. The caller maps whatever the
/// terminal delivers (control combinations included) to these.
#[derive(Debug, Clone, Copy, PartialEq)]
pub enum KeyPress {
    Char(char),
    Backspace,
    Tab,
    Enter,
    Interrupt,
}

/// What the terminal must show after a keystroke. A redraw clears the
/// physical line and rewrites the prompt with the current buffer, so the
/// displayed line always reflects the buffer exactly.
#[derive(Debug, PartialEq)]
pub enum EditorReply {
    /// Nothing to do.
    Ignored,
    /// Echo this character.
    Echoed(char),
    /// Clear the line and redraw the prompt with the buffer.
    Redraw,
    /// Emit an audible bell.
    Bell,
    /// Redraw the prompt with the buffer, then emit a bell.
    RedrawBell,
    /// Print this sorted completion list on a fresh line, redraw the prompt
    /// with the buffer beneath it, and emit a bell.
    Completions(Vec<String>),
    /// The line was submitted: echo a newline and hand the line on.
    Submitted(String),
    /// End the whole session immediately.
    Terminated,
}

/// The state of one prompt cycle: the text typed so far, and how many
/// consecutive Tab presses have occurred without an intervening edit.
pub struct EditorState {
    pub line: Vec<char>,
    pub tab_count: u8,
}

/// The effect of one edit key on the buffer: a character is appended, a
/// backspace removes the last character of a non-empty buffer.
pub open spec fn apply_edit(buf: Seq<char>, key: KeyPress) -> Seq<char> {
    match key {
        KeyPress::Char(c) => buf.push(c),
        KeyPress::Backspace => if buf.len() > 0 {
            buf.drop_last()
        } else {
            buf
        },
        _ => buf,
    }
}

/// A key that edits the buffer.
pub open spec fn is_edit_key(key: KeyPress) -> bool {
    key is Char || key is Backspace
}

/// The buffer after a sequence of edit keys, applied in order.
pub open spec fn buffer_after_edits(buf: Seq<char>, keys: Seq<KeyPress>) -> Seq<char>
    decreases keys.len(),
{
    if keys.len() == 0 {
        buf
    } else {
        buffer_after_edits(apply_edit(buf, keys[0]), keys.drop_first())
    }
}

/// Law: one more edit key at the end of a sequence applies its effect to
/// the buffer the earlier keys produced. With `handle_key`'s contract,
/// which pins every single step to `apply_edit`, this gives that after any
/// sequence of character and backspace keys the buffer holds exactly the
/// characters inserted minus the characters removed, in order.
pub proof fn lemma_buffer_after_edits_snoc(buf: Seq<char>, keys: Seq<KeyPress>, key: KeyPress)
    ensures
        buffer_after_edits(buf, keys.push(key)) == apply_edit(buffer_after_edits(buf, keys), key),
    decreases keys.len(),
{
    reveal_with_fuel(buffer_after_edits, 2);
    if keys.len() == 0 {
        assert(keys.push(key)[0] == key);
        assert(keys.push(key).drop_first() =~= Seq::<KeyPress>::empty());
    } else {
        assert(keys.push(key)[0] == keys[0]);
        assert(keys.push(key).drop_first() =~= keys.drop_first().push(key));
        lemma_buffer_after_edits_snoc(apply_edit(buf, keys[0]), keys.drop_first(), key);
    }
}

/// The set has exactly this one element.
pub open spec fn single_completion(comps: Set<Seq<char>>, w: Seq<char>) -> bool {
    comps == Set::empty().insert(w)
}

/// The set is empty.
pub open spec fn no_completion(comps: Set<Seq<char>>) -> bool {
    comps == Set::<Seq<char>>::empty()
}

/// The set has at least two elements.
pub open spec fn multiple_completions(comps: Set<Seq<char>>) -> bool {
    exists|w1: Seq<char>, w2: Seq<char>| comps.contains(w1) && comps.contains(w2) && w1 != w2
}

/// The tab-cycle counter after one more consecutive Tab: it only ever needs
/// to distinguish the first press from a repeat.
pub open spec fn bump(t: u8) -> u8 {
    if t < 2 {
        (t + 1) as u8
    } else {
        t
    }
}

impl EditorState {
    /// A fresh prompt: empty buffer, no Tab pressed yet.
    pub fn new() -> (e: EditorState)
        ensures
            e.line@ == Seq::<char>::empty(),
            e.tab_count == 0,
    {
        EditorState { line: Vec::new(), tab_count: 0 }
    }

    /// The text typed so far, as a string.
    pub fn current_line(&self) -> (s: String)
        ensures
            s@ == self.line@,
    {
        string_from_chars(&self.line)
    }

    /// Processes one keystroke.
    ///
    /// - A printable character is appended and echoed; a backspace removes
    ///   the last character; both reset the tab cycle.
    /// - Enter submits the buffer; the interrupt combination ends the
    ///   session.
    /// - Tab queries the trie with the buffer as prefix: a single completion
    ///   replaces the buffer, with a trailing space; none gives a bell; with
    ///   several, the first press extends the buffer to the longest common
    ///   prefix when that makes progress, and a repeated press prints the
    ///   sorted completion list and resets the cycle.
    pub fn handle_key(&mut self, key: KeyPress, trie: &Trie) -> (r: EditorReply)
        requires
            trie.wf(),
        ensures
            is_edit_key(key) ==> final(self).line@ == apply_edit(old(self).line@, key)
                && final(self).tab_count == 0,
            key matches KeyPress::Char(c) ==> r == EditorReply::Echoed(c),
            key is Backspace ==> r == (if old(self).line@.len() > 0 {
                EditorReply::Redraw
            } else {
                EditorReply::Ignored
            }),
            key is Enter ==> (r matches EditorReply::Submitted(s) && (s@ == old(self).line@
                && (final(self).line@ == old(self).line@
                && final(self).tab_count == old(self).tab_count))),
            key is Interrupt ==> r == EditorReply::Terminated
                && final(self).line@ == old(self).line@
                && final(self).tab_count == old(self).tab_count,
            key is Tab ==> (forall|w: Seq<char>|
                single_completion(trie.completions_of(old(self).line@), w) ==> (final(self).line@
                    == w.push(' ') && (r == EditorReply::RedrawBell && final(self).tab_count
                    == bump(old(self).tab_count)))),
            key is Tab && no_completion(trie.completions_of(old(self).line@))
                ==> final(self).line@ == old(self).line@ && r == EditorReply::Bell
                && final(self).tab_count == bump(old(self).tab_count),
            key is Tab && multiple_completions(trie.completions_of(old(self).line@))
                && old(self).tab_count >= 1 ==> (r matches EditorReply::Completions(l)
                && (l.deep_view().to_set() == trie.completions_of(old(self).line@)
                && (sorted_le(l.deep_view()) && (l.deep_view().no_duplicates()
                && (final(self).line@ == old(self).line@ && final(self).tab_count == 0))))),
            key is Tab && multiple_completions(trie.completions_of(old(self).line@))
                && old(self).tab_count == 0 ==> (exists|p: Seq<char>|
                #![auto]
                is_longest_common_prefix(p, trie.completions_of(old(self).line@)) && (if p.len()
                    > old(self).line@.len() {
                    final(self).line@ == p && r == EditorReply::RedrawBell
                } else {
                    final(self).line@ == old(self).line@ && r == EditorReply::Bell
                })) && final(self).tab_count == 1,
    {
        match key {
            KeyPress::Char(c) => {
                self.line.push(c);
                self.tab_count = 0;
                EditorReply::Echoed(c)
            },
            KeyPress::Backspace => {
                self.tab_count = 0;
                if self.line.len() > 0 {
                    let _ = self.line.pop();
                    EditorReply::Redraw
                } else {
                    EditorReply::Ignored
                }
            },
            KeyPress::Enter => {
                let s = string_from_chars(&self.line);
                EditorReply::Submitted(s)
            },
            KeyPress::Interrupt => EditorReply::Terminated,
            KeyPress::Tab => {
                let ghost comps = trie.completions_of(self.line@);
                let old_tab = self.tab_count;
                let words = trie.completions(&self.line);
                let ghost dv = words.deep_view();
                if words.len() == 1 {
                    if self.tab_count < 2 {
                        self.tab_count = self.tab_count + 1;
                    }
                    let mut nl = chars_of(words[0].as_str());
                    nl.push(' ');
                    proof {
                        assert(dv =~= seq![dv[0]]);
                        assert forall|x: Seq<char>|
                            comps.contains(x) <==> Set::empty().insert(dv[0]).contains(x) by {
                            if comps.contains(x) {
                                assert(dv.contains(x));
                            }
                            if x == dv[0] {
                                assert(dv.contains(x));
                            }
                        }
                        assert(comps =~= Set::empty().insert(dv[0]));
                        assert forall|w: Seq<char>| single_completion(comps, w) implies w
                            == dv[0] by {
                            assert(Set::empty().insert(w).contains(dv[0]));
                        }
                        assert(!no_completion(comps)) by {
                            assert(comps.contains(dv[0]));
                        }
                        assert(!multiple_completions(comps)) by {
                            if multiple_completions(comps) {
                                let (w1, w2) = choose|w1: Seq<char>, w2: Seq<char>|
                                    comps.contains(w1) && comps.contains(w2) && w1 != w2;
                                assert(w1 == dv[0] && w2 == dv[0]);
                            }
                        }
                        assert(nl@ == dv[0].push(' '));
                    }
                    self.line = nl;
                    EditorReply::RedrawBell
                } else if words.len() == 0 {
                    if self.tab_count < 2 {
                        self.tab_count = self.tab_count + 1;
                    }
                    proof {
                        assert forall|x: Seq<char>| !comps.contains(x) by {
                            if comps.contains(x) {
                                assert(dv.contains(x));
                            }
                        }
                        assert(comps =~= Set::<Seq<char>>::empty());
                        assert forall|w: Seq<char>| !single_completion(comps, w) by {
                            if single_completion(comps, w) {
                                assert(comps.contains(w));
                            }
                        }
                    }
                    EditorReply::Bell
                } else {
                    proof {
                        assert(dv[0] != dv[1]);
                        assert(dv.contains(dv[0]) && dv.contains(dv[1]));
                        assert(comps.contains(dv[0]) && comps.contains(dv[1]));
                        assert(multiple_completions(comps));
                        assert forall|w: Seq<char>| !single_completion(comps, w) by {
                            if single_completion(comps, w) {
                                assert(comps.contains(dv[0]) && comps.contains(dv[1]));
                                assert(dv[0] == w && dv[1] == w);
                            }
                        }
                        assert(!no_completion(comps)) by {
                            assert(comps.contains(dv[0]));
                        }
                    }
                    if old_tab >= 1 {
                        self.tab_count = 0;
                        let sorted = sort_words(&words);
                        EditorReply::Completions(sorted)
                    } else {
                        self.tab_count = 1;
                        let p = longest_common_prefix(&words);
                        if p.len() > self.line.len() {
                            self.line = p;
                            EditorReply::RedrawBell
                        } else {
                            EditorReply::Bell
                        }
                    }
                }
            },
        }
    }
}

} // verus!
