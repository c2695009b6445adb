//! The prefix trie that stores the set of known command names and answers
//! prefix-completion queries.
use crate::text::push_char;
use crate::text::trim_str;
use crate::text::trimmed;
use vstd::prelude::*;

verus! {

struct TrieNode {
    children: Vec<(char, TrieNode)>,
    is_word: bool,
}

/// The words of `ws` that start with the prefix `p`.
pub open spec fn completions_of(ws: Set<Seq<char>>, p: Seq<char>) -> Set<Seq<char>> {
    ws.filter(|w: Seq<char>| p.is_prefix_of(w))
}

/// Every word of `ws`, with `p` prepended.
pub open spec fn prefixed(p: Seq<char>, ws: Set<Seq<char>>) -> Set<Seq<char>> {
    Set::new(
        |v: Seq<char>|
            p.len() <= v.len() && v.take(p.len() as int) == p && ws.contains(
                v.skip(p.len() as int),
            ),
    )
}

impl TrieNode {
    /// The words spelled by the paths from this node to terminal nodes.
    spec fn words(self) -> Set<Seq<char>>
        decreases self,
    {
        Set::new(
            |w: Seq<char>|
                (w.len() == 0 && self.is_word) || (w.len() > 0 && exists|k: int|
                    0 <= k < self.children@.len() && (#[trigger] self.children@[k]).0 == w[0]
                        && self.children@[k].1.words().contains(w.skip(1))),
        )
    }

    /// The children carry pairwise distinct characters, recursively.
    spec fn wf(self) -> bool
        decreases self,
    {
        (forall|i: int, j: int|
            0 <= i < j < self.children@.len() ==> (#[trigger] self.children@[i]).0 != (
            #[trigger] self.children@[j]).0) && (forall|i: int|
            0 <= i < self.children@.len() ==> (#[trigger] self.children@[i]).1.wf())
    }

    /// Some child carries the character `c`.
    spec fn has_child(self, c: char) -> bool {
        exists|k: int| 0 <= k < self.children@.len() && (#[trigger] self.children@[k]).0 == c
    }

    /// The child that carries the character `c`.
    spec fn child_at(self, c: char) -> TrieNode {
        self.children@[choose|k: int|
            0 <= k < self.children@.len() && (#[trigger] self.children@[k]).0 == c].1
    }

    /// In a well-formed node, membership of a non-empty word goes through the
    /// unique child carrying its first character.
    proof fn lemma_words_char(self, w: Seq<char>)
        requires
            self.wf(),
            w.len() > 0,
        ensures
            self.words().contains(w) <==> (self.has_child(w[0]) && self.child_at(w[0]).words().contains(
                w.skip(1),
            )),
    {
        if self.words().contains(w) {
            let k = choose|k: int|
                0 <= k < self.children@.len() && (#[trigger] self.children@[k]).0 == w[0]
                    && self.children@[k].1.words().contains(w.skip(1));
            let k2 = choose|k: int|
                0 <= k < self.children@.len() && (#[trigger] self.children@[k]).0 == w[0];
            assert(0 <= k2 < self.children@.len());
            if k != k2 {
                assert(self.children@[k].0 == self.children@[k2].0);
                assert(false);
            }
        }
    }

    fn new() -> (r: TrieNode)
        ensures
            r.wf(),
            r.words() == Set::<Seq<char>>::empty(),
            r.children@.len() == 0,
            !r.is_word,
    {
        let r = TrieNode { children: Vec::new(), is_word: false };
        proof {
            assert(r.words() =~= Set::<Seq<char>>::empty());
        }
        r
    }

    /// The index of the child carrying `c`, if there is one.
    fn find_child(&self, c: char) -> (r: Option<usize>)
        ensures
            match r {
                Some(k) => k < self.children@.len() && self.children@[k as int].0 == c,
                None => !self.has_child(c),
            },
    {
        let n = self.children.len();
        let mut k: usize = 0;
        while k < n
            invariant
                n == self.children@.len(),
                0 <= k <= n,
                forall|j: int| 0 <= j < k ==> (#[trigger] self.children@[j]).0 != c,
            decreases n - k,
        {
            if self.children[k].0 == c {
                return Some(k);
            }
            k = k + 1;
        }
        None
    }

    /// Add the suffix of `word` that starts at position `i` below this node.
    fn insert_at(&mut self, word: &str, i: usize)
        requires
            old(self).wf(),
            i <= word@.len(),
        ensures
            final(self).wf(),
            final(self).words() == old(self).words().insert(word@.skip(i as int)),
        decreases word@.len() - i,
    {
        let n = word.unicode_len();
        let ghost suffix = word@.skip(i as int);
        if i == n {
            self.is_word = true;
            proof {
                assert(suffix =~= Seq::<char>::empty());
                assert(self.children == old(self).children);
                assert forall|w: Seq<char>| self.words().contains(w) <==> old(
                    self,
                ).words().insert(suffix).contains(w) by {
                    if w.len() == 0 {
                        assert(w =~= suffix);
                    }
                }
                assert(self.words() =~= old(self).words().insert(suffix));
                assert(self.wf());
            }
        } else {
            let c = word.get_char(i);
            proof {
                assert(suffix[0] == c);
                assert(suffix.skip(1) =~= word@.skip(i + 1));
            }
            let k = match self.find_child(c) {
                Some(k) => k,
                None => {
                    let k = self.children.len();
                    let ghost pre = self.children@;
                    self.children.push((c, TrieNode::new()));
                    proof {
                        assert(self.children@.len() == pre.len() + 1);
                        assert forall|w: Seq<char>| self.words().contains(w) <==> old(
                            self,
                        ).words().contains(w) by {
                            if w.len() > 0 {
                                Self::lemma_member_extend(*old(self), *self, w);
                            }
                        }
                        assert(self.words() =~= old(self).words());
                        assert(self.wf());
                    }
                    k
                },
            };
            let ghost mid = *self;
            let pair = self.children.remove(k);
            let mut child = pair.1;
            let ghost child0 = child;
            child.insert_at(word, i + 1);
            self.children.insert(k, (c, child));
            proof {
                assert(self.children@ =~= mid.children@.update(k as int, (c, child)));
                assert(self.is_word == mid.is_word);
                Self::lemma_update_child(mid, *self, k as int, c, child0, child, suffix);
                assert(self.words() =~= old(self).words().insert(suffix));
            }
        }
    }

    /// The words reachable through the first `k` children, plus the empty
    /// word where this node is terminal.
    spec fn words_upto(self, k: int) -> Set<Seq<char>> {
        Set::new(
            |w: Seq<char>|
                (w.len() == 0 && self.is_word) || (w.len() > 0 && exists|j: int|
                    0 <= j < k && j < self.children@.len() && (#[trigger] self.children@[j]).0
                        == w[0] && self.children@[j].1.words().contains(w.skip(1))),
        )
    }

    /// Append `prefix + w` to `results`, for every word `w` below this node,
    /// each exactly once.
    fn collect_words(&self, prefix: &String, results: &mut Vec<String>)
        requires
            self.wf(),
        ensures
            old(results)@.len() <= final(results)@.len(),
            final(results).deep_view().take(old(results)@.len() as int) == old(
                results,
            ).deep_view(),
            final(results).deep_view().skip(old(results)@.len() as int).no_duplicates(),
            final(results).deep_view().skip(old(results)@.len() as int).to_set() == prefixed(
                prefix@,
                self.words(),
            ),
        decreases *self,
    {
        let ghost base = results@.len() as int;
        if self.is_word {
            results.push(prefix.clone());
        }
        proof {
            let added = results.deep_view().skip(base);
            assert(results.deep_view().take(base) =~= old(results).deep_view());
            if self.is_word {
                assert(added =~= seq![prefix@]);
                assert(prefix@.take(prefix@.len() as int) =~= prefix@);
                assert(prefix@.skip(prefix@.len() as int) =~= Seq::<char>::empty());
                assert forall|v: Seq<char>| added.to_set().contains(v) <==> prefixed(
                    prefix@,
                    self.words_upto(0),
                ).contains(v) by {
                    if added.to_set().contains(v) {
                        assert(added.contains(v));
                        assert(v == prefix@);
                    }
                    if prefixed(prefix@, self.words_upto(0)).contains(v) {
                        assert(v.skip(prefix@.len() as int).len() == 0);
                        assert(v =~= prefix@);
                        assert(added[0] == v);
                        assert(added.contains(v));
                    }
                }
                assert(added.to_set() =~= prefixed(prefix@, self.words_upto(0)));
            } else {
                assert(added =~= Seq::<Seq<char>>::empty());
                assert(added.to_set() =~= prefixed(prefix@, self.words_upto(0)));
            }
        }
        let n = self.children.len();
        let mut k: usize = 0;
        while k < n
            invariant
                self.wf(),
                n == self.children@.len(),
                0 <= k <= n,
                base <= results@.len(),
                results.deep_view().take(base) == old(results).deep_view(),
                base == old(results)@.len(),
                results.deep_view().skip(base).no_duplicates(),
                results.deep_view().skip(base).to_set() == prefixed(
                    prefix@,
                    self.words_upto(k as int),
                ),
            decreases n - k,
        {
            let c = self.children[k].0;
            let child = &self.children[k].1;
            let mut p2 = prefix.clone();
            push_char(&mut p2, c);
            let ghost mid_dv = results.deep_view();
            let ghost mid_len = results@.len() as int;
            proof {
                assert(decreases_to!(*self => self.children));
                assert(decreases_to!(self.children => self.children@));
                assert(decreases_to!(self.children@ => self.children@[k as int]));
                assert(decreases_to!(self.children@[k as int] => self.children@[k as int].1));
            }
            child.collect_words(&p2, results);
            proof {
                let dv = results.deep_view();
                let added_old = mid_dv.skip(base);
                let added_new = dv.skip(mid_len);
                assert(dv.take(mid_len) == mid_dv);
                assert(dv.take(base) =~= mid_dv.take(base));
                assert(dv.skip(base) =~= added_old + added_new) by {
                    assert(dv.skip(base).len() == dv.len() - base);
                    assert forall|m: int| 0 <= m < dv.len() - base implies dv.skip(base)[m] == (
                    added_old + added_new)[m] by {
                        if m < mid_len - base {
                            assert(dv.take(mid_len)[m + base] == dv[m + base]);
                        }
                    }
                }
                assert(p2@ == prefix@.push(c));
                Self::lemma_prefixed_step(*self, k as int, prefix@, c);
                assert(forall|i: int, j: int|
                    0 <= i < added_old.len() && 0 <= j < added_new.len() ==> added_old[i]
                        != added_new[j]) by {
                    assert forall|i: int, j: int|
                        0 <= i < added_old.len() && 0 <= j < added_new.len() implies added_old[i]
                        != added_new[j] by {
                        assert(added_old.to_set().contains(added_old[i]));
                        assert(added_new.to_set().contains(added_new[j]));
                    }
                }
                vstd::seq_lib::lemma_no_dup_in_concat(added_old, added_new);
                assert(dv.skip(base).to_set() =~= prefixed(prefix@, self.words_upto(k + 1))) by {
                    assert forall|v: Seq<char>| dv.skip(base).to_set().contains(v) implies prefixed(
                        prefix@,
                        self.words_upto(k + 1),
                    ).contains(v) by {
                        assert(dv.skip(base).contains(v));
                        let m = choose|m: int|
                            0 <= m < dv.skip(base).len() && dv.skip(base)[m] == v;
                        if m < added_old.len() {
                            assert(added_old[m] == v);
                            assert(added_old.to_set().contains(v));
                        } else {
                            assert(added_new[m - added_old.len()] == v);
                            assert(added_new.to_set().contains(v));
                        }
                    }
                    assert forall|v: Seq<char>|
                        prefixed(prefix@, self.words_upto(k + 1)).contains(v) implies dv.skip(
                        base,
                    ).to_set().contains(v) by {
                        assert(prefixed(prefix@, self.words_upto(k as int)).contains(v) || prefixed(
                            p2@,
                            child.words(),
                        ).contains(v));
                        if prefixed(prefix@, self.words_upto(k as int)).contains(v) {
                            assert(added_old.contains(v));
                            let m = choose|m: int|
                                0 <= m < added_old.len() && added_old[m] == v;
                            assert(dv.skip(base)[m] == v);
                            assert(dv.skip(base).contains(v));
                        } else {
                            assert(added_new.contains(v));
                            let m = choose|m: int|
                                0 <= m < added_new.len() && added_new[m] == v;
                            assert(dv.skip(base)[added_old.len() + m] == v);
                            assert(dv.skip(base).contains(v));
                        }
                    }
                }
            }
            k = k + 1;
        }
        proof {
            assert(self.words_upto(n as int) =~= self.words());
        }
    }

    /// One more child extends the collected set by that child's words, and
    /// the two parts are disjoint.
    proof fn lemma_prefixed_step(node: TrieNode, k: int, p: Seq<char>, c: char)
        requires
            node.wf(),
            0 <= k < node.children@.len(),
            node.children@[k].0 == c,
        ensures
            forall|v: Seq<char>|
                prefixed(p, node.words_upto(k + 1)).contains(v) <==> (prefixed(
                    p,
                    node.words_upto(k),
                ).contains(v) || #[trigger] prefixed(p.push(c), node.children@[k].1.words()).contains(
                    v,
                )),
            forall|v: Seq<char>|
                !(prefixed(p, node.words_upto(k)).contains(v) && #[trigger] prefixed(
                    p.push(c),
                    node.children@[k].1.words(),
                ).contains(v)),
    {
        let p2 = p.push(c);
        assert(p2.len() == p.len() + 1);
        assert forall|v: Seq<char>|
            prefixed(p, node.words_upto(k + 1)).contains(v) <==> (prefixed(
                p,
                node.words_upto(k),
            ).contains(v) || #[trigger] prefixed(p2, node.children@[k].1.words()).contains(
                v,
            )) by {
            if prefixed(p, node.words_upto(k + 1)).contains(v) {
                let w = v.skip(p.len() as int);
                assert(node.words_upto(k + 1).contains(w));
                if w.len() == 0 {
                    assert(prefixed(p, node.words_upto(k)).contains(v));
                } else {
                    let j = choose|j: int|
                        0 <= j < k + 1 && j < node.children@.len() && (
                        #[trigger] node.children@[j]).0 == w[0]
                            && node.children@[j].1.words().contains(w.skip(1));
                    if j < k {
                        assert(prefixed(p, node.words_upto(k)).contains(v));
                    } else {
                        assert(j == k && w[0] == c);
                        assert(v.take(p2.len() as int) =~= p2) by {
                            assert(v.take(p.len() as int) == p);
                            assert(v[p.len() as int] == w[0]);
                        }
                        assert(v.skip(p2.len() as int) =~= w.skip(1));
                        assert(prefixed(p2, node.children@[k].1.words()).contains(v));
                    }
                }
            }
            if prefixed(p, node.words_upto(k)).contains(v) {
                let w = v.skip(p.len() as int);
                assert(node.words_upto(k).contains(w));
                assert(node.words_upto(k + 1).contains(w));
                assert(prefixed(p, node.words_upto(k + 1)).contains(v));
            }
            if prefixed(p2, node.children@[k].1.words()).contains(v) {
                let w = v.skip(p.len() as int);
                assert(v.take(p.len() as int) =~= p) by {
                    assert(forall|m: int|
                        0 <= m < p.len() ==> v.take(p2.len() as int)[m] == #[trigger] v[m]);
                    assert(forall|m: int| 0 <= m < p.len() ==> p2[m] == #[trigger] p[m]);
                }
                assert(w.len() > 0);
                assert(w[0] == c) by {
                    assert(v[p.len() as int] == p2[p.len() as int]);
                }
                assert(w.skip(1) =~= v.skip(p2.len() as int));
                assert(node.words_upto(k + 1).contains(w));
                assert(prefixed(p, node.words_upto(k + 1)).contains(v));
            }
        }
        assert forall|v: Seq<char>|
            !(prefixed(p, node.words_upto(k)).contains(v) && #[trigger] prefixed(
                p2,
                node.children@[k].1.words(),
            ).contains(v)) by {
            if prefixed(p, node.words_upto(k)).contains(v) && prefixed(
                p2,
                node.children@[k].1.words(),
            ).contains(v) {
                let w = v.skip(p.len() as int);
                assert(node.words_upto(k).contains(w));
                assert(w.len() > 0 && w[0] == c) by {
                    assert(v[p.len() as int] == p2[p.len() as int]);
                }
                let j = choose|j: int|
                    0 <= j < k && j < node.children@.len() && (#[trigger] node.children@[j]).0
                        == w[0] && node.children@[j].1.words().contains(w.skip(1));
                assert(node.children@[j].0 == node.children@[k].0);
                assert(false);
            }
        }
    }

    /// Appending a fresh, empty child changes no membership.
    proof fn lemma_member_extend(pre: TrieNode, post: TrieNode, w: Seq<char>)
        requires
            w.len() > 0,
            post.is_word == pre.is_word,
            post.children@.len() == pre.children@.len() + 1,
            forall|j: int|
                0 <= j < pre.children@.len() ==> post.children@[j] == #[trigger] pre.children@[j],
            post.children@.last().1.words() == Set::<Seq<char>>::empty(),
        ensures
            post.words().contains(w) <==> pre.words().contains(w),
    {
        if post.words().contains(w) {
            let k = choose|k: int|
                0 <= k < post.children@.len() && (#[trigger] post.children@[k]).0 == w[0]
                    && post.children@[k].1.words().contains(w.skip(1));
            assert(post.children@.last() == post.children@[post.children@.len() - 1]);
            assert(k < pre.children@.len());
            assert((pre.children@[k]).0 == w[0]);
            assert(pre.words().contains(w));
        }
        if pre.words().contains(w) {
            let k = choose|k: int|
                0 <= k < pre.children@.len() && (#[trigger] pre.children@[k]).0 == w[0]
                    && pre.children@[k].1.words().contains(w.skip(1));
            assert((post.children@[k]).0 == w[0]);
            assert(post.words().contains(w));
        }
    }

    /// Replacing the unique child that carries `c` by one whose words gained
    /// `suffix.skip(1)` adds exactly `suffix` to the node's words.
    proof fn lemma_update_child(
        pre: TrieNode,
        post: TrieNode,
        k: int,
        c: char,
        old_child: TrieNode,
        new_child: TrieNode,
        suffix: Seq<char>,
    )
        requires
            pre.wf(),
            new_child.wf(),
            0 <= k < pre.children@.len(),
            pre.children@[k].0 == c,
            pre.children@[k].1 == old_child,
            post.is_word == pre.is_word,
            post.children@ == pre.children@.update(k, (c, new_child)),
            suffix.len() > 0,
            suffix[0] == c,
            new_child.words() == old_child.words().insert(suffix.skip(1)),
        ensures
            post.wf(),
            post.words() == pre.words().insert(suffix),
    {
        assert(post.children@.len() == pre.children@.len());
        assert forall|j: int| 0 <= j < post.children@.len() implies (#[trigger] post.children@[j]).0
            == pre.children@[j].0 by {}
        assert(post.wf());
        assert forall|w: Seq<char>| post.words().contains(w) <==> pre.words().insert(
            suffix,
        ).contains(w) by {
            if w.len() == 0 {
                assert(w != suffix);
            } else {
                pre.lemma_words_char(w);
                post.lemma_words_char(w);
                if w[0] == c {
                    assert(pre.has_child(c));
                    assert(post.has_child(c)) by {
                        assert((post.children@[k]).0 == c);
                    }
                    assert(pre.child_at(c) == old_child) by {
                        let k2 = choose|j: int|
                            0 <= j < pre.children@.len() && (#[trigger] pre.children@[j]).0 == c;
                        if k2 != k {
                            assert(pre.children@[k2].0 == pre.children@[k].0);
                        }
                    }
                    assert(post.child_at(c) == new_child) by {
                        let k2 = choose|j: int|
                            0 <= j < post.children@.len() && (#[trigger] post.children@[j]).0 == c;
                        if k2 != k {
                            assert(post.children@[k2].0 == post.children@[k].0);
                        }
                    }
                    if w == suffix {
                        assert(new_child.words().contains(suffix.skip(1)));
                        assert(post.words().contains(w));
                    } else {
                        assert(w.skip(1) != suffix.skip(1)) by {
                            if w.skip(1) == suffix.skip(1) {
                                assert(w.skip(1).len() == w.len() - 1);
                                assert(suffix.skip(1).len() == suffix.len() - 1);
                                assert forall|m: int| 0 <= m < w.len() implies w[m] == suffix[m] by {
                                    if m >= 1 {
                                        assert(w.skip(1)[m - 1] == w[m]);
                                        assert(suffix.skip(1)[m - 1] == suffix[m]);
                                    }
                                }
                                assert(w =~= suffix);
                            }
                        }
                    }
                } else {
                    assert(w != suffix);
                    assert(pre.has_child(w[0]) <==> post.has_child(w[0])) by {
                        if pre.has_child(w[0]) {
                            let j = choose|j: int|
                                0 <= j < pre.children@.len() && (#[trigger] pre.children@[j]).0
                                    == w[0];
                            assert((post.children@[j]).0 == w[0]);
                        }
                        if post.has_child(w[0]) {
                            let j = choose|j: int|
                                0 <= j < post.children@.len() && (#[trigger] post.children@[j]).0
                                    == w[0];
                            assert((pre.children@[j]).0 == w[0]);
                        }
                    }
                    if pre.has_child(w[0]) {
                        assert(pre.child_at(w[0]) == post.child_at(w[0])) by {
                            let j = choose|j: int|
                                0 <= j < pre.children@.len() && (#[trigger] pre.children@[j]).0
                                    == w[0];
                            let j2 = choose|j: int|
                                0 <= j < post.children@.len() && (#[trigger] post.children@[j]).0
                                    == w[0];
                            assert(j != k && j2 != k);
                            if j != j2 {
                                assert((pre.children@[j]).0 == (pre.children@[j2]).0);
                            }
                        }
                    }
                }
            }
        }
        assert(post.words() =~= pre.words().insert(suffix));
    }
}

/// `s` is the only member of `ws`.
pub open spec fn is_only_member(s: Seq<char>, ws: Set<Seq<char>>) -> bool {
    ws.contains(s) && forall|w: Seq<char>| #[trigger] ws.contains(w) ==> w == s
}

/// Completing the empty prefix returns every stored word.
pub proof fn lemma_completions_empty_prefix(ws: Set<Seq<char>>)
    ensures
        completions_of(ws, Seq::<char>::empty()) == ws,
{
    assert forall|w: Seq<char>| ws.contains(w) implies Seq::<char>::empty().is_prefix_of(w) by {
        assert(w.subrange(0, 0) =~= Seq::<char>::empty());
    }
    assert(completions_of(ws, Seq::<char>::empty()) =~= ws);
}

/// Inserting a word that is already stored changes nothing, so a second
/// insertion of the same word cannot duplicate it.
pub proof fn lemma_insert_idempotent(ws: Set<Seq<char>>, w: Seq<char>)
    requires
        ws.contains(w),
    ensures
        ws.insert(w) == ws,
{
    assert(ws.insert(w) =~= ws);
}

impl TrieNode {
    /// Descending along `q`'s first character keeps exactly the completions
    /// of `q`, with that character re-attached.
    proof fn lemma_walk_step(self, q: Seq<char>)
        requires
            self.wf(),
            q.len() > 0,
            self.has_child(q[0]),
        ensures
            completions_of(self.words(), q) == prefixed(
                seq![q[0]],
                completions_of(self.child_at(q[0]).words(), q.skip(1)),
            ),
    {
        let c = q[0];
        let child = self.child_at(c);
        assert forall|v: Seq<char>| completions_of(self.words(), q).contains(v) <==> prefixed(
            seq![c],
            completions_of(child.words(), q.skip(1)),
        ).contains(v) by {
            if completions_of(self.words(), q).contains(v) {
                assert(self.words().contains(v) && q.is_prefix_of(v));
                assert(v.len() >= q.len() > 0);
                assert(v[0] == q[0]) by {
                    assert(v.subrange(0, q.len() as int)[0] == v[0]);
                }
                self.lemma_words_char(v);
                assert(child.words().contains(v.skip(1)));
                assert(q.skip(1).is_prefix_of(v.skip(1))) by {
                    assert(q.skip(1) =~= v.skip(1).subrange(0, q.len() - 1)) by {
                        assert(forall|m: int|
                            0 <= m < q.len() - 1 ==> v.skip(1)[m] == #[trigger] v[m + 1]);
                        assert(forall|m: int|
                            0 <= m < q.len() ==> v.subrange(0, q.len() as int)[m] == #[trigger] v[m]);
                    }
                }
                assert(v.take(1) =~= seq![c]);
                assert(prefixed(seq![c], completions_of(child.words(), q.skip(1))).contains(v));
            }
            if prefixed(seq![c], completions_of(child.words(), q.skip(1))).contains(v) {
                assert(v.len() >= 1 && v.take(1) == seq![c]);
                assert(v[0] == c) by {
                    assert(v.take(1)[0] == v[0]);
                }
                assert(child.words().contains(v.skip(1)) && q.skip(1).is_prefix_of(v.skip(1)));
                self.lemma_words_char(v);
                assert(self.words().contains(v));
                assert(q.is_prefix_of(v)) by {
                    assert(q =~= v.subrange(0, q.len() as int)) by {
                        assert(forall|m: int|
                            1 <= m < q.len() ==> v.skip(1).subrange(0, q.len() - 1)[m - 1]
                                == #[trigger] v[m]);
                        assert(forall|m: int|
                            1 <= m < q.len() ==> q.skip(1)[m - 1] == #[trigger] q[m]);
                        assert(forall|m: int|
                            0 <= m < q.len() ==> v.subrange(0, q.len() as int)[m] == #[trigger] v[m]);
                    }
                }
                assert(completions_of(self.words(), q).contains(v));
            }
        }
        assert(completions_of(self.words(), q) =~= prefixed(
            seq![c],
            completions_of(child.words(), q.skip(1)),
        ));
    }

    /// Where no edge matches the next character, nothing completes `q`.
    proof fn lemma_walk_dead_end(self, q: Seq<char>)
        requires
            self.wf(),
            q.len() > 0,
            !self.has_child(q[0]),
        ensures
            completions_of(self.words(), q) == Set::<Seq<char>>::empty(),
    {
        assert forall|v: Seq<char>| !completions_of(self.words(), q).contains(v) by {
            if completions_of(self.words(), q).contains(v) {
                assert(v.len() >= q.len() > 0);
                assert(v[0] == q[0]) by {
                    assert(v.subrange(0, q.len() as int)[0] == v[0]);
                }
                self.lemma_words_char(v);
                assert(false);
            }
        }
        assert(completions_of(self.words(), q) =~= Set::<Seq<char>>::empty());
    }
}

/// Attaching prefixes one character at a time composes.
proof fn lemma_prefixed_compose(p: Seq<char>, c: char, ws: Set<Seq<char>>)
    ensures
        prefixed(p, prefixed(seq![c], ws)) == prefixed(p.push(c), ws),
{
    let pc = p.push(c);
    assert forall|v: Seq<char>| prefixed(p, prefixed(seq![c], ws)).contains(v) <==> prefixed(
        pc,
        ws,
    ).contains(v) by {
        if prefixed(p, prefixed(seq![c], ws)).contains(v) {
            let w = v.skip(p.len() as int);
            assert(w.len() >= 1 && w.take(1) == seq![c] && ws.contains(w.skip(1)));
            assert(v.take(pc.len() as int) =~= pc) by {
                assert(forall|m: int|
                    0 <= m < p.len() ==> v.take(p.len() as int)[m] == #[trigger] v[m]);
                assert(w.take(1)[0] == w[0]);
                assert(w[0] == v[p.len() as int]);
            }
            assert(v.skip(pc.len() as int) =~= w.skip(1));
            assert(prefixed(pc, ws).contains(v));
        }
        if prefixed(pc, ws).contains(v) {
            let w = v.skip(p.len() as int);
            assert(v.take(p.len() as int) =~= p) by {
                assert(forall|m: int|
                    0 <= m < pc.len() ==> v.take(pc.len() as int)[m] == #[trigger] v[m]);
            }
            assert(w.len() >= 1);
            assert(w.take(1) =~= seq![c]) by {
                assert(w[0] == v[p.len() as int]);
                assert(v.take(pc.len() as int)[p.len() as int] == v[p.len() as int]);
            }
            assert(w.skip(1) =~= v.skip(pc.len() as int));
            assert(ws.contains(w.skip(1)));
            assert(prefixed(seq![c], ws).contains(w));
            assert(prefixed(p, prefixed(seq![c], ws)).contains(v));
        }
    }
    assert(prefixed(p, prefixed(seq![c], ws)) =~= prefixed(pc, ws));
}

/// The set of command names known for completion, stored as a tree that
/// shares common prefixes.
pub struct Trie {
    root: TrieNode,
}

impl View for Trie {
    type V = Set<Seq<char>>;

    /// The set of words stored in the trie.
    closed spec fn view(&self) -> Set<Seq<char>> {
        self.root.words()
    }
}

impl Trie {
    /// The structural invariant: edges below one node are pairwise distinct.
    pub closed spec fn wf(self) -> bool {
        self.root.wf()
    }

    /// An empty trie.
    pub fn new() -> (r: Trie)
        ensures
            r.wf(),
            r@ == Set::<Seq<char>>::empty(),
    {
        Trie { root: TrieNode::new() }
    }

    /// Store `word`, trimmed of surrounding whitespace.  Inserting a word
    /// that is already present leaves the trie unchanged.
    pub fn insert(&mut self, word: &str)
        requires
            old(self).wf(),
        ensures
            final(self).wf(),
            final(self)@ == old(self)@.insert(trimmed(word@)),
    {
        let w = trim_str(word);
        proof {
            assert(w@.skip(0) =~= w@);
        }
        self.root.insert_at(w.as_str(), 0);
    }

    /// All stored words that start with `prefix`, each exactly once.
    pub fn find_completions(&self, prefix: &str) -> (r: Vec<String>)
        requires
            self.wf(),
        ensures
            r.deep_view().no_duplicates(),
            r.deep_view().to_set() == completions_of(self@, prefix@),
    {
        let mut results: Vec<String> = Vec::new();
        let n = prefix.unicode_len();
        let mut d: usize = 0;
        let mut cur: &TrieNode = &self.root;
        proof {
            assert(prefix@.take(0) =~= Seq::<char>::empty());
            assert(prefix@.skip(0) =~= prefix@);
            assert forall|v: Seq<char>|
                prefixed(Seq::<char>::empty(), completions_of(cur.words(), prefix@)).contains(v)
                    <==> completions_of(self@, prefix@).contains(v) by {
                assert(v.take(0) =~= Seq::<char>::empty());
                assert(v.skip(0) =~= v);
            }
            assert(completions_of(self@, prefix@) =~= prefixed(
                prefix@.take(0),
                completions_of(cur.words(), prefix@.skip(0)),
            ));
        }
        while d < n
            invariant
                n == prefix@.len(),
                0 <= d <= n,
                results@.len() == 0,
                cur.wf(),
                completions_of(self@, prefix@) == prefixed(
                    prefix@.take(d as int),
                    completions_of(cur.words(), prefix@.skip(d as int)),
                ),
            decreases n - d,
        {
            let c = prefix.get_char(d);
            let ghost q = prefix@.skip(d as int);
            proof {
                assert(q[0] == c);
            }
            match cur.find_child(c) {
                Some(k) => {
                    proof {
                        assert(cur.has_child(c)) by {
                            assert((cur.children@[k as int]).0 == c);
                        }
                        cur.lemma_walk_step(q);
                        assert(cur.child_at(c) == cur.children@[k as int].1) by {
                            let k2 = choose|j: int|
                                0 <= j < cur.children@.len() && (#[trigger] cur.children@[j]).0
                                    == c;
                            if k2 != k {
                                assert(cur.children@[k2].0 == cur.children@[k as int].0);
                            }
                        }
                        lemma_prefixed_compose(
                            prefix@.take(d as int),
                            c,
                            completions_of(cur.children@[k as int].1.words(), q.skip(1)),
                        );
                        assert(prefix@.take(d as int).push(c) =~= prefix@.take(d + 1));
                        assert(q.skip(1) =~= prefix@.skip(d + 1));
                    }
                    cur = &cur.children[k].1;
                    d = d + 1;
                },
                None => {
                    proof {
                        assert(results.deep_view().len() == 0);
                        cur.lemma_walk_dead_end(q);
                        assert forall|v: Seq<char>|
                            !completions_of(self@, prefix@).contains(v) by {
                            if completions_of(self@, prefix@).contains(v) {
                                assert(prefixed(
                                    prefix@.take(d as int),
                                    Set::<Seq<char>>::empty(),
                                ).contains(v));
                            }
                        }
                        assert(results.deep_view().to_set() =~= completions_of(self@, prefix@));
                    }
                    return results;
                },
            }
        }
        let p = String::from_str(prefix);
        cur.collect_words(&p, &mut results);
        proof {
            assert(prefix@.take(n as int) =~= prefix@);
            assert(prefix@.skip(n as int) =~= Seq::<char>::empty());
            lemma_completions_empty_prefix(cur.words());
            assert(results.deep_view().skip(0) =~= results.deep_view());
            assert(results.deep_view().to_set() == completions_of(self@, prefix@));
        }
        results
    }

    /// The single stored word that starts with `prefix`, where exactly one
    /// such word exists.
    pub fn get_single_completion(&self, prefix: &str) -> (r: Option<String>)
        requires
            self.wf(),
        ensures
            match r {
                Some(s) => is_only_member(s@, completions_of(self@, prefix@)),
                None => forall|s: Seq<char>|
                    !is_only_member(s, completions_of(self@, prefix@)),
            },
    {
        let completions = self.find_completions(prefix);
        let ghost dv = completions.deep_view();
        let ghost cs = completions_of(self@, prefix@);
        if completions.len() == 1 {
            let s = completions[0].clone();
            proof {
                assert(dv.contains(dv[0]));
                assert(cs.contains(s@));
                assert forall|w: Seq<char>| cs.contains(w) implies w == s@ by {
                    assert(dv.contains(w));
                    let m = choose|m: int| 0 <= m < dv.len() && dv[m] == w;
                    assert(m == 0);
                }
            }
            Some(s)
        } else {
            proof {
                assert forall|s: Seq<char>| !is_only_member(s, cs) by {
                    if is_only_member(s, cs) {
                        if completions@.len() == 0 {
                            assert(dv.contains(s));
                        } else {
                            assert(dv.contains(dv[0]));
                            assert(dv.contains(dv[1]));
                            assert(cs.contains(dv[0]) && cs.contains(dv[1]));
                            assert(dv[0] == s && dv[1] == s);
                        }
                    }
                }
            }
            None
        }
    }
}

} // verus!
