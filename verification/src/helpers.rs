//! The completion controller: it owns the trie of known names and drives the
//! two-phase disambiguation protocol (extend, then alert, then list).
use crate::text::common_prefix_of;
use crate::text::lex_sorted;
use crate::text::max_common_prefix;
use crate::text::sort_strings;
use crate::text::split_whitespace;
use crate::text::split_ws;
use crate::text::str_eq;
use crate::text::trimmed;
use crate::trie::completions_of;
use crate::trie::Trie;
use vstd::prelude::*;

verus! {

/// What the line editor should do after a completion request.
#[derive(Debug)]
pub enum CompletionAction {
    /// Nothing completes the word: leave the line unchanged.
    NoMatch,
    /// A single match: replace the word with it, plus a trailing space.
    Replace(String),
    /// Several matches share a longer prefix: replace the word with that
    /// prefix, without a trailing space.
    Extend(String),
    /// Several matches and no silent extension: ring the bell.
    Alert,
    /// The same word was queried twice in a row: show every candidate.
    ListAll(Vec<String>),
}

/// `cs` lists the members of `ws`, each once, in lexicographic order.
pub open spec fn is_sorted_list_of(cs: Seq<Seq<char>>, ws: Set<Seq<char>>) -> bool {
    lex_sorted(cs) && cs.no_duplicates() && cs.to_set() == ws
}

/// The disambiguation protocol, given the sorted candidate list `cs` for the
/// queried word `w`, the stored pending state, the action taken, and the new
/// pending state.
pub open spec fn step_with(
    cs: Seq<Seq<char>>,
    w: Seq<char>,
    pending0: Option<(Seq<char>, Seq<Seq<char>>)>,
    r: CompletionAction,
    pending1: Option<(Seq<char>, Seq<Seq<char>>)>,
) -> bool {
    if cs.len() == 0 {
        &&& r is NoMatch
        &&& pending1 is None
    } else if cs.len() == 1 {
        &&& r matches CompletionAction::Replace(t) && t@ == cs[0] + " "@
        &&& pending1 is None
    } else if exists|q: Seq<char>| #[trigger] common_prefix_of(q, cs) && q.len() > w.len() {
        &&& r matches CompletionAction::Extend(t) && max_common_prefix(t@, cs)
        &&& pending1 is None
    } else if pending0 matches Some(p) && p.0 == w {
        &&& r matches CompletionAction::ListAll(v) && v.deep_view() == cs
        &&& pending1 is None
    } else {
        &&& r is Alert
        &&& pending1 == Some((w, cs))
    }
}

/// One completion request: the stored words, the queried word, the pending
/// state before and after, and the action, are related by the protocol run
/// on the sorted candidate list.
pub open spec fn controller_step(
    words: Set<Seq<char>>,
    w: Seq<char>,
    pending0: Option<(Seq<char>, Seq<Seq<char>>)>,
    r: CompletionAction,
    pending1: Option<(Seq<char>, Seq<Seq<char>>)>,
) -> bool {
    exists|cs: Seq<Seq<char>>|
        #[trigger] is_sorted_list_of(cs, completions_of(words, w)) && step_with(
            cs,
            w,
            pending0,
            r,
            pending1,
        )
}

/// The completion engine handed to the line editor: the trie of known names,
/// the once-per-process load flag for search-path executables, and the
/// pending state of the disambiguation protocol.
pub struct ShellHelper {
    pub trie: Trie,
    pub path_executable_loaded: bool,
    pub last_completion_context: Option<(String, Vec<String>)>,
}

impl ShellHelper {
    /// The helper is usable: its trie is well formed.
    pub open spec fn wf(self) -> bool {
        self.trie.wf()
    }

    /// Whether the search-path executables were already loaded.
    pub open spec fn loaded(self) -> bool {
        self.path_executable_loaded
    }

    /// The stored (word, candidates) pair of the protocol, if any.
    pub open spec fn pending(self) -> Option<(Seq<char>, Seq<Seq<char>>)> {
        match self.last_completion_context {
            None => None,
            Some(p) => Some((p.0@, p.1.deep_view())),
        }
    }

    /// An empty helper: no words, nothing loaded, nothing pending.
    pub fn new() -> (r: ShellHelper)
        ensures
            r.wf(),
            r.trie@ == Set::<Seq<char>>::empty(),
            !r.loaded(),
            r.pending() is None,
    {
        ShellHelper {
            trie: Trie::new(),
            path_executable_loaded: false,
            last_completion_context: None,
        }
    }

    /// Insert the scanned executable names into the trie, once: a second
    /// call changes nothing.
    pub fn load_path_executables(&mut self, executables: &Vec<String>)
        requires
            old(self).wf(),
        ensures
            final(self).wf(),
            final(self).loaded(),
            final(self).pending() == old(self).pending(),
            old(self).loaded() ==> final(self).trie@ == old(self).trie@,
            !old(self).loaded() ==> final(self).trie@ == old(self).trie@ + inserted_words(
                executables.deep_view(),
            ),
    {
        if self.path_executable_loaded {
            return ;
        }
        let ghost base = self.trie@;
        let ghost dv = executables.deep_view();
        let n = executables.len();
        let mut i: usize = 0;
        proof {
            assert(inserted_words(dv.take(0)) =~= Set::<Seq<char>>::empty());
            assert(self.trie@ =~= base + inserted_words(dv.take(0)));
        }
        while i < n
            invariant
                old(self).wf(),
                self.trie.wf(),
                n == executables@.len(),
                dv == executables.deep_view(),
                0 <= i <= n,
                self.path_executable_loaded == old(self).path_executable_loaded,
                self.last_completion_context == old(self).last_completion_context,
                self.trie@ == base + inserted_words(dv.take(i as int)),
            decreases n - i,
        {
            self.trie.insert(executables[i].as_str());
            proof {
                let a = inserted_words(dv.take(i as int));
                let b = inserted_words(dv.take(i + 1));
                assert forall|w: Seq<char>| b.contains(w) implies a.contains(w) || w == trimmed(
                    dv[i as int],
                ) by {
                    let m = choose|m: int|
                        0 <= m < dv.take(i + 1).len() && w == trimmed(#[trigger] dv.take(i + 1)[m]);
                    if m < i {
                        assert(dv.take(i as int)[m] == dv[m]);
                        assert(a.contains(w));
                    }
                }
                assert forall|w: Seq<char>| a.contains(w) implies b.contains(w) by {
                    let m = choose|m: int|
                        0 <= m < dv.take(i as int).len() && w == trimmed(
                            #[trigger] dv.take(i as int)[m],
                        );
                    assert(dv.take(i + 1)[m] == dv[m]);
                }
                assert(dv.take(i + 1)[i as int] == dv[i as int]);
                assert(b.contains(trimmed(dv[i as int])));
                assert(self.trie@ =~= base + b);
            }
            i = i + 1;
        }
        proof {
            assert(dv.take(n as int) =~= dv);
        }
        self.path_executable_loaded = true;
    }

    /// The longest character prefix shared by every string of `strings`.
    pub fn longest_common_prefix(strings: &Vec<String>) -> (r: String)
        ensures
            strings@.len() == 0 ==> r@ == Seq::<char>::empty(),
            strings@.len() > 0 ==> max_common_prefix(r@, strings.deep_view()),
    {
        let m = strings.len();
        if m == 0 {
            return String::new();
        }
        let first = &strings[0];
        let flen = first.as_str().unicode_len();
        let mut k: usize = flen;
        let mut idx: usize = 1;
        proof {
            assert(strings.deep_view()[0] == first@);
            assert forall|q: Seq<char>|
                common_prefix_of(q, strings.deep_view().take(1)) implies q.len() <= k by {
                assert(q.is_prefix_of(strings.deep_view().take(1)[0]));
            }
            assert(first@.subrange(0, flen as int) =~= first@);
        }
        while idx < m
            invariant
                m == strings@.len(),
                1 <= idx <= m,
                0 <= k <= flen,
                first@ == strings@[0]@,
                flen == strings.deep_view()[0].len(),
                strings.deep_view()[0] == strings@[0]@,
                forall|j: int|
                    0 <= j < idx ==> (strings@[0]@.take(k as int)).is_prefix_of(
                        #[trigger] strings.deep_view()[j],
                    ),
                forall|q: Seq<char>|
                    #[trigger] common_prefix_of(q, strings.deep_view().take(idx as int)) ==> q.len()
                        <= k,
            decreases m - idx,
        {
            let s = &strings[idx];
            let slen = s.as_str().unicode_len();
            let ghost kpre = k as int;
            if slen < k {
                k = slen;
            }
            let mut i: usize = 0;
            while i < k && first.as_str().get_char(i) == s.as_str().get_char(i)
                invariant
                    m == strings@.len(),
                    1 <= idx < m,
                    first@ == strings@[0]@,
                    s@ == strings@[idx as int]@,
                    0 <= i <= k,
                    k <= flen,
                    k <= slen,
                    flen == strings@[0]@.len(),
                    slen == s@.len(),
                    strings.deep_view()[0] == strings@[0]@,
                    forall|c: int| 0 <= c < i ==> strings@[0]@[c] == s@[c],
                decreases k - i,
            {
                i = i + 1;
            }
            proof {
                let dv = strings.deep_view();
                let p = strings@[0]@.take(i as int);
                assert(dv[idx as int] == s@);
                assert(p.is_prefix_of(s@)) by {
                    assert(p =~= s@.subrange(0, i as int));
                }
                assert forall|j: int| 0 <= j < idx + 1 implies p.is_prefix_of(
                    #[trigger] dv[j],
                ) by {
                    if j < idx {
                        let p0 = strings@[0]@.take(kpre);
                        assert(p0.is_prefix_of(dv[j]));
                        assert(p =~= dv[j].subrange(0, i as int)) by {
                            assert(p0 =~= dv[j].subrange(0, kpre));
                            assert(forall|c: int|
                                0 <= c < i ==> dv[j].subrange(0, kpre)[c] == #[trigger] dv[j][c]);
                            assert(forall|c: int|
                                0 <= c < i ==> dv[j].subrange(0, i as int)[c] == #[trigger] dv[j][c]);
                        }
                    }
                }
                assert forall|q: Seq<char>|
                    #[trigger] common_prefix_of(q, dv.take(idx + 1)) implies q.len() <= i by {
                    assert(common_prefix_of(q, dv.take(idx as int))) by {
                        assert(forall|j: int|
                            0 <= j < idx ==> dv.take(idx as int)[j] == #[trigger] dv.take(
                                idx + 1,
                            )[j]);
                    }
                    assert(q.len() <= kpre);
                    assert(q.is_prefix_of(dv.take(idx + 1)[idx as int]));
                    assert(q.len() <= slen);
                    if q.len() > i {
                        assert(i < k);
                        assert(strings@[0]@[i as int] != s@[i as int]);
                        assert(q.is_prefix_of(dv.take(idx + 1)[0]));
                        assert(q[i as int] == strings@[0]@[i as int]) by {
                            assert(q =~= strings@[0]@.subrange(0, q.len() as int));
                        }
                        assert(q[i as int] == s@[i as int]) by {
                            assert(q =~= s@.subrange(0, q.len() as int));
                        }
                        assert(false);
                    }
                }
            }
            k = i;
            idx = idx + 1;
        }
        proof {
            assert(strings.deep_view().take(m as int) =~= strings.deep_view());
            let p = strings@[0]@.take(k as int);
            assert(common_prefix_of(p, strings.deep_view()));
        }
        let r = String::from_str(first.as_str().substring_char(0, k));
        proof {
            assert(r@ =~= strings@[0]@.take(k as int));
        }
        r
    }

    /// Handle one completion request for the word under the cursor: query
    /// the trie, sort the candidates, and run the disambiguation protocol.
    pub fn complete(&mut self, word: &str) -> (r: CompletionAction)
        requires
            old(self).wf(),
        ensures
            final(self).wf(),
            final(self).trie@ == old(self).trie@,
            final(self).loaded() == old(self).loaded(),
            controller_step(
                old(self).trie@,
                word@,
                old(self).pending(),
                r,
                final(self).pending(),
            ),
    {
        let found = self.trie.find_completions(word);
        let completions = sort_strings(&found);
        let ghost cs = completions.deep_view();
        let ghost ws = completions_of(old(self).trie@, word@);
        proof {
            crate::text::lemma_sorted_permutation_of(found.deep_view(), cs);
            assert(is_sorted_list_of(cs, ws));
        }
        if completions.len() == 0 {
            self.last_completion_context = None;
            let r = CompletionAction::NoMatch;
            proof {
                assert(step_with(cs, word@, old(self).pending(), r, self.pending()));
            }
            return r;
        }
        if completions.len() == 1 {
            self.last_completion_context = None;
            let mut t = completions[0].clone();
            t.append(" ");
            let r = CompletionAction::Replace(t);
            proof {
                assert(step_with(cs, word@, old(self).pending(), r, self.pending()));
            }
            return r;
        }
        let common = Self::longest_common_prefix(&completions);
        if common.as_str().unicode_len() > word.unicode_len() {
            self.last_completion_context = None;
            proof {
                assert(common_prefix_of(common@, cs) && common@.len() > word@.len());
            }
            let r = CompletionAction::Extend(common);
            proof {
                assert(step_with(cs, word@, old(self).pending(), r, self.pending()));
            }
            return r;
        }
        proof {
            assert forall|q: Seq<char>|
                #[trigger] common_prefix_of(q, cs) implies q.len() <= word@.len() by {
                assert(q.len() <= common@.len());
            }
        }
        let repeated = match &self.last_completion_context {
            Some(p) => str_eq(p.0.as_str(), word),
            None => false,
        };
        if repeated {
            self.last_completion_context = None;
            let r = CompletionAction::ListAll(completions);
            proof {
                assert(step_with(cs, word@, old(self).pending(), r, self.pending()));
            }
            r
        } else {
            self.last_completion_context = Some((String::from_str(word), completions));
            let r = CompletionAction::Alert;
            proof {
                assert(self.pending() == Some((word@, cs)));
                assert(step_with(cs, word@, old(self).pending(), r, self.pending()));
            }
            r
        }
    }
}

/// The trimmed forms of the given names.
pub open spec fn inserted_words(names: Seq<Seq<char>>) -> Set<Seq<char>> {
    Set::new(|w: Seq<char>| exists|i: int| 0 <= i < names.len() && w == trimmed(#[trigger] names[i]))
}

/// The word under the cursor: the last whitespace-separated token of the
/// line up to the cursor, or empty where the line holds none.
pub fn current_word(line: &str) -> (r: String)
    ensures
        split_ws(line@).len() == 0 ==> r@ == Seq::<char>::empty(),
        split_ws(line@).len() > 0 ==> r@ == split_ws(line@).last(),
{
    let mut tokens = split_whitespace(line);
    match tokens.pop() {
        Some(t) => t,
        None => String::new(),
    }
}

/// The sorted candidate list is fully determined by the candidate set: two
/// duplicate-free, lexicographically sorted listings of the same set are
/// equal, so disambiguation output is stable across runs.
pub proof fn lemma_sorted_list_of_unique(ws: Set<Seq<char>>, a: Seq<Seq<char>>, b: Seq<Seq<char>>)
    requires
        is_sorted_list_of(a, ws),
        is_sorted_list_of(b, ws),
    ensures
        a == b,
    decreases a.len(),
{
    if a.len() == 0 {
        if b.len() > 0 {
            assert(b.to_set().contains(b[0]));
            assert(a.contains(b[0]));
        }
        assert(a =~= b);
    } else {
        assert(a.to_set().contains(a[0]));
        assert(b.contains(a[0]));
        let i = choose|i: int| 0 <= i < b.len() && b[i] == a[0];
        assert(b.to_set().contains(b[0]));
        assert(a.contains(b[0]));
        let j = choose|j: int| 0 <= j < a.len() && a[j] == b[0];
        if i > 0 && j > 0 {
            assert(crate::text::lex_le(b[0], b[i]));
            assert(crate::text::lex_le(a[0], a[j]));
            crate::text::lemma_lex_le_antisymm(a[0], b[0]);
        }
        assert(a[0] == b[0]);
        let at = a.skip(1);
        let bt = b.skip(1);
        let wt = ws.remove(a[0]);
        assert forall|p: int, q: int| 0 <= p < q < at.len() implies #[trigger] crate::text::lex_le(
            at[p],
            at[q],
        ) by {
            assert(at[p] == a[p + 1] && at[q] == a[q + 1]);
            assert(crate::text::lex_le(a[p + 1], a[q + 1]));
        }
        assert forall|p: int, q: int| 0 <= p < q < bt.len() implies #[trigger] crate::text::lex_le(
            bt[p],
            bt[q],
        ) by {
            assert(bt[p] == b[p + 1] && bt[q] == b[q + 1]);
            assert(crate::text::lex_le(b[p + 1], b[q + 1]));
        }
        assert(at.no_duplicates()) by {
            assert(forall|p: int| 0 <= p < at.len() ==> at[p] == a[p + 1]);
        }
        assert(bt.no_duplicates()) by {
            assert(forall|p: int| 0 <= p < bt.len() ==> bt[p] == b[p + 1]);
        }
        assert forall|x: Seq<char>| at.to_set().contains(x) <==> wt.contains(x) by {
            if at.contains(x) {
                let m = choose|m: int| 0 <= m < at.len() && at[m] == x;
                assert(a[m + 1] == x);
                assert(a.to_set().contains(x));
                assert(x != a[0]);
            }
            if wt.contains(x) {
                assert(a.contains(x));
                let m = choose|m: int| 0 <= m < a.len() && a[m] == x;
                assert(m != 0);
                assert(at[m - 1] == x);
                assert(at.contains(x));
            }
        }
        assert(at.to_set() =~= wt);
        assert forall|x: Seq<char>| bt.to_set().contains(x) <==> wt.contains(x) by {
            if bt.contains(x) {
                let m = choose|m: int| 0 <= m < bt.len() && bt[m] == x;
                assert(b[m + 1] == x);
                assert(b.to_set().contains(x));
                assert(x != b[0]);
            }
            if wt.contains(x) {
                assert(b.contains(x));
                let m = choose|m: int| 0 <= m < b.len() && b[m] == x;
                assert(m != 0);
                assert(bt[m - 1] == x);
                assert(bt.contains(x));
            }
        }
        assert(bt.to_set() =~= wt);
        lemma_sorted_list_of_unique(wt, at, bt);
        assert(a.len() == b.len());
        assert forall|m: int| 0 <= m < a.len() implies a[m] == b[m] by {
            if m >= 1 {
                assert(at[m - 1] == a[m]);
                assert(bt[m - 1] == b[m]);
            }
        }
        assert(a =~= b);
    }
}

} // verus!
