//! A prefix tree over characters, stored as an arena of nodes.
use vstd::prelude::*;

verus! {

/// `p` is a prefix of `w`.
pub open spec fn is_prefix(p: Seq<char>, w: Seq<char>) -> bool {
    p.len() <= w.len() && w.subrange(0, p.len() as int) == p
}

/// `p` is empty or begins some word of `words`.
pub open spec fn prefix_of_some(words: Set<Seq<char>>, p: Seq<char>) -> bool {
    p.len() == 0 || exists|w: Seq<char>| #[trigger] words.contains(w) && is_prefix(p, w)
}

/// The set of words that a list of strings holds.
pub open spec fn word_set(words: Seq<String>) -> Set<Seq<char>> {
    Set::new(|w: Seq<char>| exists|i: int| 0 <= i < words.len() && #[trigger] words[i]@ == w)
}

/// Edges out of a node: each names a character and the index of the child node.
pub open spec fn has_label(edges: Seq<(char, usize)>, c: char) -> bool {
    exists|a: int| 0 <= a < edges.len() && (#[trigger] edges[a]).0 == c
}

/// A prefix tree. Node 0 is the root; node `i` stands for the string `paths[i]`,
/// and `children[i]` lists its outgoing edges.
pub struct TrieNode {
    children: Vec<Vec<(char, usize)>>,
    is_word_end: Vec<bool>,
    paths: Ghost<Seq<Seq<char>>>,
    words: Ghost<Set<Seq<char>>>,
}

impl View for TrieNode {
    type V = Set<Seq<char>>;

    closed spec fn view(&self) -> Set<Seq<char>> {
        self.words@
    }
}

impl TrieNode {
    spec fn size(&self) -> int {
        self.paths@.len() as int
    }

    spec fn edges(&self, i: int) -> Seq<(char, usize)> {
        self.children@[i]@
    }

    /// Node and edge shape: every edge leads to an existing node whose string
    /// extends the parent's by the edge's character, labels out of one node are
    /// distinct, and no two nodes stand for the same string.
    spec fn links_ok(&self) -> bool {
        &&& self.children@.len() == self.size()
        &&& self.is_word_end@.len() == self.size()
        &&& self.size() > 0
        &&& self.paths@[0] == Seq::<char>::empty()
        &&& forall|i: int, a: int|
            0 <= i < self.size() && 0 <= a < self.edges(i).len() ==> {
                let e = #[trigger] self.edges(i)[a];
                &&& (e.1 as int) < self.size()
                &&& self.paths@[e.1 as int] == self.paths@[i].push(e.0)
            }
        &&& forall|i: int, a: int, b: int|
            0 <= i < self.size() && 0 <= a < self.edges(i).len() && 0 <= b < self.edges(i).len()
                && a != b ==> (#[trigger] self.edges(i)[a]).0 != (#[trigger] self.edges(i)[b]).0
        &&& forall|i: int, j: int|
            0 <= i < self.size() && 0 <= j < self.size() && i != j ==> #[trigger] self.paths@[i]
                != #[trigger] self.paths@[j]
    }

    /// Every node whose string is a proper prefix of `w` has an edge for the next
    /// character of `w`.
    spec fn complete_for(&self, w: Seq<char>) -> bool {
        forall|i: int|
            0 <= i < self.size() && is_prefix(#[trigger] self.paths@[i], w) && self.paths@[i].len()
                < w.len() ==> has_label(self.edges(i), w[self.paths@[i].len() as int])
    }

    /// Every node's string begins a word of `words` or is a prefix of `extra`.
    spec fn rooted_in(&self, words: Set<Seq<char>>, extra: Seq<char>) -> bool {
        forall|i: int|
            0 <= i < self.size() ==> prefix_of_some(words, #[trigger] self.paths@[i])
                || is_prefix(self.paths@[i], extra)
    }

    spec fn ends_match(&self, words: Set<Seq<char>>) -> bool {
        forall|i: int| 0 <= i < self.size() ==> #[trigger] self.is_word_end@[i] == words.contains(self.paths@[i])
    }

    pub closed spec fn wf(&self) -> bool {
        &&& self.links_ok()
        &&& self.rooted_in(self.words@, Seq::<char>::empty())
        &&& forall|w: Seq<char>| #[trigger] self.words@.contains(w) ==> self.complete_for(w)
        &&& self.ends_match(self.words@)
    }

    /// A tree that holds no word.
    pub fn new() -> (t: TrieNode)
        ensures
            t.wf(),
            t@ == Set::<Seq<char>>::empty(),
    {
        let mut children: Vec<Vec<(char, usize)>> = Vec::new();
        children.push(Vec::new());
        let mut is_word_end: Vec<bool> = Vec::new();
        is_word_end.push(false);
        let ghost paths = seq![Seq::<char>::empty()];
        TrieNode {
            children,
            is_word_end,
            paths: Ghost(paths),
            words: Ghost(Set::empty()),
        }
    }
    /// The child of node `at` along the edge labelled `c`, if there is one.
    fn child(&self, at: usize, c: char) -> (r: Option<usize>)
        requires
            self.links_ok(),
            at < self.size(),
        ensures
            r matches Some(j) ==> (j as int) < self.size() && self.paths@[j as int]
                == self.paths@[at as int].push(c) && has_label(self.edges(at as int), c),
            r is None ==> !has_label(self.edges(at as int), c),
    {
        let edges = &self.children[at];
        let mut a: usize = 0;
        while a < edges.len()
            invariant
                self.links_ok(),
                at < self.size(),
                edges@ == self.edges(at as int),
                a <= edges@.len(),
                forall|b: int| 0 <= b < a ==> (#[trigger] edges@[b]).0 != c,
            decreases edges@.len() - a,
        {
            if edges[a].0 == c {
                assert(has_label(self.edges(at as int), c));
                return Some(edges[a].1);
            }
            a = a + 1;
        }
        None
    }

    /// Follows `s` from the root: the node that stands for `s`, if there is one.
    fn find(&self, s: &str) -> (r: Option<usize>)
        requires
            self.wf(),
        ensures
            r is Some <==> prefix_of_some(self@, s@),
            r matches Some(i) ==> (i as int) < self.size() && self.paths@[i as int] == s@,
    {
        let n = s.unicode_len();
        let mut cur: usize = 0;
        let mut k: usize = 0;
        while k < n
            invariant
                self.wf(),
                n == s@.len(),
                k <= n,
                (cur as int) < self.size(),
                self.paths@[cur as int] == s@.subrange(0, k as int),
            decreases n - k,
        {
            let c = s.get_char(k);
            match self.child(cur, c) {
                Some(j) => {
                    assert(s@.subrange(0, k + 1) == s@.subrange(0, k as int).push(c));
                    cur = j;
                    k = k + 1;
                },
                None => {
                    proof {
                        if prefix_of_some(self@, s@) {
                            let w = choose|w: Seq<char>| #[trigger] self@.contains(w) && is_prefix(s@, w);
                            assert(w.subrange(0, k as int) == s@.subrange(0, k as int));
                            assert(is_prefix(self.paths@[cur as int], w));
                            assert(self.complete_for(w));
                            assert(w[k as int] == c);
                        }
                    }
                    return None;
                },
            }
        }
        proof {
            assert(s@.subrange(0, n as int) == s@);
            assert(self.rooted_in(self.words@, Seq::<char>::empty()));
            assert(prefix_of_some(self@, self.paths@[cur as int])
                || is_prefix(self.paths@[cur as int], Seq::<char>::empty()));
        }
        Some(cur)
    }

    /// Whether `prefix` is empty or begins some word of the tree.
    pub fn contains_prefix(&self, prefix: &str) -> (r: bool)
        requires
            self.wf(),
        ensures
            r == prefix_of_some(self@, prefix@),
    {
        self.find(prefix).is_some()
    }

    /// Whether `word` is a word of the tree.
    pub fn contains_word(&self, word: &str) -> (r: bool)
        requires
            self.wf(),
        ensures
            r == self@.contains(word@),
    {
        match self.find(word) {
            Some(i) => {
                assert(self.ends_match(self.words@));
                self.is_word_end[i]
            },
            None => {
                proof {
                    if self@.contains(word@) {
                        assert(word@.subrange(0, word@.len() as int) =~= word@);
                    }
                }
                false
            },
        }
    }
    /// Adds `word`; adding a word that is already there changes nothing.
    pub fn insert(&mut self, word: &str)
        requires
            old(self).wf(),
        ensures
            final(self).wf(),
            final(self)@ == old(self)@.insert(word@),
    {
        let ghost w = word@;
        let ghost before = self.words@;
        let n = word.unicode_len();
        let mut cur: usize = 0;
        let mut k: usize = 0;
        proof {
            assert forall|i: int| 0 <= i < self.size() implies prefix_of_some(before, #[trigger] self.paths@[i])
                || is_prefix(self.paths@[i], w.subrange(0, 0)) by {
                assert(self.rooted_in(before, Seq::<char>::empty()));
                if !prefix_of_some(before, self.paths@[i]) {
                    assert(is_prefix(self.paths@[i], Seq::<char>::empty()));
                    assert(self.paths@[i] =~= w.subrange(0, 0));
                }
            }
            assert(w.subrange(0, 0) =~= self.paths@[0]);
        }
        while k < n
            invariant
                w == word@,
                n == w.len(),
                k <= n,
                self.words@ == before,
                self.links_ok(),
                self.rooted_in(before, w.subrange(0, k as int)),
                forall|v: Seq<char>| #[trigger] before.contains(v) ==> self.complete_for(v),
                self.complete_for(w.subrange(0, k as int)),
                self.ends_match(before),
                (cur as int) < self.size(),
                self.paths@[cur as int] == w.subrange(0, k as int),
            decreases n - k,
        {
            let c = word.get_char(k);
            let ghost next = w.subrange(0, k + 1);
            assert(next == w.subrange(0, k as int).push(c));
            match self.child(cur, c) {
                Some(j) => {
                    proof {
                        self.lemma_advance(cur as int, j as int, w, k as int, before);
                    }
                    cur = j;
                },
                None => {
                    proof {
                        self.lemma_fresh(cur as int, w, k as int, before);
                    }
                    let ghost prev = *self;
                    let j = self.children.len();
                    self.children.push(Vec::new());
                    self.is_word_end.push(false);
                    self.paths = Ghost(self.paths@.push(next));
                    self.children[cur].push((c, j));
                    proof {
                        TrieNode::lemma_extend(prev, *self, cur as int, c, j, w, k as int, before);
                    }
                    cur = j;
                },
            }
            k = k + 1;
        }
        let ghost prev = *self;
        self.is_word_end.set(cur, true);
        self.words = Ghost(before.insert(w));
        proof {
            assert(w.subrange(0, n as int) =~= w);
            assert(self.links_ok()) by {
                assert forall|i: int, a: int|
                    0 <= i < self.size() && 0 <= a < self.edges(i).len() implies {
                        let e = #[trigger] self.edges(i)[a];
                        &&& (e.1 as int) < self.size()
                        &&& self.paths@[e.1 as int] == self.paths@[i].push(e.0)
                    } by {
                    assert(self.edges(i)[a] == prev.edges(i)[a]);
                }
                assert forall|i: int, a: int, b: int|
                    0 <= i < self.size() && 0 <= a < self.edges(i).len() && 0 <= b < self.edges(i).len()
                        && a != b implies (#[trigger] self.edges(i)[a]).0 != (#[trigger] self.edges(i)[b]).0 by {
                    assert(self.edges(i)[a] == prev.edges(i)[a]);
                    assert(self.edges(i)[b] == prev.edges(i)[b]);
                }
            }
            assert forall|i: int| 0 <= i < self.size() implies prefix_of_some(self.words@, #[trigger] self.paths@[i])
                || is_prefix(self.paths@[i], Seq::<char>::empty()) by {
                assert(prev.rooted_in(before, w));
                if prefix_of_some(before, self.paths@[i]) {
                    if self.paths@[i].len() > 0 {
                        let v = choose|v: Seq<char>| #[trigger] before.contains(v) && is_prefix(self.paths@[i], v);
                        assert(self.words@.contains(v));
                    }
                } else {
                    assert(self.words@.contains(w));
                }
            }
            assert forall|v: Seq<char>| #[trigger] self.words@.contains(v) implies self.complete_for(v) by {
                if v != w {
                    assert(before.contains(v));
                    assert(prev.complete_for(v));
                }
            }
            assert forall|i: int| 0 <= i < self.size() implies #[trigger] self.is_word_end@[i]
                == self.words@.contains(self.paths@[i]) by {
                assert(prev.ends_match(before));
                if i != cur {
                    assert(self.paths@[i] != self.paths@[cur as int]);
                }
            }
        }
    }

    proof fn lemma_advance(&self, cur: int, j: int, w: Seq<char>, k: int, before: Set<Seq<char>>)
        requires
            0 <= k < w.len(),
            self.links_ok(),
            self.rooted_in(before, w.subrange(0, k)),
            self.complete_for(w.subrange(0, k)),
            0 <= cur < self.size(),
            0 <= j < self.size(),
            self.paths@[cur] == w.subrange(0, k),
            self.paths@[j] == w.subrange(0, k).push(w[k]),
            has_label(self.edges(cur), w[k]),
        ensures
            self.rooted_in(before, w.subrange(0, k + 1)),
            self.complete_for(w.subrange(0, k + 1)),
            self.paths@[j] == w.subrange(0, k + 1),
    {
        let pre = w.subrange(0, k);
        let next = w.subrange(0, k + 1);
        assert(next =~= pre.push(w[k]));
        assert forall|i: int| 0 <= i < self.size() implies prefix_of_some(before, #[trigger] self.paths@[i])
            || is_prefix(self.paths@[i], next) by {
            let p = self.paths@[i];
            if is_prefix(p, pre) {
                assert(next.subrange(0, p.len() as int) =~= pre.subrange(0, p.len() as int));
            }
        }
        assert forall|i: int|
            0 <= i < self.size() && is_prefix(#[trigger] self.paths@[i], next) && self.paths@[i].len()
                < next.len() implies has_label(self.edges(i), next[self.paths@[i].len() as int]) by {
            let p = self.paths@[i];
            if p.len() == k {
                assert(p =~= pre);
                assert(i == cur);
            } else {
                assert(pre.subrange(0, p.len() as int) =~= next.subrange(0, p.len() as int));
                assert(is_prefix(p, pre));
                assert(pre[p.len() as int] == next[p.len() as int]);
            }
        }
    }
    proof fn lemma_fresh(&self, cur: int, w: Seq<char>, k: int, before: Set<Seq<char>>)
        requires
            0 <= k < w.len(),
            self.links_ok(),
            self.rooted_in(before, w.subrange(0, k)),
            forall|v: Seq<char>| #[trigger] before.contains(v) ==> self.complete_for(v),
            0 <= cur < self.size(),
            self.paths@[cur] == w.subrange(0, k),
            !has_label(self.edges(cur), w[k]),
        ensures
            forall|v: Seq<char>| #[trigger] before.contains(v) ==> !is_prefix(w.subrange(0, k + 1), v),
            forall|i: int| 0 <= i < self.size() ==> #[trigger] self.paths@[i] != w.subrange(0, k + 1),
    {
        let pre = w.subrange(0, k);
        let next = w.subrange(0, k + 1);
        assert forall|v: Seq<char>| #[trigger] before.contains(v) implies !is_prefix(next, v) by {
            if is_prefix(next, v) {
                assert(v.subrange(0, k) =~= next.subrange(0, k));
                assert(next.subrange(0, k) =~= pre);
                assert(is_prefix(self.paths@[cur], v));
                assert(self.complete_for(v));
                assert(v[k] == next[k]);
            }
        }
        assert forall|i: int| 0 <= i < self.size() implies #[trigger] self.paths@[i] != next by {
            if self.paths@[i] == next {
                if prefix_of_some(before, next) {
                    let v = choose|v: Seq<char>| #[trigger] before.contains(v) && is_prefix(next, v);
                }
            }
        }
    }

    proof fn lemma_extend(
        prev: TrieNode,
        post: TrieNode,
        cur: int,
        c: char,
        j: usize,
        w: Seq<char>,
        k: int,
        before: Set<Seq<char>>,
    )
        requires
            0 <= k < w.len(),
            c == w[k],
            prev.links_ok(),
            prev.rooted_in(before, w.subrange(0, k)),
            forall|v: Seq<char>| #[trigger] before.contains(v) ==> prev.complete_for(v),
            prev.complete_for(w.subrange(0, k)),
            prev.ends_match(before),
            0 <= cur < prev.size(),
            prev.paths@[cur] == w.subrange(0, k),
            !has_label(prev.edges(cur), c),
            forall|v: Seq<char>| #[trigger] before.contains(v) ==> !is_prefix(w.subrange(0, k + 1), v),
            forall|i: int| 0 <= i < prev.size() ==> #[trigger] prev.paths@[i] != w.subrange(0, k + 1),
            post.paths@ == prev.paths@.push(w.subrange(0, k + 1)),
            post.is_word_end@ == prev.is_word_end@.push(false),
            post.children@.len() == prev.size() + 1,
            post.edges(prev.size()) == Seq::<(char, usize)>::empty(),
            j as int == prev.size(),
            post.edges(cur) == prev.edges(cur).push((c, j)),
            forall|i: int| 0 <= i < prev.size() && i != cur ==> post.edges(i) == prev.edges(i),
        ensures
            post.links_ok(),
            post.rooted_in(before, w.subrange(0, k + 1)),
            forall|v: Seq<char>| #[trigger] before.contains(v) ==> post.complete_for(v),
            post.complete_for(w.subrange(0, k + 1)),
            post.ends_match(before),
            post.paths@[prev.size()] == w.subrange(0, k + 1),
    {
        let pre = w.subrange(0, k);
        let next = w.subrange(0, k + 1);
        assert(next =~= pre.push(c));
        assert forall|i: int, a: int|
            0 <= i < post.size() && 0 <= a < post.edges(i).len() implies {
                let e = #[trigger] post.edges(i)[a];
                &&& (e.1 as int) < post.size()
                &&& post.paths@[e.1 as int] == post.paths@[i].push(e.0)
            } by {
            if i < j && a < prev.edges(i).len() {
                let e = prev.edges(i)[a];
                assert(post.edges(i)[a] == e);
                assert(post.paths@[e.1 as int] == prev.paths@[e.1 as int]);
            } else if i == cur {
                assert(post.edges(i)[a] == (c, j));
            }
        }
        assert forall|i: int, a: int, b: int|
            0 <= i < post.size() && 0 <= a < post.edges(i).len() && 0 <= b < post.edges(i).len()
                && a != b implies (#[trigger] post.edges(i)[a]).0 != (#[trigger] post.edges(i)[b]).0 by {
            if i == cur {
                if a == prev.edges(i).len() {
                    assert(post.edges(i)[b] == prev.edges(i)[b]);
                } else if b == prev.edges(i).len() {
                    assert(post.edges(i)[a] == prev.edges(i)[a]);
                } else {
                    assert(post.edges(i)[a] == prev.edges(i)[a]);
                    assert(post.edges(i)[b] == prev.edges(i)[b]);
                }
            } else if i < j {
                assert(prev.edges(i)[a] == post.edges(i)[a]);
                assert(prev.edges(i)[b] == post.edges(i)[b]);
            }
        }
        assert forall|i: int, i2: int|
            0 <= i < post.size() && 0 <= i2 < post.size() && i != i2 implies #[trigger] post.paths@[i]
                != #[trigger] post.paths@[i2] by {
            if i < j && i2 < j {
                assert(prev.paths@[i] != prev.paths@[i2]);
            } else if i < j {
                assert(prev.paths@[i] != next);
            } else {
                assert(prev.paths@[i2] != next);
            }
        }
        assert(post.links_ok());
        assert forall|i: int| 0 <= i < post.size() implies prefix_of_some(before, #[trigger] post.paths@[i])
            || is_prefix(post.paths@[i], next) by {
            if i < j {
                let p = prev.paths@[i];
                assert(prefix_of_some(before, p) || is_prefix(p, pre));
                if is_prefix(p, pre) {
                    assert(next.subrange(0, p.len() as int) =~= pre.subrange(0, p.len() as int));
                }
            } else {
                assert(next.subrange(0, next.len() as int) =~= next);
            }
        }
        assert forall|v: Seq<char>| #[trigger] before.contains(v) implies post.complete_for(v) by {
            assert(prev.complete_for(v));
            assert forall|i: int|
                0 <= i < post.size() && is_prefix(#[trigger] post.paths@[i], v) && post.paths@[i].len()
                    < v.len() implies has_label(post.edges(i), v[post.paths@[i].len() as int]) by {
                if i < j {
                    let ch = v[prev.paths@[i].len() as int];
                    assert(has_label(prev.edges(i), ch));
                    let a = choose|a: int| 0 <= a < prev.edges(i).len() && (#[trigger] prev.edges(i)[a]).0 == ch;
                    assert(post.edges(i)[a] == prev.edges(i)[a]);
                }
            }
        }
        assert forall|i: int|
            0 <= i < post.size() && is_prefix(#[trigger] post.paths@[i], next) && post.paths@[i].len()
                < next.len() implies has_label(post.edges(i), next[post.paths@[i].len() as int]) by {
            let p = post.paths@[i];
            if i < j {
                if p.len() == k {
                    assert(p =~= pre);
                    assert(prev.paths@[i] == prev.paths@[cur]);
                    assert(i == cur);
                    assert(post.edges(cur)[prev.edges(cur).len() as int] == (c, j));
                } else {
                    assert(pre.subrange(0, p.len() as int) =~= next.subrange(0, p.len() as int));
                    assert(is_prefix(p, pre));
                    let ch = pre[p.len() as int];
                    assert(has_label(prev.edges(i), ch));
                    let a = choose|a: int| 0 <= a < prev.edges(i).len() && (#[trigger] prev.edges(i)[a]).0 == ch;
                    assert(post.edges(i)[a] == prev.edges(i)[a]);
                }
            }
        }
        assert forall|i: int| 0 <= i < post.size() implies #[trigger] post.is_word_end@[i]
            == before.contains(post.paths@[i]) by {
            if i < j {
                assert(prev.is_word_end@[i] == before.contains(prev.paths@[i]));
            } else {
                assert(next.subrange(0, next.len() as int) =~= next);
                if before.contains(next) {
                    assert(!is_prefix(next, next));
                }
            }
        }
    }
}


/// A tree holding exactly the words of `words`.
pub fn build_trie(words: &[String]) -> (t: TrieNode)
    ensures
        t.wf(),
        t@ == word_set(words@),
{
    let mut trie = TrieNode::new();
    let mut i: usize = 0;
    while i < words.len()
        invariant
            i <= words@.len(),
            trie.wf(),
            trie@ == word_set(words@.subrange(0, i as int)),
        decreases words@.len() - i,
    {
        trie.insert(words[i].as_str());
        proof {
            let done = words@.subrange(0, i as int);
            let more = words@.subrange(0, i + 1);
            assert forall|w: Seq<char>| #[trigger] word_set(more).contains(w)
                == word_set(done).insert(words@[i as int]@).contains(w) by {
                if word_set(more).contains(w) {
                    let m = choose|m: int| 0 <= m < more.len() && #[trigger] more[m]@ == w;
                    if m < i {
                        assert(done[m]@ == w);
                        assert(word_set(done).contains(w));
                    }
                }
                if word_set(done).contains(w) {
                    let m = choose|m: int| 0 <= m < done.len() && #[trigger] done[m]@ == w;
                    assert(more[m]@ == w);
                }
                if w == words@[i as int]@ {
                    assert(more[i as int]@ == w);
                }
            }
            assert(word_set(more) =~= word_set(done).insert(words@[i as int]@));
        }
        i = i + 1;
    }
    assert(words@.subrange(0, words@.len() as int) =~= words@);
    trie
}

} // verus!
