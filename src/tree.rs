//! The letter-profile trie and its frequency-ranked form.
use vstd::prelude::*;
use crate::counts::{count_lookup, count_of, letter_count, letter_counts};
use crate::letters::{is_profile, letters_of, lemma_profile_unique, profile_of, strictly_sorted};

verus! {

/// One node of a `Tree`: the path of letters that leads to it, the words
/// whose profile is that path, and its children keyed by letter.
pub struct TreeNode {
    chars: Vec<char>,
    words: Vec<String>,
    childs: Vec<(char, usize)>,
}

/// A trie over letter profiles, held as an arena of nodes; node 0 is the root.
pub struct Tree {
    nodes: Vec<TreeNode>,
}

/// The path of node `i` is a prefix of the path of a node that holds words.
pub closed spec fn leads_to_word(ns: Seq<TreeNode>, i: int) -> bool {
    exists|j: int| 0 <= j < ns.len() && (#[trigger] ns[j]).words@.len() > 0 && is_path_prefix(ns[i].chars@, ns[j].chars@)
}

/// Node `j` is the child of some node under the last letter of its path.
pub closed spec fn has_parent(ns: Seq<TreeNode>, j: int) -> bool {
    exists|i: int, k: int|
        0 <= i < ns.len() && 0 <= k < ns[i].childs@.len()
        && #[trigger] ns[i].childs@[k] == (ns[j].chars@.last(), j as usize)
}

impl Tree {
    /// Some node's path is `p`.
    pub closed spec fn has_node(&self, p: Seq<char>) -> bool {
        exists|i: int| 0 <= i < self.nodes@.len() && #[trigger] self.nodes@[i].chars@ == p
    }

    /// The words held at the node whose path is `p` (none if there is no such node).
    pub closed spec fn words_at(&self, p: Seq<char>) -> Seq<String> {
        if self.has_node(p) {
            self.nodes@[choose|i: int| 0 <= i < self.nodes@.len() && #[trigger] self.nodes@[i].chars@ == p].words@
        } else {
            Seq::empty()
        }
    }

    /// The words of nodes `0..k`, node by node.
    pub closed spec fn words_upto(&self, k: int) -> Seq<String>
        decreases k,
    {
        if k <= 0 || k > self.nodes@.len() {
            Seq::empty()
        } else {
            self.words_upto(k - 1) + self.nodes@[k - 1].words@
        }
    }

    /// Every word held anywhere in the trie.
    pub closed spec fn all_words_spec(&self) -> Seq<String> {
        self.words_upto(self.nodes@.len() as int)
    }

    /// The arena forms a trie over strictly increasing letter paths, and
    /// every node but the root lies on the path to a node that holds words.
    pub closed spec fn wf(&self) -> bool {
        &&& self.wf_shape()
        &&& forall|i: int| 0 < i < self.nodes@.len() ==> #[trigger] leads_to_word(self.nodes@, i)
    }

    /// The arena forms a trie over strictly increasing letter paths.
    pub closed spec fn wf_shape(&self) -> bool {
        let ns = self.nodes@;
        &&& ns.len() >= 1
        &&& ns[0].chars@ == Seq::<char>::empty()
        &&& forall|i: int| 0 <= i < ns.len() ==> strictly_sorted(#[trigger] ns[i].chars@)
        &&& forall|i: int, j: int|
            0 <= i < ns.len() && 0 <= j < ns.len() && i != j ==> #[trigger] ns[i].chars@ != #[trigger] ns[j].chars@
        &&& forall|i: int, k: int| 0 <= i < ns.len() && 0 <= k < ns[i].childs@.len() ==> {
            let (c, j) = #[trigger] ns[i].childs@[k];
            &&& i < j < ns.len()
            &&& ns[j as int].chars@ == ns[i].chars@.push(c)
        }
        &&& forall|j: int| 0 < j < ns.len() ==> #[trigger] has_parent(ns, j)
        &&& forall|i: int, a: int, b: int| 0 <= i < ns.len() && 0 <= a < b < ns[i].childs@.len()
            ==> (#[trigger] ns[i].childs@[a]).0 != (#[trigger] ns[i].childs@[b]).0
        &&& forall|i: int, k: int| 0 <= i < ns.len() && 0 <= k < ns[i].words@.len()
            ==> is_profile(ns[i].chars@, #[trigger] ns[i].words@[k]@) && ns[i].words@[k]@.no_duplicates()
    }

    /// The words at node `i`'s path are the words of node `i`.
    proof fn lemma_words_at(&self, i: int)
        requires
            self.wf(),
            0 <= i < self.nodes@.len(),
        ensures
            self.has_node(self.nodes@[i].chars@),
            self.words_at(self.nodes@[i].chars@) == self.nodes@[i].words@,
    {
        assert(self.nodes@[i].chars@ == self.nodes@[i].chars@);
    }

    /// An empty trie: the root alone.
    pub fn new() -> (t: Tree)
        ensures
            t.wf(),
            forall|p: Seq<char>| #[trigger] t.words_at(p) == Seq::<String>::empty(),
    {
        let root = TreeNode { chars: Vec::new(), words: Vec::new(), childs: Vec::new() };
        let mut nodes: Vec<TreeNode> = Vec::new();
        nodes.push(root);
        let t = Tree { nodes };
        assert forall|p: Seq<char>| #[trigger] t.words_at(p) == Seq::<String>::empty() by {
            if t.has_node(p) {
                t.lemma_words_at(0);
            }
        }
        t
    }

    /// A node without words or children whose path extends `parent`'s by `ch`.
    fn new_child(parent: &TreeNode, ch: char) -> (r: TreeNode)
        ensures
            r.chars@ == parent.chars@.push(ch),
            r.words@ == Seq::<String>::empty(),
            r.childs@ == Seq::<(char, usize)>::empty(),
    {
        let mut chars = parent.chars.clone();
        assert(chars@ =~= parent.chars@);
        chars.push(ch);
        TreeNode { chars, words: Vec::new(), childs: Vec::new() }
    }
}

impl Tree {
    /// Adds `word` at the node of its letter profile, creating the nodes on
    /// the way that do not exist yet.
    pub fn insert(&mut self, word: String)
        requires
            old(self).wf(),
            word@.no_duplicates(),
        ensures
            final(self).wf(),
            forall|p: Seq<char>, q: Seq<char>| #[trigger] is_profile(q, word@) ==>
                (#[trigger] final(self).has_node(p) <==> (old(self).has_node(p) || is_path_prefix(p, q))),
            forall|p: Seq<char>| #[trigger] final(self).words_at(p) == if is_profile(p, word@) {
                old(self).words_at(p).push(word)
            } else {
                old(self).words_at(p)
            },
    {
        let letters = letters_of(word.as_str());
        let chars = profile_of(&letters);
        self.insert_impl(&chars, word);
        assert forall|p: Seq<char>| is_profile(p, word@) implies p == chars@ by {
            lemma_profile_unique(p, chars@);
        }
    }

    /// Walks down the path `chars`, creating missing nodes, and adds `word`
    /// to the node at its end.
    fn insert_impl(&mut self, chars: &Vec<char>, word: String)
        requires
            old(self).wf(),
            is_profile(chars@, word@),
            word@.no_duplicates(),
        ensures
            final(self).wf(),
            forall|p: Seq<char>| #[trigger] final(self).has_node(p) <==> (old(self).has_node(p) || is_path_prefix(p, chars@)),
            forall|p: Seq<char>| #[trigger] final(self).words_at(p) == if p == chars@ {
                old(self).words_at(p).push(word)
            } else {
                old(self).words_at(p)
            },
    {
        let ghost old_nodes = self.nodes@;
        let mut cur: usize = 0;
        let mut pos: usize = 0;
        assert(chars@.subrange(0, 0) =~= Seq::<char>::empty());
        while pos < chars.len()
            invariant
                self.wf_shape(),
                forall|i: int| 0 < i < self.nodes@.len() ==> #[trigger] leads_to_word(self.nodes@, i)
                    || is_path_prefix(self.nodes@[i].chars@, chars@),
                strictly_sorted(chars@),
                cur < self.nodes.len(),
                pos <= chars.len(),
                self.nodes@[cur as int].chars@ == chars@.subrange(0, pos as int),
                self.nodes@.len() >= old_nodes.len(),
                forall|i: int| 0 <= i < old_nodes.len() ==> (#[trigger] self.nodes@[i]).chars@ == old_nodes[i].chars@
                    && self.nodes@[i].words@ == old_nodes[i].words@,
                forall|i: int| old_nodes.len() <= i < self.nodes@.len() ==> (#[trigger] self.nodes@[i]).words@.len() == 0,
                forall|p: Seq<char>| #[trigger] self.has_node(p)
                    <==> (old(self).has_node(p) || (p.len() <= pos && is_path_prefix(p, chars@))),
            decreases chars.len() - pos,
        {
            let c = chars[pos];
            let mut k: usize = 0;
            let mut found: usize = 0;
            let mut seen = false;
            while k < self.nodes[cur].childs.len() && !seen
                invariant
                    self.wf_shape(),
                    cur < self.nodes.len(),
                    k <= self.nodes@[cur as int].childs@.len(),
                    !seen ==> forall|m: int| 0 <= m < k ==> (#[trigger] self.nodes@[cur as int].childs@[m]).0 != c,
                    seen ==> exists|m: int| 0 <= m < self.nodes@[cur as int].childs@.len()
                        && #[trigger] self.nodes@[cur as int].childs@[m] == (c, found),
                decreases self.nodes@[cur as int].childs@.len() - k,
            {
                let (d, j) = self.nodes[cur].childs[k];
                if d == c {
                    found = j;
                    seen = true;
                }
                k = k + 1;
            }
            let ghost ns0 = self.nodes@;
            let ghost t0 = *self;
            assert(forall|p: Seq<char>| #[trigger] t0.has_node(p)
                <==> (old(self).has_node(p) || (p.len() <= pos && is_path_prefix(p, chars@))));
            let ghost target = chars@.subrange(0, pos + 1);
            assert(target =~= ns0[cur as int].chars@.push(c));
            if seen {
                proof {
                    let m = choose|m: int| 0 <= m < ns0[cur as int].childs@.len()
                        && #[trigger] ns0[cur as int].childs@[m] == (c, found);
                    assert(ns0[found as int].chars@ == target);
                    assert forall|p: Seq<char>| #[trigger] self.has_node(p)
                        <==> (old(self).has_node(p) || (p.len() <= pos + 1 && is_path_prefix(p, chars@))) by {
                        if p.len() == pos + 1 && is_path_prefix(p, chars@) {
                            assert(p =~= target);
                            assert(ns0[found as int].chars@ == p);
                        }
                    }
                }
                cur = found;
            } else {
                assert forall|i: int| 0 <= i < ns0.len() implies (#[trigger] ns0[i]).chars@ != target by {
                    if ns0[i].chars@ == target {
                        assert(i != 0) by {
                            assert(target.len() > 0);
                        }
                        assert(has_parent(ns0, i));
                        let (pi, pk) = choose|pi: int, pk: int|
                            0 <= pi < ns0.len() && 0 <= pk < ns0[pi].childs@.len()
                            && #[trigger] ns0[pi].childs@[pk] == (ns0[i].chars@.last(), i as usize);
                        assert(ns0[i].chars@ == ns0[pi].chars@.push(ns0[i].chars@.last()));
                        assert(ns0[pi].chars@ =~= ns0[i].chars@.drop_last());
                        assert(ns0[pi].chars@ =~= ns0[cur as int].chars@);
                        assert(pi == cur);
                        assert(ns0[pi].childs@[pk].0 == c);
                    }
                }
                let child = Tree::new_child(&self.nodes[cur], c);
                let idx = self.nodes.len();
                self.nodes.push(child);
                let ghost ns1 = self.nodes@;
                let ghost old_childs = ns1[cur as int].childs@;
                self.nodes[cur].childs.push((c, idx));
                let ghost ns2 = self.nodes@;
                assert(ns2[cur as int].childs@ == old_childs.push((c, idx)));
                assert forall|i: int| 0 <= i < ns2.len() && i != cur implies #[trigger] ns2[i] == ns1[i] by {}
                assert(strictly_sorted(ns2[idx as int].chars@)) by {
                    assert(ns2[idx as int].chars@ =~= target);
                }
                assert forall|i: int, j: int|
                    0 <= i < ns2.len() && 0 <= j < ns2.len() && i != j implies #[trigger] ns2[i].chars@ != #[trigger] ns2[j].chars@ by {
                    if i == idx {
                        assert(ns0[j].chars@ != target);
                    } else if j == idx {
                        assert(ns0[i].chars@ != target);
                    } else {
                        assert(ns0[i].chars@ != ns0[j].chars@);
                    }
                }
                assert forall|i: int, m: int| 0 <= i < ns2.len() && 0 <= m < ns2[i].childs@.len() implies {
                    let (e, j) = #[trigger] ns2[i].childs@[m];
                    &&& i < j < ns2.len()
                    &&& ns2[j as int].chars@ == ns2[i].chars@.push(e)
                } by {
                    if i == cur && m == old_childs.len() {
                    } else if i == cur {
                        assert(ns2[i].childs@[m] == ns0[i].childs@[m]);
                    } else if i < ns0.len() {
                        assert(ns2[i].childs@[m] == ns0[i].childs@[m]);
                    }
                }
                assert forall|j: int| 0 < j < ns2.len() implies #[trigger] has_parent(ns2, j) by {
                    if j == idx {
                        assert(ns2[cur as int].childs@[old_childs.len() as int] == (ns2[j].chars@.last(), j as usize));
                    } else {
                        assert(has_parent(ns0, j));
                        let (pi, pk) = choose|pi: int, pk: int|
                            0 <= pi < ns0.len() && 0 <= pk < ns0[pi].childs@.len()
                            && #[trigger] ns0[pi].childs@[pk] == (ns0[j].chars@.last(), j as usize);
                        assert(ns2[pi].childs@[pk] == ns0[pi].childs@[pk]);
                    }
                }
                assert forall|i: int, m: int| 0 <= i < ns2.len() && 0 <= m < ns2[i].words@.len()
                    implies is_profile(ns2[i].chars@, #[trigger] ns2[i].words@[m]@) && ns2[i].words@[m]@.no_duplicates() by {
                    assert(ns2[i].words@ == ns0[i].words@);
                }
                assert forall|i: int, a: int, b: int| 0 <= i < ns2.len() && 0 <= a < b < ns2[i].childs@.len()
                    implies (#[trigger] ns2[i].childs@[a]).0 != (#[trigger] ns2[i].childs@[b]).0 by {
                    if i == cur {
                        if b == old_childs.len() {
                            assert(ns2[i].childs@[a] == ns0[i].childs@[a]);
                        } else {
                            assert(ns2[i].childs@[a] == ns0[i].childs@[a]);
                            assert(ns2[i].childs@[b] == ns0[i].childs@[b]);
                        }
                    } else if i < ns0.len() {
                        assert(ns2[i].childs@ == ns0[i].childs@);
                    }
                }
                assert(self.wf_shape());
                assert forall|i: int| 0 < i < ns2.len() implies #[trigger] leads_to_word(ns2, i)
                    || is_path_prefix(ns2[i].chars@, chars@) by {
                    if i == idx {
                        assert(ns2[i].chars@ =~= target);
                        assert(chars@.subrange(0, target.len() as int) =~= target);
                    } else if leads_to_word(ns0, i) {
                        let j = choose|j: int| 0 <= j < ns0.len() && (#[trigger] ns0[j]).words@.len() > 0
                            && is_path_prefix(ns0[i].chars@, ns0[j].chars@);
                        assert(ns2[j].words@ == ns0[j].words@ && ns2[j].chars@ == ns0[j].chars@);
                        assert(ns2[i].chars@ == ns0[i].chars@);
                    } else {
                        assert(ns2[i].chars@ == ns0[i].chars@);
                    }
                }
                assert forall|p: Seq<char>| #[trigger] self.has_node(p)
                    <==> (old(self).has_node(p) || (p.len() <= pos + 1 && is_path_prefix(p, chars@))) by {
                    if self.has_node(p) {
                        let x = choose|x: int| 0 <= x < ns2.len() && #[trigger] ns2[x].chars@ == p;
                        if x < ns0.len() {
                            assert(ns0[x].chars@ == p);
                            assert(t0.has_node(p));
                        } else {
                            assert(p == ns2[idx as int].chars@);
                            assert(ns2[idx as int].chars@ =~= target);
                            assert(target.subrange(0, target.len() as int) =~= target);
                            assert(chars@.subrange(0, p.len() as int) =~= target);
                        }
                    }
                    if p.len() == pos + 1 && is_path_prefix(p, chars@) {
                        assert(p =~= target);
                        assert(ns2[idx as int].chars@ =~= target);
                    } else if old(self).has_node(p) || (p.len() <= pos && is_path_prefix(p, chars@)) {
                        assert(t0.has_node(p));
                        let x = choose|x: int| 0 <= x < ns0.len() && #[trigger] ns0[x].chars@ == p;
                        assert(ns2[x].chars@ == p);
                    }
                }
                cur = idx;
            }
            pos = pos + 1;
        }
        assert(chars@.subrange(0, pos as int) =~= chars@);
        let ghost mid = self.nodes@;
        let ghost mid_t = *self;
        self.nodes[cur].words.push(word);
        let ghost ns = self.nodes@;
        assert forall|i: int| 0 <= i < ns.len() && i != cur implies #[trigger] ns[i] == mid[i] by {}
        assert forall|p: Seq<char>| #[trigger] self.has_node(p) <==> (old(self).has_node(p) || is_path_prefix(p, chars@)) by {
            if self.has_node(p) {
                let x = choose|x: int| 0 <= x < ns.len() && #[trigger] ns[x].chars@ == p;
                assert(mid[x].chars@ == p);
                assert(mid_t.has_node(p));
            }
            if mid_t.has_node(p) {
                let x = choose|x: int| 0 <= x < mid.len() && #[trigger] mid[x].chars@ == p;
                assert(ns[x].chars@ == p);
            }
        }
        assert forall|i: int, m: int| 0 <= i < ns.len() && 0 <= m < ns[i].words@.len()
            implies is_profile(ns[i].chars@, #[trigger] ns[i].words@[m]@) && ns[i].words@[m]@.no_duplicates() by {
            if i == cur && m == mid[i].words@.len() {
            } else {
                assert(ns[i].words@[m] == mid[i].words@[m]);
            }
        }
        assert forall|i: int, a: int, b: int| 0 <= i < ns.len() && 0 <= a < b < ns[i].childs@.len()
            implies (#[trigger] ns[i].childs@[a]).0 != (#[trigger] ns[i].childs@[b]).0 by {
            assert(ns[i].childs@ == mid[i].childs@);
        }
        assert forall|j: int| 0 < j < ns.len() implies #[trigger] has_parent(ns, j) by {
            assert(has_parent(mid, j));
            let (pi, pk) = choose|pi: int, pk: int|
                0 <= pi < mid.len() && 0 <= pk < mid[pi].childs@.len()
                && #[trigger] mid[pi].childs@[pk] == (mid[j].chars@.last(), j as usize);
            assert(ns[pi].childs@[pk] == mid[pi].childs@[pk]);
        }
        assert(self.wf_shape());
        assert forall|i: int| 0 < i < ns.len() implies #[trigger] leads_to_word(ns, i) by {
            assert(ns[i].chars@ == mid[i].chars@);
            assert(ns[cur as int].words@.len() > 0);
            if leads_to_word(mid, i) {
                let j = choose|j: int| 0 <= j < mid.len() && (#[trigger] mid[j]).words@.len() > 0
                    && is_path_prefix(mid[i].chars@, mid[j].chars@);
                assert(ns[j].chars@ == mid[j].chars@);
                assert(ns[j].words@.len() > 0);
            } else {
                assert(ns[cur as int].chars@ == chars@);
            }
        }
        assert(self.wf());
        assert forall|p: Seq<char>| #[trigger] self.words_at(p) == if p == chars@ {
            old(self).words_at(p).push(word)
        } else {
            old(self).words_at(p)
        } by {
            if self.has_node(p) {
                let i = choose|i: int| 0 <= i < ns.len() && #[trigger] ns[i].chars@ == p;
                self.lemma_words_at(i);
                if i < old_nodes.len() {
                    old(self).lemma_words_at(i);
                } else {
                    if old(self).has_node(p) {
                        let i2 = choose|i2: int| 0 <= i2 < old_nodes.len() && #[trigger] old_nodes[i2].chars@ == p;
                        assert(ns[i2].chars@ == p);
                    }
                }
                if i != cur {
                    assert(p != chars@);
                }
            } else {
                self.lemma_words_at(cur as int);
                if old(self).has_node(p) {
                    let i2 = choose|i2: int| 0 <= i2 < old_nodes.len() && #[trigger] old_nodes[i2].chars@ == p;
                    assert(ns[i2].chars@ == p);
                }
            }
        }
    }
}

impl Tree {
    /// Every word held in the trie, node by node.
    pub fn all_words(&self) -> (r: Vec<String>)
        requires
            self.wf(),
        ensures
            r@ == self.all_words_spec(),
            forall|w: String| #[trigger] r@.contains(w) <==> exists|p: Seq<char>| #[trigger] self.words_at(p).contains(w),
            (forall|p: Seq<char>| #[trigger] self.words_at(p).len() == 0) ==> r@.len() == 0,
    {
        proof {
            self.lemma_words_upto_has(self.nodes@.len() as int);
            assert forall|w: String| #[trigger] self.all_words_spec().contains(w)
                <==> exists|p: Seq<char>| #[trigger] self.words_at(p).contains(w) by {
                if self.all_words_spec().contains(w) {
                    let i = choose|i: int| 0 <= i < self.nodes@.len() && #[trigger] self.nodes@[i].words@.contains(w);
                    self.lemma_words_at(i);
                    assert(self.words_at(self.nodes@[i].chars@).contains(w));
                }
                if exists|p: Seq<char>| #[trigger] self.words_at(p).contains(w) {
                    let p = choose|p: Seq<char>| #[trigger] self.words_at(p).contains(w);
                    assert(self.has_node(p));
                    let i = choose|i: int| 0 <= i < self.nodes@.len() && #[trigger] self.nodes@[i].chars@ == p;
                    self.lemma_words_at(i);
                }
            }
            if forall|p: Seq<char>| #[trigger] self.words_at(p).len() == 0 {
                if self.all_words_spec().len() > 0 {
                    let w = self.all_words_spec()[0];
                    assert(self.all_words_spec().contains(w));
                    let p = choose|p: Seq<char>| #[trigger] self.words_at(p).contains(w);
                    assert(self.words_at(p).len() == 0);
                }
            }
        }
        let mut out: Vec<String> = Vec::new();
        let mut i: usize = 0;
        while i < self.nodes.len()
            invariant
                i <= self.nodes@.len(),
                out@ == self.words_upto(i as int),
            decreases self.nodes@.len() - i,
        {
            let mut k: usize = 0;
            while k < self.nodes[i].words.len()
                invariant
                    i < self.nodes@.len(),
                    k <= self.nodes@[i as int].words@.len(),
                    out@ == self.words_upto(i as int) + self.nodes@[i as int].words@.subrange(0, k as int),
                decreases self.nodes@[i as int].words@.len() - k,
            {
                let w = self.nodes[i].words[k].clone();
                out.push(w);
                assert(out@ =~= self.words_upto(i as int) + self.nodes@[i as int].words@.subrange(0, k + 1));
                k = k + 1;
            }
            assert(self.nodes@[i as int].words@.subrange(0, k as int) =~= self.nodes@[i as int].words@);
            i = i + 1;
        }
        out
    }

    /// Every word of the trie has no repeated letter.
    pub proof fn lemma_all_words_distinct(&self)
        requires
            self.wf(),
        ensures
            forall|k: int| 0 <= k < self.all_words_spec().len() ==> (#[trigger] self.all_words_spec()[k])@.no_duplicates(),
    {
        self.lemma_words_upto_distinct(self.nodes@.len() as int);
    }

    /// A word is among the words of nodes `0..k` exactly when one of those nodes holds it.
    proof fn lemma_words_upto_has(&self, k: int)
        requires
            0 <= k <= self.nodes@.len(),
        ensures
            forall|w: String| #[trigger] self.words_upto(k).contains(w)
                <==> exists|i: int| 0 <= i < k && #[trigger] self.nodes@[i].words@.contains(w),
        decreases k,
    {
        if k > 0 {
            self.lemma_words_upto_has(k - 1);
            let a = self.words_upto(k - 1);
            let b = self.nodes@[k - 1].words@;
            assert(self.words_upto(k) == a + b);
            assert forall|w: String| #[trigger] self.words_upto(k).contains(w)
                <==> exists|i: int| 0 <= i < k && #[trigger] self.nodes@[i].words@.contains(w) by {
                if (a + b).contains(w) {
                    let x = choose|x: int| 0 <= x < (a + b).len() && (a + b)[x] == w;
                    if x < a.len() {
                        assert(a.contains(w));
                    } else {
                        assert(b[x - a.len()] == w);
                        assert(self.nodes@[k - 1].words@.contains(w));
                    }
                }
                if exists|i: int| 0 <= i < k && #[trigger] self.nodes@[i].words@.contains(w) {
                    let i = choose|i: int| 0 <= i < k && #[trigger] self.nodes@[i].words@.contains(w);
                    if i < k - 1 {
                        assert(a.contains(w));
                        let x = choose|x: int| 0 <= x < a.len() && a[x] == w;
                        assert((a + b)[x] == w);
                    } else {
                        let x = choose|x: int| 0 <= x < b.len() && b[x] == w;
                        assert((a + b)[a.len() + x] == w);
                    }
                }
            }
        } else {
            assert(self.words_upto(k) =~= Seq::<String>::empty());
        }
    }

    proof fn lemma_words_upto_distinct(&self, n: int)
        requires
            self.wf(),
            0 <= n <= self.nodes@.len(),
        ensures
            forall|k: int| 0 <= k < self.words_upto(n).len() ==> (#[trigger] self.words_upto(n)[k])@.no_duplicates(),
        decreases n,
    {
        if n > 0 {
            self.lemma_words_upto_distinct(n - 1);
            let a = self.words_upto(n - 1);
            let b = self.nodes@[n - 1].words@;
            assert forall|k: int| 0 <= k < self.words_upto(n).len() implies (#[trigger] self.words_upto(n)[k])@.no_duplicates() by {
                if k >= a.len() {
                    assert(self.words_upto(n)[k] == b[k - a.len()]);
                } else {
                    assert(self.words_upto(n)[k] == a[k]);
                }
            }
        }
    }
}

/// The words of `ws` whose letter profile is `p`, in order.
pub open spec fn profile_words(ws: Seq<String>, p: Seq<char>) -> Seq<String>
    decreases ws.len(),
{
    if ws.len() == 0 {
        Seq::empty()
    } else if is_profile(p, ws.last()@) {
        profile_words(ws.drop_last(), p).push(ws.last())
    } else {
        profile_words(ws.drop_last(), p)
    }
}

/// The trie of `words`, which have no repeated letters: the node of each
/// profile holds the words with that profile, in input order.
pub fn build_tree(words: &Vec<String>) -> (t: Tree)
    requires
        forall|k: int| 0 <= k < words@.len() ==> (#[trigger] words@[k])@.no_duplicates(),
    ensures
        t.wf(),
        forall|p: Seq<char>| #[trigger] t.words_at(p) == profile_words(words@, p),
{
    let mut t = Tree::new();
    let mut i: usize = 0;
    while i < words.len()
        invariant
            i <= words@.len(),
            t.wf(),
            forall|k: int| 0 <= k < words@.len() ==> (#[trigger] words@[k])@.no_duplicates(),
            forall|p: Seq<char>| #[trigger] t.words_at(p) == profile_words(words@.subrange(0, i as int), p),
        decreases words@.len() - i,
    {
        let w = words[i].clone();
        assert(w@.no_duplicates()) by {
            assert(w == words@[i as int]);
        }
        t.insert(w);
        assert(words@.subrange(0, i + 1).drop_last() =~= words@.subrange(0, i as int));
        assert(words@.subrange(0, i + 1).last() == w);
        i = i + 1;
    }
    assert(words@.subrange(0, i as int) =~= words@);
    t
}

/// `c` comes no later than `d` when letters are ranked by how often they
/// occur across `ws`, rarer first, ties broken by the letter.
pub open spec fn ranked_le(ws: Seq<String>, c: char, d: char) -> bool {
    letter_count(ws, c) < letter_count(ws, d) || (letter_count(ws, c) == letter_count(ws, d) && c <= d)
}

/// The trie of a `Tree` with each node's children ordered by letter rank,
/// held as an arena in which no path occurs twice; node 0 is the root.
pub struct FastTree {
    nodes: Vec<TreeNode>,
}

/// Every node of `ns` is well formed: its path strictly increases, each
/// child extends that path by the child's letter and stands later in the
/// arena, and each word has the path as its profile.
pub closed spec fn nodes_wf(ns: Seq<TreeNode>) -> bool {
    &&& forall|i: int| 0 <= i < ns.len() ==> strictly_sorted(#[trigger] ns[i].chars@)
    &&& forall|i: int, k: int| 0 <= i < ns.len() && 0 <= k < ns[i].childs@.len() ==> {
        let (c, j) = #[trigger] ns[i].childs@[k];
        &&& i < j < ns.len()
        &&& ns[j as int].chars@ == ns[i].chars@.push(c)
    }
    &&& forall|i: int, k: int| 0 <= i < ns.len() && 0 <= k < ns[i].words@.len()
        ==> is_profile(ns[i].chars@, #[trigger] ns[i].words@[k]@) && ns[i].words@[k]@.no_duplicates()
    &&& forall|i: int, a: int, b: int| 0 <= i < ns.len() && 0 <= a < b < ns[i].childs@.len()
        ==> (#[trigger] ns[i].childs@[a]).0 != (#[trigger] ns[i].childs@[b]).0
}

/// The children of every node of `ns` are in rank order.
pub closed spec fn nodes_ranked(ns: Seq<TreeNode>, ws: Seq<String>) -> bool {
    forall|i: int, a: int, b: int| 0 <= i < ns.len() && 0 <= a < b < ns[i].childs@.len()
        ==> ranked_le(ws, (#[trigger] ns[i].childs@[a]).0, (#[trigger] ns[i].childs@[b]).0)
}

impl FastTree {
    /// The number of nodes.
    pub closed spec fn node_count(&self) -> nat {
        self.nodes@.len()
    }

    /// The path of letters that leads to node `i`.
    pub closed spec fn chars_of(&self, i: int) -> Seq<char> {
        self.nodes@[i].chars@
    }

    /// The words held at node `i`.
    pub closed spec fn words_of(&self, i: int) -> Seq<String> {
        self.nodes@[i].words@
    }

    /// The children of node `i`, each a letter and a node index.
    pub closed spec fn childs_of(&self, i: int) -> Seq<(char, usize)> {
        self.nodes@[i].childs@
    }

    /// The arena forms a trie: the root has the empty path, every path
    /// strictly increases, a child extends its parent's path by its letter
    /// and stands later in the arena, and each word's profile is its node's path.
    pub open spec fn wf(&self) -> bool {
        &&& 1 <= self.node_count() <= usize::MAX
        &&& self.chars_of(0) == Seq::<char>::empty()
        &&& forall|i: int| 0 <= i < self.node_count() ==> strictly_sorted(#[trigger] self.chars_of(i))
        &&& forall|i: int, k: int| 0 <= i < self.node_count() && 0 <= k < self.childs_of(i).len() ==> {
            let (c, j) = #[trigger] self.childs_of(i)[k];
            &&& i < j < self.node_count()
            &&& self.chars_of(j as int) == self.chars_of(i).push(c)
        }
        &&& forall|i: int, k: int| 0 <= i < self.node_count() && 0 <= k < self.words_of(i).len()
            ==> is_profile(self.chars_of(i), #[trigger] self.words_of(i)[k]@)
                && self.words_of(i)[k]@.no_duplicates()
        &&& forall|i: int, a: int, b: int| 0 <= i < self.node_count() && 0 <= a < b < self.childs_of(i).len()
            ==> (#[trigger] self.childs_of(i)[a]).0 != (#[trigger] self.childs_of(i)[b]).0
        &&& forall|i: int, j: int| 0 <= i < j < self.node_count() ==> #[trigger] self.chars_of(i) != #[trigger] self.chars_of(j)
        &&& forall|i: int, c: char| 0 <= i < self.node_count() ==> ((exists|k: int| 0 <= k < self.childs_of(i).len()
            && self.childs_of(i)[k].0 == c) <==> #[trigger] self.has_path(self.chars_of(i).push(c)))
        &&& forall|j: int, p: Seq<char>| 0 <= j < self.node_count() && #[trigger] is_path_prefix(p, self.chars_of(j))
            ==> self.has_path(p)
    }

    /// Some node's path is `p`.
    pub open spec fn has_path(&self, p: Seq<char>) -> bool {
        exists|i: int| 0 <= i < self.node_count() && #[trigger] self.chars_of(i) == p
    }

    /// Every node's children are in rank order for the letter counts of `ws`.
    pub open spec fn ranked_by(&self, ws: Seq<String>) -> bool {
        forall|i: int, a: int, b: int| 0 <= i < self.node_count() && 0 <= a < b < self.childs_of(i).len()
            ==> ranked_le(ws, (#[trigger] self.childs_of(i)[a]).0, (#[trigger] self.childs_of(i)[b]).0)
    }

    /// The number of nodes.
    pub fn len(&self) -> (r: usize)
        ensures
            r == self.node_count(),
    {
        self.nodes.len()
    }

    /// The path of letters that leads to `node`.
    pub fn chars(&self, node: usize) -> (r: &[char])
        requires
            node < self.node_count(),
        ensures
            r@ == self.chars_of(node as int),
    {
        self.nodes[node].chars.as_slice()
    }

    /// The words held at `node`.
    pub fn words(&self, node: usize) -> (r: &[String])
        requires
            node < self.node_count(),
        ensures
            r@ == self.words_of(node as int),
    {
        self.nodes[node].words.as_slice()
    }

    /// The children of `node`, in rank order.
    pub fn childs(&self, node: usize) -> (r: &[(char, usize)])
        requires
            node < self.node_count(),
        ensures
            r@ == self.childs_of(node as int),
    {
        self.nodes[node].childs.as_slice()
    }
}

impl Tree {
    /// The children of node `i`, ordered by the rank of their letter.
    fn ranked_children(&self, i: usize, counts: &Vec<(char, usize)>, ws: Ghost<Seq<String>>) -> (r: Vec<(char, usize)>)
        requires
            self.wf(),
            i < self.nodes@.len(),
            forall|c: char| #[trigger] count_of(counts@, c) == letter_count(ws@, c),
        ensures
            forall|a: int, b: int| 0 <= a < b < r@.len() ==> (#[trigger] r@[a]).0 != (#[trigger] r@[b]).0,
            r@.len() == self.nodes@[i as int].childs@.len(),
            forall|e: (char, usize)| r@.contains(e) <==> self.nodes@[i as int].childs@.contains(e),
            forall|a: int, b: int| 0 <= a < b < r@.len() ==> ranked_le(ws@, (#[trigger] r@[a]).0, (#[trigger] r@[b]).0),
    {
        let src = &self.nodes[i].childs;
        let mut r: Vec<(char, usize)> = Vec::new();
        let mut k: usize = 0;
        while k < src.len()
            invariant
                self.wf(),
                i < self.nodes@.len(),
                src@ == self.nodes@[i as int].childs@,
                forall|a: int, b: int| 0 <= a < b < r@.len() ==> (#[trigger] r@[a]).0 != (#[trigger] r@[b]).0,
                k <= src@.len(),
                r@.len() == k,
                forall|c: char| #[trigger] count_of(counts@, c) == letter_count(ws@, c),
                forall|e: (char, usize)| r@.contains(e) <==> src@.subrange(0, k as int).contains(e),
                forall|a: int, b: int| 0 <= a < b < r@.len() ==> ranked_le(ws@, (#[trigger] r@[a]).0, (#[trigger] r@[b]).0),
            decreases src@.len() - k,
        {
            let e = src[k];
            let ke = count_lookup(counts, e.0);
            let mut pos: usize = 0;
            let mut go = true;
            while go && pos < r.len()
                invariant
                    pos <= r@.len(),
                    ke == letter_count(ws@, e.0),
                    forall|c: char| #[trigger] count_of(counts@, c) == letter_count(ws@, c),
                    forall|m: int| 0 <= m < pos ==> ranked_le(ws@, (#[trigger] r@[m]).0, e.0),
                    !go ==> pos < r@.len() && !ranked_le(ws@, r@[pos as int].0, e.0),
                decreases r@.len() - pos + if go { 1int } else { 0int },
            {
                let kp = count_lookup(counts, r[pos].0);
                if kp < ke || (kp == ke && r[pos].0 <= e.0) {
                    pos = pos + 1;
                } else {
                    go = false;
                }
            }
            let ghost old_r = r@;
            assert forall|m: int| 0 <= m < old_r.len() implies (#[trigger] old_r[m]).0 != e.0 by {
                assert(old_r.contains(old_r[m]));
                assert(src@.subrange(0, k as int).contains(old_r[m]));
                let q = choose|q: int| 0 <= q < k && #[trigger] src@.subrange(0, k as int)[q] == old_r[m];
                assert(src@[q] == old_r[m]);
                assert(src@[k as int] == e);
                assert(self.nodes@[i as int].childs@[q].0 != self.nodes@[i as int].childs@[k as int].0);
            }
            r.insert(pos, e);
            assert forall|a: int, b: int| 0 <= a < b < r@.len() implies (#[trigger] r@[a]).0 != (#[trigger] r@[b]).0 by {
                if b < pos {
                } else if b == pos {
                    assert(r@[a] == old_r[a]);
                } else if a < pos {
                    assert(r@[b] == old_r[b - 1]);
                } else if a == pos {
                    assert(r@[b] == old_r[b - 1]);
                } else {
                    assert(r@[a] == old_r[a - 1]);
                    assert(r@[b] == old_r[b - 1]);
                }
            }
            assert forall|a: int, b: int| 0 <= a < b < r@.len() implies ranked_le(ws@, (#[trigger] r@[a]).0, (#[trigger] r@[b]).0) by {
                if b < pos {
                } else if b == pos {
                } else if a < pos {
                    assert(ranked_le(ws@, old_r[a].0, e.0));
                    assert(ranked_le(ws@, e.0, old_r[pos as int].0));
                    if (pos as int) < b - 1 {
                        assert(ranked_le(ws@, old_r[pos as int].0, old_r[b - 1].0));
                    }
                } else if a == pos {
                    assert(ranked_le(ws@, e.0, old_r[pos as int].0));
                    if (pos as int) < b - 1 {
                        assert(ranked_le(ws@, old_r[pos as int].0, old_r[b - 1].0));
                    }
                } else {
                    assert(ranked_le(ws@, old_r[a - 1].0, old_r[b - 1].0));
                }
            }
            assert forall|d: (char, usize)| r@.contains(d) <==> src@.subrange(0, k + 1).contains(d) by {
                if r@.contains(d) {
                    let x = choose|x: int| 0 <= x < r@.len() && r@[x] == d;
                    if x < pos {
                        assert(old_r[x] == d);
                        assert(old_r.contains(d));
                    } else if x > pos {
                        assert(old_r[x - 1] == d);
                        assert(old_r.contains(d));
                    }
                    if x != pos {
                        let m = choose|m: int| 0 <= m < k && #[trigger] src@.subrange(0, k as int)[m] == d;
                        assert(src@.subrange(0, k + 1)[m] == d);
                    } else {
                        assert(src@.subrange(0, k + 1)[k as int] == d);
                    }
                }
                if src@.subrange(0, k + 1).contains(d) {
                    let m = choose|m: int| 0 <= m < k + 1 && #[trigger] src@.subrange(0, k + 1)[m] == d;
                    if m < k {
                        assert(src@.subrange(0, k as int)[m] == d);
                        assert(old_r.contains(d));
                        let x = choose|x: int| 0 <= x < old_r.len() && old_r[x] == d;
                        if x < pos {
                            assert(r@[x] == d);
                        } else {
                            assert(r@[x + 1] == d);
                        }
                    } else {
                        assert(r@[pos as int] == d);
                    }
                }
            }
            k = k + 1;
        }
        assert(src@.subrange(0, k as int) =~= src@);
        r
    }
}

/// Every node of `ns` has the path of a node of `t`, and the words held there.
pub closed spec fn nodes_from(ns: Seq<TreeNode>, t: Tree) -> bool {
    forall|m: int| 0 <= m < ns.len() ==> t.has_node((#[trigger] ns[m]).chars@) && t.words_at(ns[m].chars@) == ns[m].words@
}

/// Some node of `ns` from position `lo` on has path `p`.
spec fn has_path_from(ns: Seq<TreeNode>, lo: int, p: Seq<char>) -> bool {
    exists|m: int| lo <= m < ns.len() && #[trigger] ns[m].chars@ == p
}

/// `p` is a prefix of `q`.
pub open spec fn is_path_prefix(p: Seq<char>, q: Seq<char>) -> bool {
    p.len() <= q.len() && q.subrange(0, p.len() as int) == p
}

/// No two nodes of `ns` have the same path.
spec fn paths_unique(ns: Seq<TreeNode>) -> bool {
    forall|a: int, b: int| 0 <= a < b < ns.len() ==> #[trigger] ns[a].chars@ != #[trigger] ns[b].chars@
}

/// Node `m` of `ns` has a child under `c` exactly when `t` has its path extended by `c`.
spec fn children_complete(ns: Seq<TreeNode>, m: int, t: Tree) -> bool {
    forall|c: char| #[trigger] t.has_node(ns[m].chars@.push(c))
        <==> exists|k: int| 0 <= k < ns[m].childs@.len() && ns[m].childs@[k].0 == c
}

proof fn lemma_prefix_push(p: Seq<char>, c: char, q: Seq<char>)
    requires
        is_path_prefix(p.push(c), q),
    ensures
        is_path_prefix(p, q),
        q[p.len() as int] == c,
{
    assert(q.subrange(0, p.len() as int) =~= q.subrange(0, p.len() as int + 1).subrange(0, p.len() as int));
    assert(p.push(c).subrange(0, p.len() as int) =~= p);
    assert(q.subrange(0, p.len() as int + 1)[p.len() as int] == q[p.len() as int]);
}

impl Tree {
    /// Node `i` has a child under `c` exactly when the trie has its path extended by `c`.
    proof fn lemma_child_letter(&self, i: int, c: char)
        requires
            self.wf(),
            0 <= i < self.nodes@.len(),
        ensures
            self.has_node(self.nodes@[i].chars@.push(c))
                <==> exists|k: int| 0 <= k < self.nodes@[i].childs@.len() && self.nodes@[i].childs@[k].0 == c,
    {
        let ns = self.nodes@;
        let p = ns[i].chars@.push(c);
        assert(self.nodes.len() == ns.len());
        if self.has_node(p) {
            let j = choose|j: int| 0 <= j < ns.len() && #[trigger] ns[j].chars@ == p;
            assert(j != 0) by {
                assert(ns[j].chars@.len() > 0);
            }
            assert(has_parent(ns, j));
            let (q, qk) = choose|q: int, qk: int|
                0 <= q < ns.len() && 0 <= qk < ns[q].childs@.len()
                && #[trigger] ns[q].childs@[qk] == (ns[j].chars@.last(), j as usize);
            assert(ns[j].chars@ == ns[q].chars@.push(ns[j].chars@.last()));
            assert(ns[q].chars@ =~= ns[j].chars@.drop_last());
            assert(ns[q].chars@ =~= ns[i].chars@);
            assert(q == i);
            assert(ns[i].childs@[qk].0 == c);
        }
        if exists|k: int| 0 <= k < ns[i].childs@.len() && ns[i].childs@[k].0 == c {
            let k = choose|k: int| 0 <= k < ns[i].childs@.len() && ns[i].childs@[k].0 == c;
            let (d, j) = ns[i].childs@[k];
            assert(ns[j as int].chars@ == p);
        }
    }

    /// Every prefix of a node's path is a node's path.
    proof fn lemma_prefix_closed(&self, j: int, p: Seq<char>)
        requires
            self.wf(),
            0 <= j < self.nodes@.len(),
            is_path_prefix(p, self.nodes@[j].chars@),
        ensures
            self.has_node(p),
        decreases self.nodes@[j].chars@.len(),
    {
        let ns = self.nodes@;
        assert(self.nodes.len() == ns.len());
        if p.len() == ns[j].chars@.len() {
            assert(p =~= ns[j].chars@);
            assert(ns[j].chars@ == p);
        } else {
            assert(j != 0);
            assert(has_parent(ns, j));
            let (q, qk) = choose|q: int, qk: int|
                0 <= q < ns.len() && 0 <= qk < ns[q].childs@.len()
                && #[trigger] ns[q].childs@[qk] == (ns[j].chars@.last(), j as usize);
            assert(ns[j].chars@ == ns[q].chars@.push(ns[j].chars@.last()));
            assert(ns[q].chars@ =~= ns[j].chars@.drop_last());
            assert(ns[q].chars@.subrange(0, p.len() as int) =~= ns[j].chars@.subrange(0, p.len() as int));
            self.lemma_prefix_closed(q, p);
        }
    }

    /// A node below node `i` lies below one of `i`'s children.
    proof fn lemma_below_child(&self, i: int, j: int)
        requires
            self.wf(),
            0 <= i < self.nodes@.len(),
            0 <= j < self.nodes@.len(),
            is_path_prefix(self.nodes@[i].chars@, self.nodes@[j].chars@),
            self.nodes@[i].chars@.len() < self.nodes@[j].chars@.len(),
        ensures
            exists|k: int| 0 <= k < self.nodes@[i].childs@.len()
                && is_path_prefix(self.nodes@[(#[trigger] self.nodes@[i].childs@[k]).1 as int].chars@, self.nodes@[j].chars@),
        decreases self.nodes@[j].chars@.len(),
    {
        let ns = self.nodes@;
        assert(self.nodes.len() == ns.len());
        assert(j != 0);
        assert(has_parent(ns, j));
        let (q, qk) = choose|q: int, qk: int|
            0 <= q < ns.len() && 0 <= qk < ns[q].childs@.len()
            && #[trigger] ns[q].childs@[qk] == (ns[j].chars@.last(), j as usize);
        assert(ns[j].chars@ == ns[q].chars@.push(ns[j].chars@.last()));
        assert(ns[q].chars@ =~= ns[j].chars@.drop_last());
        let li = ns[i].chars@.len() as int;
        if li + 1 == ns[j].chars@.len() {
            assert(ns[q].chars@ =~= ns[i].chars@);
            assert(q == i);
            assert(ns[j].chars@.subrange(0, ns[j].chars@.len() as int) =~= ns[j].chars@);
            assert(is_path_prefix(ns[ns[i].childs@[qk].1 as int].chars@, ns[j].chars@));
        } else {
            assert(is_path_prefix(ns[i].chars@, ns[q].chars@)) by {
                assert(ns[q].chars@.subrange(0, li) =~= ns[j].chars@.subrange(0, li));
            }
            self.lemma_below_child(i, q);
            let k = choose|k: int| 0 <= k < ns[i].childs@.len()
                && is_path_prefix(ns[(#[trigger] ns[i].childs@[k]).1 as int].chars@, ns[q].chars@);
            let cj = ns[ns[i].childs@[k].1 as int].chars@;
            assert(ns[j].chars@.subrange(0, cj.len() as int) =~= ns[q].chars@.subrange(0, cj.len() as int));
            assert(is_path_prefix(cj, ns[j].chars@));
        }
    }

    /// The ranked trie: the same nodes, with each node's children ordered by
    /// how often their letter occurs across all words of the trie (rarer
    /// first, ties broken by the letter), each path once.
    pub fn build_fast_tree(&self) -> (r: FastTree)
        requires
            self.wf(),
        ensures
            r.wf(),
            r.ranked_by(self.all_words_spec()),
            forall|i: int| 0 <= i < r.node_count() ==> self.has_node(#[trigger] r.chars_of(i))
                && self.words_at(r.chars_of(i)) == r.words_of(i),
            forall|p: Seq<char>| #[trigger] self.has_node(p) ==> exists|i: int| 0 <= i < r.node_count() && r.chars_of(i) == p,
            forall|i: int, c: char| 0 <= i < r.node_count() ==> ((exists|k: int| 0 <= k < r.childs_of(i).len()
                && r.childs_of(i)[k].0 == c) <==> #[trigger] self.has_node(r.chars_of(i).push(c))),
    {
        let ws = self.all_words();
        proof {
            self.lemma_all_words_distinct();
        }
        let counts = letter_counts(&ws);
        let mut out: Vec<TreeNode> = Vec::new();
        self.build_fast_tree_impl(0, &counts, Ghost(ws@), &mut out);
        let count = out.len();
        let r = FastTree { nodes: out };
        assert(r.node_count() == count);
        assert forall|p: Seq<char>| #[trigger] self.has_node(p) implies exists|i: int| 0 <= i < r.node_count() && r.chars_of(i) == p by {
            let j = choose|j: int| 0 <= j < self.nodes@.len() && #[trigger] self.nodes@[j].chars@ == p;
            assert(self.nodes@[j].chars@.subrange(0, 0) =~= self.nodes@[0].chars@);
            assert(has_path_from(r.nodes@, 0, p));
            let m = choose|m: int| 0 <= m < r.nodes@.len() && #[trigger] r.nodes@[m].chars@ == p;
            assert(r.chars_of(m) == p);
        }
        assert(r.chars_of(0) == self.nodes@[0].chars@);
        assert forall|i: int, c: char| 0 <= i < r.node_count() implies ((exists|k: int| 0 <= k < r.childs_of(i).len()
            && r.childs_of(i)[k].0 == c) <==> #[trigger] self.has_node(r.chars_of(i).push(c))) by {
            let nd = r.nodes@[i];
            assert(is_path_prefix(self.nodes@[0].chars@, nd.chars@) && children_complete(r.nodes@, i, *self));
            assert(self.has_node(r.nodes@[i].chars@.push(c)) <==> exists|k: int| 0 <= k < r.nodes@[i].childs@.len()
                && r.nodes@[i].childs@[k].0 == c);
            assert(r.chars_of(i) == r.nodes@[i].chars@);
            assert(self.has_node(r.chars_of(i).push(c)) <==> r.has_path(r.chars_of(i).push(c))) by {
                if self.has_node(r.chars_of(i).push(c)) {
                    let m = choose|m: int| 0 <= m < r.node_count() && r.chars_of(m) == r.chars_of(i).push(c);
                    assert(r.chars_of(m) == r.chars_of(i).push(c));
                }
                if r.has_path(r.chars_of(i).push(c)) {
                    let m = choose|m: int| 0 <= m < r.node_count() && #[trigger] r.chars_of(m) == r.chars_of(i).push(c);
                    assert(self.has_node(r.chars_of(m)));
                }
            }
            assert(r.childs_of(i) == r.nodes@[i].childs@);
            if exists|k: int| 0 <= k < r.childs_of(i).len() && r.childs_of(i)[k].0 == c {
                let k = choose|k: int| 0 <= k < r.childs_of(i).len() && r.childs_of(i)[k].0 == c;
                assert(r.nodes@[i].childs@[k].0 == c);
            }
            if self.has_node(r.chars_of(i).push(c)) {
                let k = choose|k: int| 0 <= k < r.nodes@[i].childs@.len() && r.nodes@[i].childs@[k].0 == c;
                assert(r.childs_of(i)[k].0 == c);
            }
            assert(self.has_node(r.nodes@[i].chars@.push(c)) <==> exists|k: int| 0 <= k < r.nodes@[i].childs@.len()
                && r.nodes@[i].childs@[k].0 == c);
        }
        assert forall|j: int, p: Seq<char>| 0 <= j < r.node_count() && #[trigger] is_path_prefix(p, r.chars_of(j))
            implies r.has_path(p) by {
            assert(self.has_node(r.chars_of(j)));
            let jj = choose|jj: int| 0 <= jj < self.nodes@.len() && #[trigger] self.nodes@[jj].chars@ == r.chars_of(j);
            self.lemma_prefix_closed(jj, p);
            let m = choose|m: int| 0 <= m < r.node_count() && r.chars_of(m) == p;
            assert(r.chars_of(m) == p);
        }
        assert forall|i: int, c: char| 0 <= i < r.node_count() implies ((exists|k: int| 0 <= k < r.childs_of(i).len()
            && r.childs_of(i)[k].0 == c) <==> #[trigger] r.has_path(r.chars_of(i).push(c))) by {
            assert(self.has_node(r.chars_of(i).push(c)) <==> r.has_path(r.chars_of(i).push(c)));
            assert((exists|k: int| 0 <= k < r.childs_of(i).len()
                && r.childs_of(i)[k].0 == c) <==> self.has_node(r.chars_of(i).push(c)));
        }
        r
    }

    /// Appends to `out` a copy of node `i`, then, child by child in rank
    /// order, the copies of the subtrees below it, linking each child.
    fn build_fast_tree_impl(&self, i: usize, counts: &Vec<(char, usize)>, ws: Ghost<Seq<String>>, out: &mut Vec<TreeNode>)
        requires
            self.wf(),
            i < self.nodes@.len(),
            forall|c: char| #[trigger] count_of(counts@, c) == letter_count(ws@, c),
            nodes_wf(old(out)@),
            nodes_ranked(old(out)@, ws@),
            nodes_from(old(out)@, *self),
            paths_unique(old(out)@),
            forall|m: int| 0 <= m < old(out)@.len()
                ==> !is_path_prefix(self.nodes@[i as int].chars@, (#[trigger] old(out)@[m]).chars@),
        ensures
            paths_unique(final(out)@),
            forall|m: int| old(out)@.len() <= m < final(out)@.len() ==>
                is_path_prefix(self.nodes@[i as int].chars@, (#[trigger] final(out)@[m]).chars@)
                && children_complete(final(out)@, m, *self),
            nodes_wf(final(out)@),
            nodes_ranked(final(out)@, ws@),
            nodes_from(final(out)@, *self),
            final(out)@.len() > old(out)@.len(),
            final(out)@[old(out)@.len() as int].chars@ == self.nodes@[i as int].chars@,
            forall|m: int| 0 <= m < old(out)@.len() ==> #[trigger] final(out)@[m] == old(out)@[m],
            forall|j: int| 0 <= j < self.nodes@.len() && is_path_prefix(self.nodes@[i as int].chars@, #[trigger] self.nodes@[j].chars@)
                ==> has_path_from(final(out)@, old(out)@.len() as int, self.nodes@[j].chars@),
        decreases self.nodes@.len() - i,
    {
        let ghost out0 = out@;
        let idx = out.len();
        let chars = self.nodes[i].chars.clone();
        assert(chars@ =~= self.nodes@[i as int].chars@);
        let words = self.nodes[i].words.clone();
        assert(words@ =~= self.nodes@[i as int].words@);
        out.push(TreeNode { chars, words, childs: Vec::new() });
        proof {
            self.lemma_words_at(i as int);
            let ns = out@;
            assert forall|m: int| 0 <= m < ns.len() implies strictly_sorted(#[trigger] ns[m].chars@) by {
                if m < idx {
                    assert(ns[m] == out0[m]);
                }
            }
            assert forall|m: int, k: int| 0 <= m < ns.len() && 0 <= k < ns[m].words@.len()
                implies is_profile(ns[m].chars@, #[trigger] ns[m].words@[k]@) && ns[m].words@[k]@.no_duplicates() by {
                if m < idx {
                    assert(ns[m] == out0[m]);
                }
            }
            assert forall|m: int, k: int| 0 <= m < ns.len() && 0 <= k < ns[m].childs@.len() implies {
                let (c, j) = #[trigger] ns[m].childs@[k];
                &&& m < j < ns.len()
                &&& ns[j as int].chars@ == ns[m].chars@.push(c)
            } by {
                assert(ns[m] == out0[m]);
                assert(ns[out0[m].childs@[k].1 as int] == out0[out0[m].childs@[k].1 as int]);
            }
            assert forall|m: int, a: int, b: int| 0 <= m < ns.len() && 0 <= a < b < ns[m].childs@.len()
                implies (#[trigger] ns[m].childs@[a]).0 != (#[trigger] ns[m].childs@[b]).0 by {
                assert(ns[m] == out0[m]);
            }
            assert(nodes_wf(ns));
            assert forall|m: int, a: int, b: int| 0 <= m < ns.len() && 0 <= a < b < ns[m].childs@.len()
                implies ranked_le(ws@, (#[trigger] ns[m].childs@[a]).0, (#[trigger] ns[m].childs@[b]).0) by {
                assert(ns[m] == out0[m]);
            }
            assert forall|m: int| 0 <= m < ns.len() implies self.has_node((#[trigger] ns[m]).chars@)
                && self.words_at(ns[m].chars@) == ns[m].words@ by {
                if m < idx {
                    assert(ns[m] == out0[m]);
                }
            }
        }
        proof {
            let ns = out@;
            let ci = self.nodes@[i as int].chars@;
            assert(ci.subrange(0, ci.len() as int) =~= ci);
            assert forall|a: int, b: int| 0 <= a < b < ns.len() implies #[trigger] ns[a].chars@ != #[trigger] ns[b].chars@ by {
                assert(ns[a] == out0[a]);
                if b < idx {
                    assert(ns[b] == out0[b]);
                } else {
                    assert(!is_path_prefix(ci, out0[a].chars@));
                }
            }
        }
        let kids = self.ranked_children(i, counts, ws);
        let mut k: usize = 0;
        while k < kids.len()
            invariant
                self.wf(),
                i < self.nodes@.len(),
                forall|c: char| #[trigger] count_of(counts@, c) == letter_count(ws@, c),
                nodes_wf(out@),
                nodes_ranked(out@, ws@),
                nodes_from(out@, *self),
                idx == out0.len(),
                idx < out@.len(),
                out@[idx as int].chars@ == self.nodes@[i as int].chars@,
                k <= kids@.len(),
                out@[idx as int].childs@.len() == k,
                forall|a: int| 0 <= a < k ==> (#[trigger] out@[idx as int].childs@[a]).0 == kids@[a].0,
                forall|e: (char, usize)| kids@.contains(e) <==> self.nodes@[i as int].childs@.contains(e),
                forall|a: int, b: int| 0 <= a < b < kids@.len() ==> ranked_le(ws@, (#[trigger] kids@[a]).0, (#[trigger] kids@[b]).0),
                forall|a: int, b: int| 0 <= a < b < kids@.len() ==> (#[trigger] kids@[a]).0 != (#[trigger] kids@[b]).0,
                forall|m: int| 0 <= m < out0.len() ==> #[trigger] out@[m] == out0[m],
                paths_unique(out@),
                forall|m: int| 0 <= m < out0.len()
                    ==> !is_path_prefix(self.nodes@[i as int].chars@, (#[trigger] out0[m]).chars@),
                forall|m: int| idx < m < out@.len() ==> children_complete(out@, m, *self) && exists|a: int| 0 <= a < k
                    && is_path_prefix(self.nodes@[i as int].chars@.push((#[trigger] kids@[a]).0), (#[trigger] out@[m]).chars@),
                forall|a: int, j: int| 0 <= a < k && 0 <= j < self.nodes@.len()
                    && is_path_prefix(self.nodes@[(#[trigger] kids@[a]).1 as int].chars@, #[trigger] self.nodes@[j].chars@)
                    ==> has_path_from(out@, out0.len() as int, self.nodes@[j].chars@),
            decreases kids@.len() - k,
        {
            let (c, j) = kids[k];
            assert(kids@.contains(kids@[k as int]));
            assert(self.nodes@[i as int].childs@.contains((c, j)));
            let ghost kk = choose|kk: int| 0 <= kk < self.nodes@[i as int].childs@.len() && self.nodes@[i as int].childs@[kk] == (c, j);
            assert(self.nodes@[i as int].childs@[kk] == (c, j));
            let cidx = out.len();
            let ghost out1 = out@;
            proof {
                let ci = self.nodes@[i as int].chars@;
                assert(self.nodes@[j as int].chars@ == ci.push(c));
                assert forall|m: int| 0 <= m < out1.len()
                    implies !is_path_prefix(self.nodes@[j as int].chars@, (#[trigger] out1[m]).chars@) by {
                    if is_path_prefix(ci.push(c), out1[m].chars@) {
                        lemma_prefix_push(ci, c, out1[m].chars@);
                        if m < idx {
                            assert(out1[m] == out0[m]);
                        } else if m == idx {
                        } else {
                            let a = choose|a: int| 0 <= a < k
                                && is_path_prefix(ci.push((#[trigger] kids@[a]).0), out1[m].chars@);
                            lemma_prefix_push(ci, kids@[a].0, out1[m].chars@);
                            assert(kids@[a].0 != kids@[k as int].0);
                        }
                    }
                }
            }
            self.build_fast_tree_impl(j, counts, ws, out);
            let ghost out2 = out@;
            out[idx].childs.push((c, cidx));
            proof {
                let ns = out@;
                assert forall|m: int| 0 <= m < ns.len() && m != idx implies #[trigger] ns[m] == out2[m] by {}
                assert(out2[idx as int] == out1[idx as int]);
                assert forall|m: int| 0 <= m < ns.len() implies strictly_sorted(#[trigger] ns[m].chars@) by {
                    assert(ns[m].chars@ == out2[m].chars@);
                }
                assert forall|m: int, q: int| 0 <= m < ns.len() && 0 <= q < ns[m].words@.len()
                    implies is_profile(ns[m].chars@, #[trigger] ns[m].words@[q]@) && ns[m].words@[q]@.no_duplicates() by {
                    assert(ns[m].words@ == out2[m].words@);
                    assert(ns[m].chars@ == out2[m].chars@);
                }
                assert forall|m: int, q: int| 0 <= m < ns.len() && 0 <= q < ns[m].childs@.len() implies {
                    let (e, jj) = #[trigger] ns[m].childs@[q];
                    &&& m < jj < ns.len()
                    &&& ns[jj as int].chars@ == ns[m].chars@.push(e)
                } by {
                    if m == idx && q == k {
                        assert(ns[cidx as int].chars@ == out2[cidx as int].chars@);
                    } else {
                        assert(ns[m].childs@[q] == out2[m].childs@[q]);
                        assert(ns[m].chars@ == out2[m].chars@);
                        assert(ns[out2[m].childs@[q].1 as int].chars@ == out2[out2[m].childs@[q].1 as int].chars@);
                    }
                }
                assert forall|m: int, a: int, b: int| 0 <= m < ns.len() && 0 <= a < b < ns[m].childs@.len()
                    implies (#[trigger] ns[m].childs@[a]).0 != (#[trigger] ns[m].childs@[b]).0 by {
                    if m == idx {
                        assert(ns[m].childs@[a].0 == kids@[a].0) by {
                            if a < k {
                                assert(ns[idx as int].childs@[a] == out2[idx as int].childs@[a]);
                            }
                        }
                        assert(ns[m].childs@[b].0 == kids@[b].0) by {
                            if b < k {
                                assert(ns[idx as int].childs@[b] == out2[idx as int].childs@[b]);
                            }
                        }
                    } else {
                        assert(ns[m].childs@ == out2[m].childs@);
                    }
                }
                assert(nodes_wf(ns));
                assert forall|m: int, a: int, b: int| 0 <= m < ns.len() && 0 <= a < b < ns[m].childs@.len()
                    implies ranked_le(ws@, (#[trigger] ns[m].childs@[a]).0, (#[trigger] ns[m].childs@[b]).0) by {
                    if m == idx {
                        assert(ns[m].childs@[a].0 == kids@[a].0);
                        assert(ns[m].childs@[b].0 == kids@[b].0);
                    } else {
                        assert(ns[m].childs@ == out2[m].childs@);
                    }
                }
                assert forall|m: int| 0 <= m < ns.len() implies self.has_node((#[trigger] ns[m]).chars@)
                    && self.words_at(ns[m].chars@) == ns[m].words@ by {
                    assert(ns[m].chars@ == out2[m].chars@);
                    assert(ns[m].words@ == out2[m].words@);
                }
                assert forall|a: int| 0 <= a < k + 1 implies (#[trigger] ns[idx as int].childs@[a]).0 == kids@[a].0 by {
                    if a < k {
                        assert(ns[idx as int].childs@[a] == out2[idx as int].childs@[a]);
                    }
                }
                assert forall|m: int| 0 <= m < out0.len() implies #[trigger] ns[m] == out0[m] by {
                    assert(out2[m] == out1[m]);
                }
                assert forall|a: int, b: int| 0 <= a < b < ns.len() implies #[trigger] ns[a].chars@ != #[trigger] ns[b].chars@ by {
                    assert(ns[a].chars@ == out2[a].chars@);
                    assert(ns[b].chars@ == out2[b].chars@);
                }
                assert forall|m: int| idx < m < ns.len() implies children_complete(ns, m, *self) && exists|a: int| 0 <= a < k + 1
                    && is_path_prefix(self.nodes@[i as int].chars@.push((#[trigger] kids@[a]).0), (#[trigger] ns[m]).chars@) by {
                    assert(ns[m] == out2[m]);
                    if m < out1.len() {
                        assert(out2[m] == out1[m]);
                        assert(children_complete(out1, m, *self));
                        let a = choose|a: int| 0 <= a < k
                            && is_path_prefix(self.nodes@[i as int].chars@.push((#[trigger] kids@[a]).0), out1[m].chars@);
                        assert(children_complete(ns, m, *self));
                    } else {
                        assert(children_complete(out2, m, *self));
                        assert(children_complete(ns, m, *self));
                        assert(is_path_prefix(self.nodes@[i as int].chars@.push(kids@[k as int].0), ns[m].chars@));
                    }
                }
                assert forall|a: int, jj: int| 0 <= a < k + 1 && 0 <= jj < self.nodes@.len()
                    && is_path_prefix(self.nodes@[(#[trigger] kids@[a]).1 as int].chars@, #[trigger] self.nodes@[jj].chars@)
                    implies has_path_from(ns, out0.len() as int, self.nodes@[jj].chars@) by {
                    if a < k {
                        assert(has_path_from(out1, out0.len() as int, self.nodes@[jj].chars@));
                        let m = choose|m: int| out0.len() <= m < out1.len() && #[trigger] out1[m].chars@ == self.nodes@[jj].chars@;
                        assert(out2[m] == out1[m]);
                        assert(ns[m].chars@ == out2[m].chars@);
                    } else {
                        assert(kids@[a] == (c, j));
                        assert(has_path_from(out2, out1.len() as int, self.nodes@[jj].chars@));
                        let m = choose|m: int| out1.len() <= m < out2.len() && #[trigger] out2[m].chars@ == self.nodes@[jj].chars@;
                        assert(ns[m].chars@ == out2[m].chars@);
                    }
                }
            }
            k = k + 1;
        }
        proof {
            let ns = out@;
            let ci = self.nodes@[i as int].chars@;
            assert(ci.subrange(0, ci.len() as int) =~= ci);
            assert(children_complete(ns, idx as int, *self)) by {
                assert forall|c: char| #[trigger] self.has_node(ns[idx as int].chars@.push(c))
                    <==> exists|q: int| 0 <= q < ns[idx as int].childs@.len() && ns[idx as int].childs@[q].0 == c by {
                    self.lemma_child_letter(i as int, c);
                    if exists|q: int| 0 <= q < ns[idx as int].childs@.len() && ns[idx as int].childs@[q].0 == c {
                        let q = choose|q: int| 0 <= q < ns[idx as int].childs@.len() && ns[idx as int].childs@[q].0 == c;
                        assert(ns[idx as int].childs@[q].0 == kids@[q].0);
                        assert(kids@.contains(kids@[q]));
                        let e = kids@[q];
                        assert(self.nodes@[i as int].childs@.contains(e));
                        let x = choose|x: int| 0 <= x < self.nodes@[i as int].childs@.len() && self.nodes@[i as int].childs@[x] == e;
                        assert(self.nodes@[i as int].childs@[x].0 == c);
                    }
                    if exists|x: int| 0 <= x < self.nodes@[i as int].childs@.len() && self.nodes@[i as int].childs@[x].0 == c {
                        let x = choose|x: int| 0 <= x < self.nodes@[i as int].childs@.len() && self.nodes@[i as int].childs@[x].0 == c;
                        let e = self.nodes@[i as int].childs@[x];
                        assert(self.nodes@[i as int].childs@.contains(e));
                        assert(kids@.contains(e));
                        let q = choose|q: int| 0 <= q < kids@.len() && kids@[q] == e;
                        assert(ns[idx as int].childs@[q].0 == kids@[q].0);
                    }
                }
            }
            assert forall|m: int| out0.len() <= m < ns.len() implies
                is_path_prefix(ci, (#[trigger] ns[m]).chars@) && children_complete(ns, m, *self) by {
                if m > idx {
                    let a = choose|a: int| 0 <= a < k
                        && is_path_prefix(ci.push((#[trigger] kids@[a]).0), ns[m].chars@);
                    lemma_prefix_push(ci, kids@[a].0, ns[m].chars@);
                }
            }
            assert forall|j: int| 0 <= j < self.nodes@.len() && is_path_prefix(self.nodes@[i as int].chars@, #[trigger] self.nodes@[j].chars@)
                implies has_path_from(ns, out0.len() as int, self.nodes@[j].chars@) by {
                if self.nodes@[j].chars@.len() == self.nodes@[i as int].chars@.len() {
                    assert(self.nodes@[j].chars@ =~= self.nodes@[i as int].chars@);
                    assert(ns[idx as int].chars@ == self.nodes@[j].chars@);
                } else {
                    self.lemma_below_child(i as int, j);
                    let q = choose|q: int| 0 <= q < self.nodes@[i as int].childs@.len()
                        && is_path_prefix(self.nodes@[(#[trigger] self.nodes@[i as int].childs@[q]).1 as int].chars@, self.nodes@[j].chars@);
                    let e = self.nodes@[i as int].childs@[q];
                    assert(self.nodes@[i as int].childs@.contains(e));
                    assert(kids@.contains(e));
                    let a = choose|a: int| 0 <= a < kids@.len() && kids@[a] == e;
                    assert(is_path_prefix(self.nodes@[kids@[a].1 as int].chars@, self.nodes@[j].chars@));
                }
            }
        }
    }
}

impl FastTree {
    /// The nodes among `0..k` that hold words, in arena order.
    pub open spec fn word_nodes(&self, k: int) -> Seq<usize>
        decreases k,
    {
        if k <= 0 {
            Seq::empty()
        } else {
            self.word_nodes(k - 1) + if self.words_of(k - 1).len() > 0 {
                seq![(k - 1) as usize]
            } else {
                Seq::empty()
            }
        }
    }

    /// The listed nodes strictly increase, lie below `k`, and hold words.
    pub proof fn lemma_word_nodes(&self, k: int)
        requires
            self.wf(),
            0 <= k <= self.node_count(),
        ensures
            forall|a: int, b: int| 0 <= a < b < self.word_nodes(k).len()
                ==> #[trigger] self.word_nodes(k)[a] < #[trigger] self.word_nodes(k)[b],
            forall|a: int| 0 <= a < self.word_nodes(k).len() ==> (#[trigger] self.word_nodes(k)[a]) < k
                && self.words_of(self.word_nodes(k)[a] as int).len() > 0,
            self.word_nodes(k).no_duplicates(),
            forall|i: int| 0 <= i < k && self.words_of(i).len() > 0 ==> #[trigger] self.word_nodes(k).contains(i as usize),
        decreases k,
    {
        if k > 0 {
            self.lemma_word_nodes(k - 1);
            let prev = self.word_nodes(k - 1);
            let r = self.word_nodes(k);
            assert forall|i: int| 0 <= i < k && self.words_of(i).len() > 0 implies #[trigger] r.contains(i as usize) by {
                if i == k - 1 {
                    assert(r[r.len() - 1] == i as usize);
                } else {
                    assert(prev.contains(i as usize));
                    let x = choose|x: int| 0 <= x < prev.len() && prev[x] == i as usize;
                    assert(r[x] == prev[x]);
                }
            }
            assert forall|a: int| 0 <= a < r.len() implies (#[trigger] r[a]) < k
                && self.words_of(r[a] as int).len() > 0 by {
                if a < prev.len() {
                    assert(r[a] == prev[a]);
                }
            }
            assert forall|a: int, b: int| 0 <= a < b < r.len() implies #[trigger] r[a] < #[trigger] r[b] by {
                assert(r[a] == prev[a]);
                if b < prev.len() {
                    assert(r[b] == prev[b]);
                }
            }
        }
        let r = self.word_nodes(k);
        assert forall|a: int, b: int| 0 <= a < r.len() && 0 <= b < r.len() && a != b implies r[a] != r[b] by {
            if a < b {
                assert(r[a] < r[b]);
            } else {
                assert(r[b] < r[a]);
            }
        }
    }

    /// Every node that holds words, in arena order.
    pub fn get_all_word_nodes(&self) -> (r: Vec<usize>)
        ensures
            r@ == self.word_nodes(self.node_count() as int),
    {
        let mut out: Vec<usize> = Vec::new();
        self.get_all_word_nodes_impl(&mut out);
        assert(out@ =~= self.word_nodes(self.node_count() as int));
        out
    }

    /// Appends to `out` every node that holds words, in arena order.
    pub fn get_all_word_nodes_impl(&self, out: &mut Vec<usize>)
        ensures
            final(out)@ == old(out)@ + self.word_nodes(self.node_count() as int),
    {
        let ghost out0 = out@;
        let mut i: usize = 0;
        while i < self.nodes.len()
            invariant
                i <= self.node_count(),
                self.node_count() == self.nodes@.len(),
                out@ == out0 + self.word_nodes(i as int),
            decreases self.nodes@.len() - i,
        {
            if self.nodes[i].words.len() > 0 {
                out.push(i);
            }
            assert(out@ =~= out0 + self.word_nodes(i + 1));
            i = i + 1;
        }
    }
}

} // verus!
