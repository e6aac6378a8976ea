//! Turning a group of trie nodes into output lines.
use vstd::prelude::*;
use vstd::string::StringExecFns;
use crate::letters::{is_profile, letters_of, share_letter};
use crate::search::{group_letters, lemma_tree_groups_valid, tree_worker, valid_node_group};
use crate::tree::FastTree;

verus! {

broadcast use vstd::seq_lib::group_to_multiset_ensures;

/// `a` comes no later than `b` in lexicographic order.
pub open spec fn lex_le(a: Seq<char>, b: Seq<char>) -> bool
    decreases a.len(),
{
    if a.len() == 0 {
        true
    } else if b.len() == 0 {
        false
    } else if a[0] != b[0] {
        a[0] < b[0]
    } else {
        lex_le(a.drop_first(), b.drop_first())
    }
}

proof fn lemma_lex_total(a: Seq<char>, b: Seq<char>)
    ensures
        lex_le(a, b) || lex_le(b, a),
    decreases a.len(),
{
    if a.len() > 0 && b.len() > 0 && a[0] == b[0] {
        lemma_lex_total(a.drop_first(), b.drop_first());
    }
}

proof fn lemma_lex_trans(a: Seq<char>, b: Seq<char>, c: Seq<char>)
    requires
        lex_le(a, b),
        lex_le(b, c),
    ensures
        lex_le(a, c),
    decreases a.len(),
{
    if a.len() > 0 && b.len() > 0 && c.len() > 0 && a[0] == b[0] && b[0] == c[0] {
        lemma_lex_trans(a.drop_first(), b.drop_first(), c.drop_first());
    }
}

/// The words of `ws` are in lexicographic order.
pub open spec fn words_sorted(ws: Seq<String>) -> bool {
    forall|a: int, b: int| 0 <= a < b < ws.len() ==> lex_le((#[trigger] ws[a])@, (#[trigger] ws[b])@)
}

/// Whether `a` comes no later than `b` in lexicographic order.
pub fn str_le(a: &str, b: &str) -> (r: bool)
    ensures
        r == lex_le(a@, b@),
{
    let x = letters_of(a);
    let y = letters_of(b);
    let mut i: usize = 0;
    assert(x@.subrange(0, x@.len() as int) =~= x@);
    assert(y@.subrange(0, y@.len() as int) =~= y@);
    while i < x.len() && i < y.len() && x[i] == y[i]
        invariant
            i <= x@.len(),
            i <= y@.len(),
            lex_le(a@, b@) == lex_le(x@.subrange(i as int, x@.len() as int), y@.subrange(i as int, y@.len() as int)),
            x@ == a@,
            y@ == b@,
        decreases x@.len() - i,
    {
        let ghost xs = x@.subrange(i as int, x@.len() as int);
        let ghost ys = y@.subrange(i as int, y@.len() as int);
        assert(xs.drop_first() =~= x@.subrange(i + 1, x@.len() as int));
        assert(ys.drop_first() =~= y@.subrange(i + 1, y@.len() as int));
        i = i + 1;
    }
    let ghost xs = x@.subrange(i as int, x@.len() as int);
    let ghost ys = y@.subrange(i as int, y@.len() as int);
    if i == x.len() {
        true
    } else if i == y.len() {
        false
    } else {
        assert(xs[0] == x@[i as int] && ys[0] == y@[i as int]);
        x[i] < y[i]
    }
}

/// Puts the words of `v` in lexicographic order.
pub fn sort_words(v: &mut Vec<String>)
    ensures
        final(v)@.to_multiset() == old(v)@.to_multiset(),
        words_sorted(final(v)@),
{
    let mut r: Vec<String> = Vec::new();
    let mut i: usize = 0;
    while i < v.len()
        invariant
            i <= v@.len(),
            v@ == old(v)@,
            r@.to_multiset() == v@.subrange(0, i as int).to_multiset(),
            words_sorted(r@),
        decreases v@.len() - i,
    {
        let w = v[i].clone();
        let mut pos: usize = 0;
        let mut go = true;
        while go && pos < r.len()
            invariant
                pos <= r@.len(),
                forall|m: int| 0 <= m < pos ==> lex_le((#[trigger] r@[m])@, w@),
                !go ==> pos < r@.len() && !lex_le(r@[pos as int]@, w@),
            decreases r@.len() - pos + if go { 1int } else { 0int },
        {
            if str_le(r[pos].as_str(), w.as_str()) {
                pos = pos + 1;
            } else {
                go = false;
            }
        }
        let ghost old_r = r@;
        r.insert(pos, w);
        proof {
            if pos < old_r.len() {
                lemma_lex_total(old_r[pos as int]@, w@);
            }
            assert forall|a: int, b: int| 0 <= a < b < r@.len() implies lex_le((#[trigger] r@[a])@, (#[trigger] r@[b])@) by {
                if b < pos {
                } else if b == pos {
                } else if a < pos {
                    assert(lex_le(old_r[a]@, w@));
                    if (pos as int) < b - 1 {
                        lemma_lex_trans(w@, old_r[pos as int]@, old_r[b - 1]@);
                    }
                    lemma_lex_trans(old_r[a]@, w@, old_r[b - 1]@);
                } else if a == pos {
                    if (pos as int) < b - 1 {
                        lemma_lex_trans(w@, old_r[pos as int]@, old_r[b - 1]@);
                    }
                } else {
                    assert(lex_le(old_r[a - 1]@, old_r[b - 1]@));
                }
            }
            assert(r@.remove(pos as int) =~= old_r);
            assert(r@.to_multiset().remove(w) == old_r.to_multiset());
            assert(r@.to_multiset().count(w) > 0);
            assert(r@.to_multiset() =~= old_r.to_multiset().insert(w));
            assert(v@.subrange(0, i + 1) =~= v@.subrange(0, i as int).push(v@[i as int]));
        }
        i = i + 1;
    }
    assert(v@.subrange(0, i as int) =~= v@);
    *v = r;
}

/// The words of `ws` joined by a comma and a space.
pub open spec fn joined(ws: Seq<String>) -> Seq<char>
    decreases ws.len(),
{
    if ws.len() == 0 {
        Seq::empty()
    } else if ws.len() == 1 {
        ws[0]@
    } else {
        joined(ws.drop_last()) + seq![',', ' '] + ws.last()@
    }
}

/// The words of `ws` joined by a comma and a space.
pub fn join_words(ws: &Vec<String>) -> (r: String)
    ensures
        r@ == joined(ws@),
{
    let mut line = String::new();
    let mut i: usize = 0;
    while i < ws.len()
        invariant
            i <= ws@.len(),
            line@ == joined(ws@.subrange(0, i as int)),
        decreases ws@.len() - i,
    {
        let ghost pre = ws@.subrange(0, i as int);
        let ghost next = ws@.subrange(0, i + 1);
        assert(next.drop_last() =~= pre);
        if i > 0 {
            let sep = ", ";
            proof {
                reveal_strlit(", ");
            }
            line.append(sep);
        }
        line.append(ws[i].as_str());
        assert(line@ =~= joined(next));
        i = i + 1;
    }
    assert(ws@.subrange(0, i as int) =~= ws@);
    line
}

/// The output line of one concrete group: its words in lexicographic order,
/// joined by a comma and a space.
pub fn group_line(words: Vec<String>) -> (r: String)
    ensures
        exists|s: Seq<String>| s.to_multiset() == words@.to_multiset() && words_sorted(s) && r@ == joined(s),
{
    let mut v = words;
    sort_words(&mut v);
    join_words(&v)
}

/// The word lists of group `g` after `prefix`: one word of each member, in
/// member order, with the first member's choice varying slowest.
pub open spec fn expand_from(t: FastTree, g: Seq<usize>, prefix: Seq<String>) -> Seq<Seq<String>>
    decreases g.len(), t.words_of(g[0] as int).len() + 1,
{
    if g.len() == 0 {
        seq![prefix]
    } else {
        expand_each(t, g, prefix, 0)
    }
}

/// The word lists of group `g` after `prefix` whose first member's word is
/// among its words `k..`.
pub open spec fn expand_each(t: FastTree, g: Seq<usize>, prefix: Seq<String>, k: int) -> Seq<Seq<String>>
    decreases g.len(), t.words_of(g[0] as int).len() - k,
{
    if g.len() == 0 || !(0 <= k < t.words_of(g[0] as int).len()) {
        Seq::empty()
    } else {
        expand_from(t, g.drop_first(), prefix.push(t.words_of(g[0] as int)[k]))
            + expand_each(t, g, prefix, k + 1)
    }
}

/// The views of the word lists in `v`.
pub open spec fn lists_view(v: Seq<Vec<String>>) -> Seq<Seq<String>> {
    v.map_values(|l: Vec<String>| l@)
}

/// Appends to `out` the word lists of `group[pos..]` after `prefix`.
pub fn print_tree_group(
    t: &FastTree,
    group: &Vec<usize>,
    pos: usize,
    prefix: &mut Vec<String>,
    out: &mut Vec<Vec<String>>,
)
    requires
        t.wf(),
        pos <= group@.len(),
        forall|k: int| 0 <= k < group@.len() ==> (#[trigger] group@[k]) < t.node_count(),
    ensures
        final(prefix)@ == old(prefix)@,
        lists_view(final(out)@) == lists_view(old(out)@)
            + expand_from(*t, group@.subrange(pos as int, group@.len() as int), old(prefix)@),
    decreases group@.len() - pos,
{
    let ghost g = group@.subrange(pos as int, group@.len() as int);
    if pos == group.len() {
        let line = prefix.clone();
        assert(line@ =~= prefix@);
        out.push(line);
        assert(lists_view(out@) =~= lists_view(old(out)@) + seq![prefix@]);
        return;
    }
    let ghost pre0 = prefix@;
    let ghost out0 = lists_view(out@);
    let node = group[pos];
    assert(g[0] == node);
    assert(g.drop_first() =~= group@.subrange(pos + 1, group@.len() as int));
    let ws = t.words(node);
    let len = group.len();
    let mut k: usize = 0;
    while k < ws.len()
        invariant
            t.wf(),
            pos < group@.len(),
            len == group@.len(),
            forall|m: int| 0 <= m < group@.len() ==> (#[trigger] group@[m]) < t.node_count(),
            g == group@.subrange(pos as int, group@.len() as int),
            g.len() > 0,
            g[0] == node,
            g.drop_first() == group@.subrange(pos + 1, group@.len() as int),
            ws@ == t.words_of(node as int),
            k <= ws@.len(),
            prefix@ == pre0,
            out0 + expand_each(*t, g, pre0, 0) == lists_view(out@) + expand_each(*t, g, pre0, k as int),
        decreases ws@.len() - k,
    {
        let w = ws[k].clone();
        prefix.push(w);
        print_tree_group(t, group, pos + 1, prefix, out);
        prefix.pop();
        assert(prefix@ =~= pre0);
        assert(out0 + expand_each(*t, g, pre0, 0) =~= lists_view(out@) + expand_each(*t, g, pre0, k + 1));
        k = k + 1;
    }
    assert(lists_view(out@) + expand_each(*t, g, pre0, k as int) =~= lists_view(out@));
}

/// Every concrete word list of `group`: one word of each member, in member order.
pub fn expand_group(t: &FastTree, group: &Vec<usize>) -> (r: Vec<Vec<String>>)
    requires
        t.wf(),
        forall|k: int| 0 <= k < group@.len() ==> (#[trigger] group@[k]) < t.node_count(),
    ensures
        lists_view(r@) == expand_from(*t, group@, Seq::empty()),
{
    let mut out: Vec<Vec<String>> = Vec::new();
    let mut prefix: Vec<String> = Vec::new();
    print_tree_group(t, group, 0, &mut prefix, &mut out);
    assert(group@.subrange(0, group@.len() as int) =~= group@);
    assert(lists_view(Seq::<Vec<String>>::empty()) =~= Seq::<Seq<String>>::empty());
    assert(lists_view(out@) =~= expand_from(*t, group@, Seq::empty()));
    out
}

/// Each word list that expansion yields after `prefix` starts with `prefix`
/// and then holds one word of each member of `g`, in member order.
pub proof fn lemma_expand_from_members(t: FastTree, g: Seq<usize>, prefix: Seq<String>)
    ensures
        forall|c: Seq<String>| #[trigger] expand_from(t, g, prefix).contains(c) ==> {
            &&& c.len() == prefix.len() + g.len()
            &&& forall|i: int| 0 <= i < prefix.len() ==> c[i] == prefix[i]
            &&& forall|i: int| 0 <= i < g.len() ==> #[trigger] t.words_of(g[i] as int).contains(c[prefix.len() + i])
        },
    decreases g.len(), t.words_of(g[0] as int).len() + 1,
{
    if g.len() == 0 {
        assert forall|c: Seq<String>| #[trigger] expand_from(t, g, prefix).contains(c) implies c == prefix by {
            assert(expand_from(t, g, prefix)[0] == prefix);
        }
    } else {
        lemma_expand_each_members(t, g, prefix, 0);
        assert(expand_from(t, g, prefix) == expand_each(t, g, prefix, 0));
    }
}

/// The same for the lists whose first member's word is among its words `k..`.
pub proof fn lemma_expand_each_members(t: FastTree, g: Seq<usize>, prefix: Seq<String>, k: int)
    requires
        g.len() > 0,
    ensures
        forall|c: Seq<String>| #[trigger] expand_each(t, g, prefix, k).contains(c) ==> {
            &&& c.len() == prefix.len() + g.len()
            &&& forall|i: int| 0 <= i < prefix.len() ==> c[i] == prefix[i]
            &&& forall|i: int| 0 <= i < g.len() ==> #[trigger] t.words_of(g[i] as int).contains(c[prefix.len() + i])
        },
    decreases g.len(), t.words_of(g[0] as int).len() - k,
{
    let ws = t.words_of(g[0] as int);
    if !(0 <= k < ws.len()) {
        assert(expand_each(t, g, prefix, k) =~= Seq::<Seq<String>>::empty());
    } else {
        let pre2 = prefix.push(ws[k]);
        let g2 = g.drop_first();
        let left = expand_from(t, g2, pre2);
        let right = expand_each(t, g, prefix, k + 1);
        lemma_expand_from_members(t, g2, pre2);
        lemma_expand_each_members(t, g, prefix, k + 1);
        assert(expand_each(t, g, prefix, k) == left + right);
        assert forall|c: Seq<String>| #[trigger] expand_each(t, g, prefix, k).contains(c) implies {
            &&& c.len() == prefix.len() + g.len()
            &&& forall|i: int| 0 <= i < prefix.len() ==> c[i] == prefix[i]
            &&& forall|i: int| 0 <= i < g.len() ==> #[trigger] t.words_of(g[i] as int).contains(c[prefix.len() + i])
        } by {
            let x = choose|x: int| 0 <= x < (left + right).len() && (left + right)[x] == c;
            if x < left.len() {
                assert(left.contains(c));
                assert forall|i: int| 0 <= i < prefix.len() implies c[i] == prefix[i] by {
                    assert(c[i] == pre2[i]);
                }
                assert forall|i: int| 0 <= i < g.len() implies #[trigger] t.words_of(g[i] as int).contains(c[prefix.len() + i]) by {
                    if i == 0 {
                        assert(c[prefix.len() as int] == pre2[prefix.len() as int]);
                        assert(ws.contains(ws[k]));
                    } else {
                        assert(g2[i - 1] == g[i]);
                        assert(t.words_of(g2[i - 1] as int).contains(c[pre2.len() + (i - 1)]));
                    }
                }
            } else {
                assert(right[x - left.len()] == c);
                assert(right.contains(c));
            }
        }
    }
}

/// A letter of a member's path is among the group's path letters.
pub proof fn lemma_group_letters_has(t: FastTree, g: Seq<usize>, i: int, x: char)
    requires
        0 <= i < g.len(),
        t.chars_of(g[i] as int).contains(x),
    ensures
        group_letters(t, g).contains(x),
    decreases g.len(),
{
    let a = group_letters(t, g.drop_last());
    let b = t.chars_of(g.last() as int);
    assert(group_letters(t, g) == a + b);
    if i == g.len() - 1 {
        let k = choose|k: int| 0 <= k < b.len() && b[k] == x;
        assert((a + b)[a.len() + k] == x);
    } else {
        assert(g.drop_last()[i] == g[i]);
        lemma_group_letters_has(t, g.drop_last(), i, x);
        let k = choose|k: int| 0 <= k < a.len() && a[k] == x;
        assert((a + b)[k] == x);
    }
}

/// Where no letter repeats across the paths of `g`, no two members' paths
/// share a letter.
pub proof fn lemma_group_paths_disjoint(t: FastTree, g: Seq<usize>)
    requires
        group_letters(t, g).no_duplicates(),
    ensures
        forall|i: int, j: int, x: char| 0 <= i < j < g.len() && #[trigger] t.chars_of(g[i] as int).contains(x)
            ==> !(#[trigger] t.chars_of(g[j] as int).contains(x)),
    decreases g.len(),
{
    if g.len() > 0 {
        let g1 = g.drop_last();
        let a = group_letters(t, g1);
        let b = t.chars_of(g.last() as int);
        assert(group_letters(t, g) == a + b);
        assert(a.no_duplicates()) by {
            assert forall|p: int, q: int| 0 <= p < a.len() && 0 <= q < a.len() && p != q implies a[p] != a[q] by {
                assert((a + b)[p] == a[p]);
                assert((a + b)[q] == a[q]);
            }
        }
        lemma_group_paths_disjoint(t, g1);
        assert forall|i: int, j: int, x: char| 0 <= i < j < g.len() && #[trigger] t.chars_of(g[i] as int).contains(x)
            implies !(#[trigger] t.chars_of(g[j] as int).contains(x)) by {
            assert(g1[i] == g[i]);
            if j == g.len() - 1 {
                if b.contains(x) {
                    lemma_group_letters_has(t, g1, i, x);
                    let p = choose|p: int| 0 <= p < a.len() && a[p] == x;
                    let q = choose|q: int| 0 <= q < b.len() && b[q] == x;
                    assert((a + b)[p] == (a + b)[a.len() + q]);
                }
            } else {
                assert(g1[j] == g[j]);
            }
        }
    }
}

/// Every output word list of the trie search holds `n` words, no two of
/// which share a letter; where no word is empty, the `n` words are distinct.
pub proof fn lemma_tree_lines_valid(
    t: FastTree,
    roots: Seq<usize>,
    offset: int,
    n: nat,
    threads: nat,
    g: Seq<usize>,
    c: Seq<String>,
)
    requires
        t.wf(),
        0 <= offset,
        forall|k: int| 0 <= k < roots.len() ==> (#[trigger] roots[k]) < t.node_count()
            && t.words_of(roots[k] as int).len() > 0,
        tree_worker(t, roots, offset, n, threads).contains(g),
        expand_from(t, g, Seq::empty()).contains(c),
    ensures
        c.len() == n,
        forall|a: int, b: int| 0 <= a < b < c.len() ==> !share_letter((#[trigger] c[a])@, (#[trigger] c[b])@),
        forall|a: int, b: int| 0 <= a < b < c.len() && c[a]@.len() > 0 ==> (#[trigger] c[a])@ != (#[trigger] c[b])@,
{
    lemma_tree_groups_valid(t, roots, offset, n, threads);
    assert(valid_node_group(t, g, n));
    lemma_expand_from_members(t, g, Seq::empty());
    lemma_group_paths_disjoint(t, g);
    assert forall|a: int, b: int| 0 <= a < b < c.len() implies !share_letter((#[trigger] c[a])@, (#[trigger] c[b])@) by {
        assert(t.words_of(g[a] as int).contains(c[0 + a]));
        assert(t.words_of(g[b] as int).contains(c[0 + b]));
        let ka = choose|k: int| 0 <= k < t.words_of(g[a] as int).len() && t.words_of(g[a] as int)[k] == c[a];
        let kb = choose|k: int| 0 <= k < t.words_of(g[b] as int).len() && t.words_of(g[b] as int)[k] == c[b];
        assert(is_profile(t.chars_of(g[a] as int), t.words_of(g[a] as int)[ka]@));
        assert(is_profile(t.chars_of(g[b] as int), t.words_of(g[b] as int)[kb]@));
        if share_letter(c[a]@, c[b]@) {
            let i = choose|i: int| 0 <= i < c[a]@.len() && c[b]@.contains(#[trigger] c[a]@[i]);
            let x = c[a]@[i];
            assert(c[a]@.contains(x));
            assert(t.chars_of(g[a] as int).contains(x));
            assert(t.chars_of(g[b] as int).contains(x));
        }
    }
    assert forall|a: int, b: int| 0 <= a < b < c.len() && c[a]@.len() > 0 implies (#[trigger] c[a])@ != (#[trigger] c[b])@ by {
        assert(!share_letter(c[a]@, c[b]@));
        if c[a]@ == c[b]@ {
            assert(c[b]@.contains(c[a]@[0]));
        }
    }
}

/// Where no word is empty, a group size above the number of nodes that hold
/// words leaves the trie search with nothing to yield.
pub proof fn lemma_tree_too_large(t: FastTree, roots: Seq<usize>, offset: int, n: nat, threads: nat)
    requires
        t.wf(),
        0 <= offset,
        forall|k: int| 0 <= k < roots.len() ==> (#[trigger] roots[k]) < t.node_count()
            && t.words_of(roots[k] as int).len() > 0,
        forall|i: int, k: int| 0 <= i < t.node_count() && 0 <= k < t.words_of(i).len()
            ==> (#[trigger] t.words_of(i)[k])@.len() > 0,
        n > t.word_nodes(t.node_count() as int).len(),
    ensures
        tree_worker(t, roots, offset, n, threads) == Seq::<Seq<usize>>::empty(),
{
    broadcast use vstd::seq_lib::seq_to_set_is_finite;
    let res = tree_worker(t, roots, offset, n, threads);
    if res.len() > 0 {
        let g = res[0];
        assert(res.contains(g));
        lemma_tree_groups_valid(t, roots, offset, n, threads);
        assert(valid_node_group(t, g, n));
        lemma_group_paths_disjoint(t, g);
        let wn = t.word_nodes(t.node_count() as int);
        t.lemma_word_nodes(t.node_count() as int);
        assert forall|a: int| 0 <= a < g.len() implies t.chars_of(#[trigger] g[a] as int).contains(t.words_of(g[a] as int)[0]@[0]) by {
            let w = t.words_of(g[a] as int)[0];
            assert(is_profile(t.chars_of(g[a] as int), w@));
            assert(w@.len() > 0);
            assert(w@.contains(w@[0]));
        }
        assert(g.no_duplicates()) by {
            assert forall|a: int, b: int| 0 <= a < g.len() && 0 <= b < g.len() && a != b implies g[a] != g[b] by {
                if g[a] == g[b] {
                    let x = t.words_of(g[a] as int)[0]@[0];
                    assert(t.chars_of(g[a] as int).contains(x));
                    assert(t.chars_of(g[b] as int).contains(x));
                }
            }
        }
        assert(g.to_set().subset_of(wn.to_set())) by {
            assert forall|x: usize| g.to_set().contains(x) implies wn.to_set().contains(x) by {
                assert(g.contains(x));
                let a = choose|a: int| 0 <= a < g.len() && g[a] == x;
                assert(t.words_of(g[a] as int).len() > 0);
                assert(wn.contains((g[a] as int) as usize));
            }
        }
        g.unique_seq_to_set();
        wn.lemma_cardinality_of_set();
        vstd::set_lib::lemma_len_subset(g.to_set(), wn.to_set());
    }
}

} // verus!
