//! Canonical search over the ranked trie.
use vstd::prelude::*;
use crate::letters::strictly_sorted;
use crate::output::lemma_group_letters_has;
use crate::tree::{is_path_prefix, FastTree};

verus! {

/// The first letter of node `node`'s path, if any.
pub open spec fn first_letter(t: FastTree, node: int) -> Option<char> {
    if t.chars_of(node).len() > 0 {
        Some(t.chars_of(node)[0])
    } else {
        None
    }
}

/// The groups found from `node`, with `n` members still to choose, the
/// members `group` chosen so far, the letters `letters` in use, and the
/// resume letter `skip` below which the children of `node` are passed over.
/// A node that holds words may join the group (the search then resumes from
/// the root, at the member's first letter); then each child whose letter is
/// free is searched.
pub open spec fn tree_search(
    t: FastTree,
    n: nat,
    group: Seq<usize>,
    letters: Seq<char>,
    node: int,
    skip: Option<char>,
) -> Seq<Seq<usize>>
    decreases n, t.node_count() - node, t.childs_of(node).len() + 1,
{
    if n == 0 {
        seq![group]
    } else if !(0 <= node < t.node_count()) {
        Seq::empty()
    } else {
        (if t.words_of(node).len() > 0 {
            tree_search(t, (n - 1) as nat, group.push(node as usize), letters, 0, first_letter(t, node))
        } else {
            Seq::empty()
        }) + tree_scan(t, n, group, letters, node, skip, 0)
    }
}

/// The groups found through the children `k..` of `node`.
pub open spec fn tree_scan(
    t: FastTree,
    n: nat,
    group: Seq<usize>,
    letters: Seq<char>,
    node: int,
    skip: Option<char>,
    k: int,
) -> Seq<Seq<usize>>
    decreases n, t.node_count() - node, t.childs_of(node).len() - k,
{
    if !(0 <= node < t.node_count()) || !(0 <= k < t.childs_of(node).len()) {
        Seq::empty()
    } else {
        let (c, ch) = t.childs_of(node)[k];
        if skip is Some && skip->0 != c {
            tree_scan(t, n, group, letters, node, skip, k + 1)
        } else {
            (if !letters.contains(c) && node < ch < t.node_count() {
                tree_search(t, n, group, letters.push(c), ch as int, None)
            } else {
                Seq::empty()
            }) + tree_scan(t, n, group, letters, node, None, k + 1)
        }
    }
}

/// Whether `c` is among `v`.
fn has_letter(v: &Vec<char>, c: char) -> (r: bool)
    ensures
        r == v@.contains(c),
{
    let mut i: usize = 0;
    while i < v.len()
        invariant
            i <= v@.len(),
            forall|k: int| 0 <= k < i ==> v@[k] != c,
        decreases v@.len() - i,
    {
        if v[i] == c {
            assert(v@[i as int] == c);
            return true;
        }
        i = i + 1;
    }
    false
}

/// A vector holding the letters of `s`.
fn copy_letters(s: &[char]) -> (r: Vec<char>)
    ensures
        r@ == s@,
{
    let mut r: Vec<char> = Vec::new();
    let mut i: usize = 0;
    while i < s.len()
        invariant
            i <= s@.len(),
            r@ == s@.subrange(0, i as int),
        decreases s@.len() - i,
    {
        r.push(s[i]);
        assert(r@ =~= s@.subrange(0, i + 1));
        i = i + 1;
    }
    assert(s@.subrange(0, i as int) =~= s@);
    r
}

/// Appends to `out` the groups of `tree_search` from `node`.
pub fn find_words_tree_impl(
    t: &FastTree,
    n: usize,
    group: &mut Vec<usize>,
    letters: &mut Vec<char>,
    node: usize,
    skip: Option<char>,
    out: &mut Vec<Vec<usize>>,
)
    requires
        t.wf(),
        node < t.node_count(),
    ensures
        final(group)@ == old(group)@,
        final(letters)@ == old(letters)@,
        final(out).deep_view() == old(out).deep_view()
            + tree_search(*t, n as nat, old(group)@, old(letters)@, node as int, skip),
    decreases n, t.node_count() - node, t.childs_of(node as int).len() + 1,
{
    if n == 0 {
        let g = group.clone();
        assert(g@ =~= group@);
        assert(g.deep_view() =~= group@);
        out.push(g);
        assert(out.deep_view() =~= old(out).deep_view() + seq![group@]);
        return;
    }
    let ghost g0 = group@;
    let ghost l0 = letters@;
    let ghost out0 = out.deep_view();
    if t.words(node).len() > 0 {
        group.push(node);
        let first = if t.chars(node).len() > 0 {
            Some(t.chars(node)[0])
        } else {
            None
        };
        find_words_tree_impl(t, n - 1, group, letters, 0, first, out);
        group.pop();
        assert(group@ =~= g0);
    }
    let ghost out1 = out.deep_view();
    assert(out1 == out0 + (if t.words_of(node as int).len() > 0 {
        tree_search(*t, (n - 1) as nat, g0.push(node), l0, 0, first_letter(*t, node as int))
    } else {
        Seq::empty()
    }));
    let kids = t.childs(node);
    let mut sk = skip;
    let mut k: usize = 0;
    while k < kids.len()
        invariant
            t.wf(),
            node < t.node_count(),
            n > 0,
            kids@ == t.childs_of(node as int),
            k <= kids@.len(),
            group@ == g0,
            letters@ == l0,
            out1 + tree_scan(*t, n as nat, g0, l0, node as int, skip, 0)
                == out.deep_view() + tree_scan(*t, n as nat, g0, l0, node as int, sk, k as int),
        decreases kids@.len() - k,
    {
        let (c, ch) = kids[k];
        assert(t.childs_of(node as int)[k as int] == (c, ch));
        let ghost before = out.deep_view();
        let ghost sk0 = sk;
        let mut go = true;
        match sk {
            Some(s) => {
                if s != c {
                    go = false;
                } else {
                    sk = None;
                }
            },
            None => {},
        }
        if go {
            if !has_letter(letters, c) {
                letters.push(c);
                find_words_tree_impl(t, n, group, letters, ch, None, out);
                letters.pop();
                assert(letters@ =~= l0);
            }
            assert(out1 + tree_scan(*t, n as nat, g0, l0, node as int, skip, 0)
                =~= out.deep_view() + tree_scan(*t, n as nat, g0, l0, node as int, None, k + 1));
        } else {
            assert(tree_scan(*t, n as nat, g0, l0, node as int, sk0, k as int)
                == tree_scan(*t, n as nat, g0, l0, node as int, sk0, k + 1));
        }
        k = k + 1;
    }
    assert(out.deep_view() + tree_scan(*t, n as nat, g0, l0, node as int, sk, k as int) =~= out.deep_view());
    assert(out.deep_view() =~= out0 + tree_search(*t, n as nat, g0, l0, node as int, skip));
}

/// The groups whose first member is root `r`.
pub open spec fn tree_root(t: FastTree, r: usize, n: nat) -> Seq<Seq<usize>> {
    if n == 0 {
        seq![Seq::empty()]
    } else {
        tree_search(t, (n - 1) as nat, seq![r], t.chars_of(r as int), 0, first_letter(t, r as int))
    }
}

/// The groups found by the worker that owns root positions `i`, `i + threads`, ...
pub open spec fn tree_worker(t: FastTree, roots: Seq<usize>, i: int, n: nat, threads: nat) -> Seq<Seq<usize>>
    decreases roots.len() + threads - i,
{
    if i >= roots.len() || i < 0 || threads == 0 {
        Seq::empty()
    } else {
        tree_root(t, roots[i], n) + tree_worker(t, roots, i + threads, n, threads)
    }
}

/// The groups found by one worker of the trie search: it takes the roots at
/// positions `offset`, `offset + threads`, ... of `roots`.
pub fn find_words_tree_worker(t: &FastTree, roots: &Vec<usize>, n: usize, offset: usize, threads: usize) -> (r: Vec<Vec<usize>>)
    requires
        t.wf(),
        threads >= 1,
        forall|k: int| 0 <= k < roots@.len() ==> (#[trigger] roots@[k]) < t.node_count(),
    ensures
        r.deep_view() == tree_worker(*t, roots@, offset as int, n as nat, threads as nat),
{
    let mut out: Vec<Vec<usize>> = Vec::new();
    let mut i: usize = offset;
    while i < roots.len()
        invariant
            t.wf(),
            threads >= 1,
            forall|k: int| 0 <= k < roots@.len() ==> (#[trigger] roots@[k]) < t.node_count(),
            tree_worker(*t, roots@, offset as int, n as nat, threads as nat)
                == out.deep_view() + tree_worker(*t, roots@, i as int, n as nat, threads as nat),
        decreases roots.len() - i,
    {
        let ghost before = out.deep_view();
        let r = roots[i];
        assert(r == roots@[i as int]);
        if n == 0 {
            let e: Vec<usize> = Vec::new();
            assert(e.deep_view() =~= Seq::<usize>::empty());
            out.push(e);
            assert(out.deep_view() =~= before + seq![Seq::<usize>::empty()]);
        } else {
            let mut group: Vec<usize> = Vec::new();
            group.push(r);
            assert(group@ =~= seq![r]);
            let mut letters: Vec<char> = copy_letters(t.chars(r));
            let first = if t.chars(r).len() > 0 {
                Some(t.chars(r)[0])
            } else {
                None
            };
            find_words_tree_impl(t, n - 1, &mut group, &mut letters, 0, first, &mut out);
        }
        assert(out.deep_view() =~= before + tree_root(*t, r, n as nat));
        assert(tree_worker(*t, roots@, offset as int, n as nat, threads as nat)
            =~= out.deep_view() + tree_worker(*t, roots@, i + threads, n as nat, threads as nat));
        if roots.len() - i <= threads {
            assert(out.deep_view() =~= out.deep_view() + tree_worker(*t, roots@, i + threads, n as nat, threads as nat));
            return out;
        }
        i = i + threads;
    }
    assert(out.deep_view() =~= out.deep_view() + tree_worker(*t, roots@, i as int, n as nat, threads as nat));
    out
}

/// The letters of the paths of the members of `g`, one after another.
pub open spec fn group_letters(t: FastTree, g: Seq<usize>) -> Seq<char>
    decreases g.len(),
{
    if g.len() == 0 {
        Seq::empty()
    } else {
        group_letters(t, g.drop_last()) + t.chars_of(g.last() as int)
    }
}

/// `g` holds `n` nodes that hold words, and no letter occurs twice across
/// their paths.
pub open spec fn valid_node_group(t: FastTree, g: Seq<usize>, n: nat) -> bool {
    &&& g.len() == n
    &&& forall|k: int| 0 <= k < g.len() ==> (#[trigger] g[k]) < t.node_count() && t.words_of(g[k] as int).len() > 0
    &&& group_letters(t, g).no_duplicates()
}

proof fn lemma_no_dup_prefix(a: Seq<char>, b: Seq<char>)
    requires
        (a + b).no_duplicates(),
    ensures
        a.no_duplicates(),
{
    assert forall|i: int, j: int| 0 <= i < a.len() && 0 <= j < a.len() && i != j implies a[i] != a[j] by {
        assert((a + b)[i] == a[i]);
        assert((a + b)[j] == a[j]);
    }
}

/// Every group that the search yields from a consistent state extends the
/// group by `n` members and keeps all path letters distinct.
pub proof fn lemma_tree_search_sound(t: FastTree, n: nat, group: Seq<usize>, letters: Seq<char>, node: int, skip: Option<char>)
    requires
        t.wf(),
        0 <= node < t.node_count(),
        letters == group_letters(t, group) + t.chars_of(node),
        letters.no_duplicates(),
        forall|k: int| 0 <= k < group.len() ==> (#[trigger] group[k]) < t.node_count() && t.words_of(group[k] as int).len() > 0,
    ensures
        forall|g: Seq<usize>| #[trigger] tree_search(t, n, group, letters, node, skip).contains(g)
            ==> valid_node_group(t, g, group.len() + n),
    decreases n, t.node_count() - node, t.childs_of(node).len() + 1,
{
    let res = tree_search(t, n, group, letters, node, skip);
    if n == 0 {
        lemma_no_dup_prefix(group_letters(t, group), t.chars_of(node));
        assert forall|g: Seq<usize>| #[trigger] res.contains(g) implies valid_node_group(t, g, group.len() + n) by {
            assert(res[0] == group);
        }
    } else {
        let left = if t.words_of(node).len() > 0 {
            tree_search(t, (n - 1) as nat, group.push(node as usize), letters, 0, first_letter(t, node))
        } else {
            Seq::empty()
        };
        let right = tree_scan(t, n, group, letters, node, skip, 0);
        if t.words_of(node).len() > 0 {
            let g2 = group.push(node as usize);
            assert(g2.drop_last() =~= group);
            assert(g2.last() == node as usize);
            assert((node as usize) as int == node);
            assert(group_letters(t, g2) == group_letters(t, group) + t.chars_of(node));
            assert(group_letters(t, g2) + t.chars_of(0) =~= letters);
            assert forall|k: int| 0 <= k < g2.len() implies (#[trigger] g2[k]) < t.node_count() && t.words_of(g2[k] as int).len() > 0 by {
                if k < group.len() {
                    assert(g2[k] == group[k]);
                } else {
                    assert(g2[k] == node as usize);
                }
            }
            lemma_tree_search_sound(t, (n - 1) as nat, g2, letters, 0, first_letter(t, node));
        }
        lemma_tree_scan_sound(t, n, group, letters, node, skip, 0);
        assert forall|g: Seq<usize>| #[trigger] res.contains(g) implies valid_node_group(t, g, group.len() + n) by {
            assert(res == left + right);
            let k = choose|k: int| 0 <= k < (left + right).len() && (left + right)[k] == g;
            if k < left.len() {
                assert(left.contains(g));
            } else {
                assert(right[k - left.len()] == g);
                assert(right.contains(g));
            }
        }
    }
}

/// The same for the children `k..` of `node`.
pub proof fn lemma_tree_scan_sound(t: FastTree, n: nat, group: Seq<usize>, letters: Seq<char>, node: int, skip: Option<char>, k: int)
    requires
        t.wf(),
        0 <= node < t.node_count(),
        letters == group_letters(t, group) + t.chars_of(node),
        letters.no_duplicates(),
        forall|m: int| 0 <= m < group.len() ==> (#[trigger] group[m]) < t.node_count() && t.words_of(group[m] as int).len() > 0,
    ensures
        forall|g: Seq<usize>| #[trigger] tree_scan(t, n, group, letters, node, skip, k).contains(g)
            ==> valid_node_group(t, g, group.len() + n),
    decreases n, t.node_count() - node, t.childs_of(node).len() - k,
{
    if !(0 <= k < t.childs_of(node).len()) {
        assert(tree_scan(t, n, group, letters, node, skip, k) =~= Seq::<Seq<usize>>::empty());
    } else {
        let res = tree_scan(t, n, group, letters, node, skip, k);
        let (c, ch) = t.childs_of(node)[k];
        if skip is Some && skip->0 != c {
            lemma_tree_scan_sound(t, n, group, letters, node, skip, k + 1);
            assert(res == tree_scan(t, n, group, letters, node, skip, k + 1));
        } else {
            let left = if !letters.contains(c) && node < ch < t.node_count() {
                tree_search(t, n, group, letters.push(c), ch as int, None)
            } else {
                Seq::empty()
            };
            let right = tree_scan(t, n, group, letters, node, None, k + 1);
            if !letters.contains(c) && node < ch < t.node_count() {
                assert(t.chars_of(ch as int) == t.chars_of(node).push(c));
                assert(letters.push(c) =~= group_letters(t, group) + t.chars_of(ch as int));
                assert(letters.push(c).no_duplicates()) by {
                    let l2 = letters.push(c);
                    assert forall|i: int, j: int| 0 <= i < l2.len() && 0 <= j < l2.len() && i != j implies l2[i] != l2[j] by {
                        if i == letters.len() {
                            assert(letters.contains(letters[j]));
                        } else if j == letters.len() {
                            assert(letters.contains(letters[i]));
                        }
                    }
                }
                lemma_tree_search_sound(t, n, group, letters.push(c), ch as int, None);
            }
            lemma_tree_scan_sound(t, n, group, letters, node, None, k + 1);
            assert(res == left + right);
            assert forall|g: Seq<usize>| #[trigger] res.contains(g) implies valid_node_group(t, g, group.len() + n) by {
                assert(res == left + right);
                let x = choose|x: int| 0 <= x < (left + right).len() && (left + right)[x] == g;
                if x < left.len() {
                    assert(left.contains(g));
                } else {
                    assert(right[x - left.len()] == g);
                    assert(right.contains(g));
                }
            }
        }
    }
}

/// Every group that a worker of the trie search yields holds `n` nodes that
/// hold words, and no letter occurs twice across their paths.
pub proof fn lemma_tree_groups_valid(t: FastTree, roots: Seq<usize>, offset: int, n: nat, threads: nat)
    requires
        t.wf(),
        0 <= offset,
        forall|k: int| 0 <= k < roots.len() ==> (#[trigger] roots[k]) < t.node_count()
            && t.words_of(roots[k] as int).len() > 0,
    ensures
        forall|g: Seq<usize>| #[trigger] tree_worker(t, roots, offset, n, threads).contains(g)
            ==> valid_node_group(t, g, n),
    decreases roots.len() + threads - offset,
{
    if offset < roots.len() && threads > 0 {
        let r = roots[offset];
        let root = tree_root(t, r, n);
        let rest = tree_worker(t, roots, offset + threads, n, threads);
        if n == 0 {
            assert forall|g: Seq<usize>| #[trigger] root.contains(g) implies valid_node_group(t, g, n) by {
                assert(root[0] == Seq::<usize>::empty());
                assert(group_letters(t, g) =~= Seq::<char>::empty());
            }
        } else {
            let g1 = seq![r];
            assert(g1.drop_last() =~= Seq::<usize>::empty());
            assert(g1.last() == r);
            assert(group_letters(t, g1) == group_letters(t, Seq::<usize>::empty()) + t.chars_of(r as int));
            assert(group_letters(t, g1) + t.chars_of(0) =~= t.chars_of(r as int));
            assert(t.chars_of(r as int).no_duplicates()) by {
                assert(strictly_sorted(t.chars_of(r as int)));
            }
            lemma_tree_search_sound(t, (n - 1) as nat, g1, t.chars_of(r as int), 0, first_letter(t, r as int));
        }
        lemma_tree_groups_valid(t, roots, offset + threads, n, threads);
        assert forall|g: Seq<usize>| #[trigger] tree_worker(t, roots, offset, n, threads).contains(g)
            implies valid_node_group(t, g, n) by {
            let k = choose|k: int| 0 <= k < (root + rest).len() && (root + rest)[k] == g;
            if k < root.len() {
                assert(root.contains(g));
            } else {
                assert(rest[k - root.len()] == g);
                assert(rest.contains(g));
            }
        }
    }
}

/// With `n == 1` each root yields exactly the group made of itself.
pub proof fn lemma_tree_singletons(t: FastTree, r: usize)
    ensures
        tree_root(t, r, 1) == seq![seq![r]],
{
}

/// `g` extends `group`, and the path of its next member extends `p`.
pub open spec fn extends_at(t: FastTree, g: Seq<usize>, group: Seq<usize>, p: Seq<char>) -> bool {
    &&& g.len() > group.len()
    &&& g.subrange(0, group.len() as int) == group
    &&& is_path_prefix(p, t.chars_of(g[group.len() as int] as int))
}

proof fn lemma_concat_no_dup(a: Seq<Seq<usize>>, b: Seq<Seq<usize>>)
    requires
        a.no_duplicates(),
        b.no_duplicates(),
        forall|x: Seq<usize>| a.contains(x) ==> !b.contains(x),
    ensures
        (a + b).no_duplicates(),
{
    let c = a + b;
    assert forall|i: int, j: int| 0 <= i < c.len() && 0 <= j < c.len() && i != j implies c[i] != c[j] by {
        if i < a.len() && j < a.len() {
        } else if i >= a.len() && j >= a.len() {
            assert(c[i] == b[i - a.len()]);
            assert(c[j] == b[j - a.len()]);
        } else if i < a.len() {
            assert(a.contains(c[i]));
            assert(b.contains(c[j]));
        } else {
            assert(a.contains(c[j]));
            assert(b.contains(c[i]));
        }
    }
}

proof fn lemma_in_concat(a: Seq<Seq<usize>>, b: Seq<Seq<usize>>, x: Seq<usize>)
    requires
        (a + b).contains(x),
    ensures
        a.contains(x) || b.contains(x),
{
    let k = choose|k: int| 0 <= k < (a + b).len() && (a + b)[k] == x;
    if k >= a.len() {
        assert(b[k - a.len()] == x);
    }
}

/// The search from `node` yields no group twice, and every group it yields
/// extends `group` by a member whose path extends that of `node`.
pub proof fn lemma_tree_search_unique(t: FastTree, n: nat, group: Seq<usize>, letters: Seq<char>, node: int, skip: Option<char>)
    requires
        t.wf(),
        0 <= node < t.node_count(),
    ensures
        tree_search(t, n, group, letters, node, skip).no_duplicates(),
        n > 0 ==> forall|g: Seq<usize>| #[trigger] tree_search(t, n, group, letters, node, skip).contains(g)
            ==> extends_at(t, g, group, t.chars_of(node)),
    decreases n, t.node_count() - node, t.childs_of(node).len() + 1,
{
    let res = tree_search(t, n, group, letters, node, skip);
    let gl = group.len() as int;
    if n == 0 {
        assert(res =~= seq![group]);
    } else {
        let g2 = group.push(node as usize);
        let left = if t.words_of(node).len() > 0 {
            tree_search(t, (n - 1) as nat, g2, letters, 0, first_letter(t, node))
        } else {
            Seq::empty()
        };
        let right = tree_scan(t, n, group, letters, node, skip, 0);
        assert(res == left + right);
        if t.words_of(node).len() > 0 {
            lemma_tree_search_unique(t, (n - 1) as nat, g2, letters, 0, first_letter(t, node));
            assert forall|g: Seq<usize>| #[trigger] left.contains(g) implies g.len() > gl
                && g.subrange(0, gl) == group && g[gl] == node as usize by {
                if n - 1 > 0 {
                    assert(extends_at(t, g, g2, t.chars_of(0)));
                    assert(g.subrange(0, gl + 1)[gl] == g2[gl]);
                    assert(g.subrange(0, gl) =~= g.subrange(0, gl + 1).subrange(0, gl));
                    assert(g2.subrange(0, gl) =~= group);
                } else {
                    assert(left[0] == g2);
                    assert(g == g2);
                    assert(g2.subrange(0, gl) =~= group);
                }
            }
        } else {
            assert(left.no_duplicates());
        }
        lemma_tree_scan_unique(t, n, group, letters, node, skip, 0);
        assert forall|g: Seq<usize>| left.contains(g) implies !right.contains(g) by {
            if right.contains(g) {
                let kk = choose|kk: int| 0 <= kk < t.childs_of(node).len()
                    && is_path_prefix(t.chars_of(node).push(t.childs_of(node)[kk].0), t.chars_of(g[gl] as int));
                assert(g[gl] == node as usize);
                assert((node as usize) as int == node);
            }
        }
        lemma_concat_no_dup(left, right);
        assert forall|g: Seq<usize>| #[trigger] res.contains(g) implies extends_at(t, g, group, t.chars_of(node)) by {
            lemma_in_concat(left, right, g);
            if left.contains(g) {
                assert(g[gl] == node as usize);
                assert(t.chars_of(node).subrange(0, t.chars_of(node).len() as int) =~= t.chars_of(node));
            } else {
                let kk = choose|kk: int| 0 <= kk < t.childs_of(node).len()
                    && is_path_prefix(t.chars_of(node).push(t.childs_of(node)[kk].0), t.chars_of(g[gl] as int));
                let p = t.chars_of(node);
                let q = t.chars_of(g[gl] as int);
                assert(q.subrange(0, p.len() as int) =~= q.subrange(0, p.len() as int + 1).subrange(0, p.len() as int));
                assert(p.push(t.childs_of(node)[kk].0).subrange(0, p.len() as int) =~= p);
            }
        }
    }
}

/// The search through the children `k..` of `node` yields no group twice,
/// and the path of each group's next member extends that of one of those
/// children.
pub proof fn lemma_tree_scan_unique(t: FastTree, n: nat, group: Seq<usize>, letters: Seq<char>, node: int, skip: Option<char>, k: int)
    requires
        t.wf(),
        0 <= node < t.node_count(),
        0 <= k,
        n > 0,
    ensures
        tree_scan(t, n, group, letters, node, skip, k).no_duplicates(),
        forall|g: Seq<usize>| #[trigger] tree_scan(t, n, group, letters, node, skip, k).contains(g) ==> {
            &&& g.len() > group.len()
            &&& g.subrange(0, group.len() as int) == group
            &&& exists|kk: int| k <= kk < t.childs_of(node).len()
                && is_path_prefix(t.chars_of(node).push(t.childs_of(node)[kk].0), t.chars_of(g[group.len() as int] as int))
        },
    decreases n, t.node_count() - node, t.childs_of(node).len() - k,
{
    let res = tree_scan(t, n, group, letters, node, skip, k);
    let gl = group.len() as int;
    if !(k < t.childs_of(node).len()) {
        assert(res =~= Seq::<Seq<usize>>::empty());
    } else {
        let (c, ch) = t.childs_of(node)[k];
        if skip is Some && skip->0 != c {
            lemma_tree_scan_unique(t, n, group, letters, node, skip, k + 1);
            assert(res == tree_scan(t, n, group, letters, node, skip, k + 1));
        } else {
            let cond = !letters.contains(c) && node < ch < t.node_count();
            let left = if cond {
                tree_search(t, n, group, letters.push(c), ch as int, None)
            } else {
                Seq::empty()
            };
            let right = tree_scan(t, n, group, letters, node, None, k + 1);
            assert(res == left + right);
            lemma_tree_scan_unique(t, n, group, letters, node, None, k + 1);
            if cond {
                lemma_tree_search_unique(t, n, group, letters.push(c), ch as int, None);
                assert(t.chars_of(ch as int) == t.chars_of(node).push(c));
            } else {
                assert(left.no_duplicates());
            }
            {
                assert forall|g: Seq<usize>| left.contains(g) implies !right.contains(g) by {
                    if right.contains(g) {
                        let kk = choose|kk: int| k + 1 <= kk < t.childs_of(node).len()
                            && is_path_prefix(t.chars_of(node).push(t.childs_of(node)[kk].0), t.chars_of(g[gl] as int));
                        let p = t.chars_of(node);
                        let q = t.chars_of(g[gl] as int);
                        assert(extends_at(t, g, group, p.push(c)));
                        assert(q.subrange(0, p.len() as int + 1)[p.len() as int] == p.push(c)[p.len() as int]);
                        assert(q.subrange(0, p.len() as int + 1)[p.len() as int] == p.push(t.childs_of(node)[kk].0)[p.len() as int]);
                        assert(t.childs_of(node)[k].0 != t.childs_of(node)[kk].0);
                    }
                }
                lemma_concat_no_dup(left, right);
                assert forall|g: Seq<usize>| #[trigger] res.contains(g) implies {
                    &&& g.len() > group.len()
                    &&& g.subrange(0, group.len() as int) == group
                    &&& exists|kk: int| k <= kk < t.childs_of(node).len()
                        && is_path_prefix(t.chars_of(node).push(t.childs_of(node)[kk].0), t.chars_of(g[group.len() as int] as int))
                } by {
                    lemma_in_concat(left, right, g);
                    if left.contains(g) {
                        assert(extends_at(t, g, group, t.chars_of(node).push(c)));
                        assert(is_path_prefix(t.chars_of(node).push(t.childs_of(node)[k].0), t.chars_of(g[gl] as int)));
                    } else {
                        let kk = choose|kk: int| k + 1 <= kk < t.childs_of(node).len()
                            && is_path_prefix(t.chars_of(node).push(t.childs_of(node)[kk].0), t.chars_of(g[gl] as int));
                        assert(k <= kk);
                    }
                }
            }
        }
    }
}

/// The root at position `offset + m * threads`.
pub open spec fn root_at(roots: Seq<usize>, offset: int, threads: nat, m: int) -> usize {
    roots[offset + m * threads]
}

/// One worker yields no group twice, and each group it yields starts with
/// one of the roots it owns.
proof fn lemma_tree_worker_unique(t: FastTree, roots: Seq<usize>, offset: int, n: nat, threads: nat)
    requires
        t.wf(),
        0 <= offset,
        n > 0,
        threads > 0,
        roots.no_duplicates(),
        forall|k: int| 0 <= k < roots.len() ==> (#[trigger] roots[k]) < t.node_count(),
    ensures
        tree_worker(t, roots, offset, n, threads).no_duplicates(),
        forall|g: Seq<usize>| #[trigger] tree_worker(t, roots, offset, n, threads).contains(g) ==> g.len() > 0
            && exists|m: int| 0 <= m && offset + m * threads < roots.len() && g[0] == #[trigger] root_at(roots, offset, threads, m),
    decreases roots.len() + threads - offset,
{
    let res = tree_worker(t, roots, offset, n, threads);
    if offset < roots.len() {
        let r = roots[offset];
        let root = tree_root(t, r, n);
        let rest = tree_worker(t, roots, offset + threads, n, threads);
        assert(res == root + rest);
        lemma_tree_search_unique(t, (n - 1) as nat, seq![r], t.chars_of(r as int), 0, first_letter(t, r as int));
        assert forall|g: Seq<usize>| #[trigger] root.contains(g) implies g.len() > 0 && g[0] == r by {
            if n - 1 > 0 {
                assert(extends_at(t, g, seq![r], t.chars_of(0)));
                assert(g.subrange(0, 1)[0] == g[0]);
            } else {
                assert(root[0] == seq![r]);
            }
        }
        lemma_tree_worker_unique(t, roots, offset + threads, n, threads);
        assert forall|g: Seq<usize>| root.contains(g) implies !rest.contains(g) by {
            if rest.contains(g) {
                let m = choose|m: int| 0 <= m && offset + threads + m * threads < roots.len()
                    && g[0] == #[trigger] root_at(roots, offset + threads, threads, m);
                assert(offset + threads + m * threads > offset) by (nonlinear_arith)
                    requires threads > 0, m >= 0;
                assert(roots[offset] == roots[offset + threads + m * threads]);
            }
        }
        lemma_concat_no_dup(root, rest);
        assert forall|g: Seq<usize>| #[trigger] res.contains(g) implies g.len() > 0
            && exists|m: int| 0 <= m && offset + m * threads < roots.len() && g[0] == #[trigger] root_at(roots, offset, threads, m) by {
            lemma_in_concat(root, rest, g);
            if root.contains(g) {
                assert(offset + 0 * threads == offset);
                assert(g[0] == root_at(roots, offset, threads, 0));
            } else {
                let m = choose|m: int| 0 <= m && offset + threads + m * threads < roots.len()
                    && g[0] == #[trigger] root_at(roots, offset + threads, threads, m);
                assert(offset + (m + 1) * threads == offset + threads + m * threads) by (nonlinear_arith);
                assert(g[0] == root_at(roots, offset, threads, m + 1));
            }
        }
    } else {
        assert(res =~= Seq::<Seq<usize>>::empty());
    }
}

/// With a positive group size and distinct roots, the trie search yields no
/// group twice: no worker yields one twice, and no two workers yield the same one.
pub proof fn lemma_tree_no_repeats(t: FastTree, roots: Seq<usize>, n: nat, threads: nat)
    requires
        t.wf(),
        n > 0,
        threads > 0,
        roots.no_duplicates(),
        forall|k: int| 0 <= k < roots.len() ==> (#[trigger] roots[k]) < t.node_count(),
    ensures
        forall|o: int| 0 <= o < threads ==> #[trigger] tree_worker(t, roots, o, n, threads).no_duplicates(),
        forall|o1: int, o2: int, g: Seq<usize>| 0 <= o1 < o2 < threads
            && #[trigger] tree_worker(t, roots, o1, n, threads).contains(g)
            ==> !(#[trigger] tree_worker(t, roots, o2, n, threads).contains(g)),
{
    assert forall|o: int| 0 <= o < threads implies #[trigger] tree_worker(t, roots, o, n, threads).no_duplicates() by {
        lemma_tree_worker_unique(t, roots, o, n, threads);
    }
    assert forall|o1: int, o2: int, g: Seq<usize>| 0 <= o1 < o2 < threads
        && #[trigger] tree_worker(t, roots, o1, n, threads).contains(g)
        implies !(#[trigger] tree_worker(t, roots, o2, n, threads).contains(g)) by {
        lemma_tree_worker_unique(t, roots, o1, n, threads);
        lemma_tree_worker_unique(t, roots, o2, n, threads);
        if tree_worker(t, roots, o2, n, threads).contains(g) {
            let m1 = choose|m: int| 0 <= m && o1 + m * threads < roots.len() && g[0] == #[trigger] root_at(roots, o1, threads, m);
            let m2 = choose|m: int| 0 <= m && o2 + m * threads < roots.len() && g[0] == #[trigger] root_at(roots, o2, threads, m);
            let i1 = o1 + m1 * threads;
            let i2 = o2 + m2 * threads;
            assert(0 <= i1 && 0 <= i2) by (nonlinear_arith)
                requires i1 == o1 + m1 * threads, i2 == o2 + m2 * threads, m1 >= 0, m2 >= 0, o1 >= 0, o2 >= 0, threads > 0;
            assert(roots[i1] == roots[i2]);
            assert(i1 == i2);
            if m1 > m2 {
                assert((m1 - m2) * threads >= threads) by (nonlinear_arith)
                    requires m1 > m2, threads > 0;
                assert(i1 - i2 == (m1 - m2) * threads + o1 - o2) by (nonlinear_arith)
                    requires i1 == o1 + m1 * threads, i2 == o2 + m2 * threads;
            } else if m1 < m2 {
                assert((m2 - m1) * threads >= threads) by (nonlinear_arith)
                    requires m2 > m1, threads > 0;
                assert(i2 - i1 == (m2 - m1) * threads + o2 - o1) by (nonlinear_arith)
                    requires i1 == o1 + m1 * threads, i2 == o2 + m2 * threads;
            }
        }
    }
}

/// Scanning without a resume letter from child `k` on reaches what child `kk` yields.
proof fn lemma_scan_reaches(t: FastTree, n: nat, group: Seq<usize>, letters: Seq<char>, node: int, k: int, kk: int, x: Seq<usize>)
    requires
        t.wf(),
        0 <= node < t.node_count(),
        0 <= k <= kk < t.childs_of(node).len(),
        !letters.contains(t.childs_of(node)[kk].0),
        tree_search(t, n, group, letters.push(t.childs_of(node)[kk].0), t.childs_of(node)[kk].1 as int, None).contains(x),
    ensures
        tree_scan(t, n, group, letters, node, None, k).contains(x),
    decreases kk - k,
{
    let (c, ch) = t.childs_of(node)[k];
    let left = if !letters.contains(c) && node < ch < t.node_count() {
        tree_search(t, n, group, letters.push(c), ch as int, None)
    } else {
        Seq::empty()
    };
    let right = tree_scan(t, n, group, letters, node, None, k + 1);
    assert(tree_scan(t, n, group, letters, node, None, k) == left + right);
    if k == kk {
        assert(left.contains(x));
        let i = choose|i: int| 0 <= i < left.len() && left[i] == x;
        assert((left + right)[i] == x);
    } else {
        lemma_scan_reaches(t, n, group, letters, node, k + 1, kk, x);
        let i = choose|i: int| 0 <= i < right.len() && right[i] == x;
        assert((left + right)[left.len() + i] == x);
    }
}

/// Scanning with resume letter `s`, held by child `ks`, reaches what a later child `kk` yields.
proof fn lemma_scan_resumes(t: FastTree, n: nat, group: Seq<usize>, letters: Seq<char>, node: int, s: char, k: int, ks: int, kk: int, x: Seq<usize>)
    requires
        t.wf(),
        0 <= node < t.node_count(),
        0 <= k <= ks < kk < t.childs_of(node).len(),
        t.childs_of(node)[ks].0 == s,
        !letters.contains(t.childs_of(node)[kk].0),
        tree_search(t, n, group, letters.push(t.childs_of(node)[kk].0), t.childs_of(node)[kk].1 as int, None).contains(x),
    ensures
        tree_scan(t, n, group, letters, node, Some(s), k).contains(x),
    decreases ks - k,
{
    let (c, ch) = t.childs_of(node)[k];
    if k < ks {
        assert(c != s);
        lemma_scan_resumes(t, n, group, letters, node, s, k + 1, ks, kk, x);
    } else {
        let left = if !letters.contains(c) && node < ch < t.node_count() {
            tree_search(t, n, group, letters.push(c), ch as int, None)
        } else {
            Seq::empty()
        };
        let right = tree_scan(t, n, group, letters, node, None, k + 1);
        assert(tree_scan(t, n, group, letters, node, Some(s), k) == left + right);
        lemma_scan_reaches(t, n, group, letters, node, k + 1, kk, x);
        let i = choose|i: int| 0 <= i < right.len() && right[i] == x;
        assert((left + right)[left.len() + i] == x);
    }
}

/// Descending from `u` towards a node `v` below it, whose letters are free,
/// reaches every group that the search yields once `v` has joined.
proof fn lemma_descend(t: FastTree, n: nat, group: Seq<usize>, base: Seq<char>, u: int, v: int, x: Seq<usize>)
    requires
        t.wf(),
        n > 0,
        0 <= u < t.node_count(),
        0 <= v < t.node_count(),
        t.words_of(v).len() > 0,
        is_path_prefix(t.chars_of(u), t.chars_of(v)),
        forall|y: char| t.chars_of(v).contains(y) ==> !base.contains(y),
        tree_search(t, (n - 1) as nat, group.push(v as usize), base + t.chars_of(v), 0, first_letter(t, v)).contains(x),
    ensures
        tree_search(t, n, group, base + t.chars_of(u), u, None).contains(x),
    decreases t.chars_of(v).len() - t.chars_of(u).len(),
{
    let cu = t.chars_of(u);
    let cv = t.chars_of(v);
    let letters = base + cu;
    let left = if t.words_of(u).len() > 0 {
        tree_search(t, (n - 1) as nat, group.push(u as usize), letters, 0, first_letter(t, u))
    } else {
        Seq::empty()
    };
    let right = tree_scan(t, n, group, letters, u, None, 0);
    assert(tree_search(t, n, group, letters, u, None) == left + right);
    if cu.len() == cv.len() {
        assert(cu =~= cv);
        if u != v {
            if u < v {
                assert(t.chars_of(u) != t.chars_of(v));
            } else {
                assert(t.chars_of(v) != t.chars_of(u));
            }
        }
        assert((v as usize) as int == v);
        let i = choose|i: int| 0 <= i < left.len() && left[i] == x;
        assert((left + right)[i] == x);
    } else {
        let c = cv[cu.len() as int];
        let next_path = cu.push(c);
        assert(is_path_prefix(next_path, cv)) by {
            assert(cv.subrange(0, next_path.len() as int) =~= next_path);
        }
        assert(t.has_path(next_path));
        let k = choose|k: int| 0 <= k < t.childs_of(u).len() && t.childs_of(u)[k].0 == c;
        let (c2, ch) = t.childs_of(u)[k];
        assert(t.chars_of(ch as int) == next_path);
        assert(cv.contains(c));
        assert(!letters.contains(c)) by {
            if letters.contains(c) {
                let i = choose|i: int| 0 <= i < letters.len() && letters[i] == c;
                if i >= base.len() {
                    assert(cu[i - base.len()] == cv[i - base.len()]);
                    assert(strictly_sorted(cv));
                    assert(cv[i - base.len()] < cv[cu.len() as int]);
                } else {
                    assert(base.contains(c));
                }
            }
        }
        assert(letters.push(c) =~= base + t.chars_of(ch as int));
        lemma_descend(t, n, group, base, ch as int, v, x);
        lemma_scan_reaches(t, n, group, letters, u, 0, k, x);
        let i = choose|i: int| 0 <= i < right.len() && right[i] == x;
        assert((left + right)[left.len() + i] == x);
    }
}

/// The first letters of `a` and then `b` come in the order of the root's children.
pub open spec fn ranked_before(t: FastTree, a: usize, b: usize) -> bool {
    exists|ks: int, kk: int| 0 <= ks < kk < t.childs_of(0).len()
        && #[trigger] t.childs_of(0)[ks].0 == t.chars_of(a as int)[0]
        && #[trigger] t.childs_of(0)[kk].0 == t.chars_of(b as int)[0]
}

/// `g` lists nodes that hold words, with non-empty paths that share no
/// letter, in the order of their first letters among the root's children.
pub open spec fn canonical_group(t: FastTree, g: Seq<usize>) -> bool {
    &&& forall|i: int| 0 <= i < g.len() ==> (#[trigger] g[i]) < t.node_count()
        && t.words_of(g[i] as int).len() > 0 && t.chars_of(g[i] as int).len() > 0
    &&& group_letters(t, g).no_duplicates()
    &&& forall|i: int| 0 <= i < g.len() - 1 ==> ranked_before(t, #[trigger] g[i], g[i + 1])
}

proof fn lemma_group_letters_prefix(t: FastTree, g: Seq<usize>, m: int)
    requires
        0 <= m <= g.len(),
        group_letters(t, g).no_duplicates(),
    ensures
        group_letters(t, g.subrange(0, m)).no_duplicates(),
    decreases g.len() - m,
{
    if m < g.len() {
        lemma_group_letters_prefix(t, g, m + 1);
        let h = g.subrange(0, m + 1);
        assert(h.drop_last() =~= g.subrange(0, m));
        lemma_no_dup_prefix(group_letters(t, g.subrange(0, m)), t.chars_of(h.last() as int));
    } else {
        assert(g.subrange(0, m) =~= g);
    }
}

/// The search from the first member of a canonical group of `n` nodes yields
/// that group.
pub proof fn lemma_tree_root_complete(t: FastTree, g: Seq<usize>)
    requires
        t.wf(),
        g.len() > 0,
        canonical_group(t, g),
    ensures
        tree_root(t, g[0], g.len()).contains(g),
{
    lemma_complete_from(t, g, 1);
    let g1 = g.subrange(0, 1);
    assert(g1 =~= seq![g[0]]);
    assert(g1.drop_last() =~= Seq::<usize>::empty());
    assert(g1.last() == g[0]);
    assert(group_letters(t, g1.drop_last()) == Seq::<char>::empty());
    assert(group_letters(t, g1) == group_letters(t, g1.drop_last()) + t.chars_of(g1.last() as int));
    assert(group_letters(t, g1) =~= t.chars_of(g[0] as int));
}

/// After the first `m` members, the search from the root resumed at the
/// last member's first letter yields the whole group.
proof fn lemma_complete_from(t: FastTree, g: Seq<usize>, m: int)
    requires
        t.wf(),
        1 <= m <= g.len(),
        canonical_group(t, g),
    ensures
        tree_search(t, (g.len() - m) as nat, g.subrange(0, m), group_letters(t, g.subrange(0, m)), 0,
            first_letter(t, g[m - 1] as int)).contains(g),
    decreases g.len() - m,
{
    let n = g.len() as int;
    if m == n {
        assert(g.subrange(0, m) =~= g);
        assert(tree_search(t, 0, g, group_letters(t, g), 0, first_letter(t, g[m - 1] as int))[0] == g);
    } else {
        lemma_complete_from(t, g, m + 1);
        let pre = g.subrange(0, m);
        let pre1 = g.subrange(0, m + 1);
        let v = g[m] as int;
        let u = g[m - 1] as int;
        let base = group_letters(t, pre);
        assert(pre1 =~= pre.push(g[m]));
        assert(pre1.drop_last() =~= pre);
        assert(group_letters(t, pre1) == base + t.chars_of(v));
        lemma_group_letters_prefix(t, g, m + 1);
        assert forall|y: char| t.chars_of(v).contains(y) implies !base.contains(y) by {
            if base.contains(y) {
                let a = group_letters(t, pre1);
                let i = choose|i: int| 0 <= i < base.len() && base[i] == y;
                let j = choose|j: int| 0 <= j < t.chars_of(v).len() && t.chars_of(v)[j] == y;
                assert(a[i] == a[base.len() + j]);
            }
        }
        assert(ranked_before(t, g[m - 1], g[m]));
        let (ks, kk) = choose|ks: int, kk: int| 0 <= ks < kk < t.childs_of(0).len()
            && #[trigger] t.childs_of(0)[ks].0 == t.chars_of(g[m - 1] as int)[0]
            && #[trigger] t.childs_of(0)[kk].0 == t.chars_of(g[m] as int)[0];
        let (c, ch) = t.childs_of(0)[kk];
        assert(t.chars_of(ch as int) == t.chars_of(0).push(c));
        assert(t.chars_of(ch as int) =~= seq![c]);
        assert(is_path_prefix(t.chars_of(ch as int), t.chars_of(v))) by {
            assert(t.chars_of(v).subrange(0, 1) =~= seq![c]);
        }
        assert(t.chars_of(v).contains(c));
        assert(base + t.chars_of(ch as int) =~= base.push(c));
        lemma_descend(t, (n - m) as nat, pre, base, ch as int, v, g);
        lemma_scan_resumes(t, (n - m) as nat, pre, base, 0, t.chars_of(u)[0], 0, ks, kk, g);
        assert(first_letter(t, u) == Some(t.chars_of(u)[0]));
        assert(base + t.chars_of(0) =~= base);
        let left = if t.words_of(0).len() > 0 {
            tree_search(t, (n - m - 1) as nat, pre.push(0), base, 0, first_letter(t, 0))
        } else {
            Seq::empty()
        };
        let right = tree_scan(t, (n - m) as nat, pre, base, 0, first_letter(t, u), 0);
        assert(tree_search(t, (n - m) as nat, pre, base, 0, first_letter(t, u)) == left + right);
        let i = choose|i: int| 0 <= i < right.len() && right[i] == g;
        assert((left + right)[left.len() + i] == g);
    }
}

proof fn lemma_tree_worker_has(t: FastTree, roots: Seq<usize>, offset: int, m: nat, n: nat, threads: nat, g: Seq<usize>)
    requires
        0 <= offset,
        threads > 0,
        offset + m * threads < roots.len(),
        g.len() > 0,
        roots[offset + m * threads] == g[0],
        tree_root(t, g[0], n).contains(g),
    ensures
        tree_worker(t, roots, offset, n, threads).contains(g),
    decreases m,
{
    let root = tree_root(t, roots[offset], n);
    let rest = tree_worker(t, roots, offset + threads, n, threads);
    assert(offset <= offset + m * threads) by (nonlinear_arith)
        requires threads > 0, m >= 0;
    assert(tree_worker(t, roots, offset, n, threads) == root + rest);
    if m == 0 {
        assert(m * threads == 0) by (nonlinear_arith)
            requires m == 0;
        let i = choose|i: int| 0 <= i < root.len() && root[i] == g;
        assert((root + rest)[i] == g);
    } else {
        assert(offset + m * threads == (offset + threads) + (m - 1) as nat * threads) by (nonlinear_arith)
            requires m > 0;
        lemma_tree_worker_has(t, roots, offset + threads, (m - 1) as nat, n, threads, g);
        let i = choose|i: int| 0 <= i < rest.len() && rest[i] == g;
        assert((root + rest)[root.len() + i] == g);
    }
}

/// Over the roots that `get_all_word_nodes` lists, every canonical group of
/// `n` nodes is yielded by exactly one worker: the one owning the position
/// of its first member.
pub proof fn lemma_tree_complete(t: FastTree, n: nat, threads: nat, g: Seq<usize>)
    requires
        t.wf(),
        threads > 0,
        n > 0,
        g.len() == n,
        canonical_group(t, g),
    ensures
        exists|o: int| 0 <= o < threads
            && #[trigger] tree_worker(t, t.word_nodes(t.node_count() as int), o, n, threads).contains(g),
        forall|o1: int, o2: int| 0 <= o1 < threads && 0 <= o2 < threads
            && #[trigger] tree_worker(t, t.word_nodes(t.node_count() as int), o1, n, threads).contains(g)
            && #[trigger] tree_worker(t, t.word_nodes(t.node_count() as int), o2, n, threads).contains(g)
            ==> o1 == o2,
{
    let roots = t.word_nodes(t.node_count() as int);
    t.lemma_word_nodes(t.node_count() as int);
    assert(g[0] < t.node_count() && t.words_of(g[0] as int).len() > 0);
    assert(roots.contains((g[0] as int) as usize));
    let p = choose|p: int| 0 <= p < roots.len() && roots[p] == g[0];
    let o = p % threads as int;
    let m = p / threads as int;
    vstd::arithmetic::div_mod::lemma_fundamental_div_mod(p, threads as int);
    vstd::arithmetic::div_mod::lemma_div_pos_is_pos(p, threads as int);
    assert(p == o + (m as nat) * threads) by (nonlinear_arith)
        requires p == threads as int * m + o, m >= 0;
    lemma_tree_root_complete(t, g);
    lemma_tree_worker_has(t, roots, o, m as nat, n, threads, g);
    lemma_tree_no_repeats(t, roots, n, threads);
    assert forall|o1: int, o2: int| 0 <= o1 < threads && 0 <= o2 < threads
        && #[trigger] tree_worker(t, roots, o1, n, threads).contains(g)
        && #[trigger] tree_worker(t, roots, o2, n, threads).contains(g)
        implies o1 == o2 by {
        if o1 < o2 {
        } else if o2 < o1 {
        }
    }
}

} // verus!
