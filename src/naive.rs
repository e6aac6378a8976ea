//! Brute-force search over a flat word list.
use vstd::prelude::*;
use crate::letters::{overlaps, share_letter};

verus! {

/// No two members of `g` (indices into `ws`) share a letter.
pub open spec fn pairwise_disjoint(ws: Seq<String>, g: Seq<usize>) -> bool {
    forall|a: int, b: int|
        0 <= a < b < g.len() ==> !share_letter(#[trigger] ws[g[a] as int]@, #[trigger] ws[g[b] as int]@)
}

/// Word `j` shares no letter with any member of `group`.
pub open spec fn fits(ws: Seq<String>, group: Seq<usize>, j: int) -> bool {
    forall|k: int| 0 <= k < group.len() ==> !share_letter(#[trigger] ws[group[k] as int]@, ws[j]@)
}

/// All groups that extend `group` by `n` more words taken, in increasing
/// position, from `ws[j..]`, each sharing no letter with those before it.
pub open spec fn naive_scan(ws: Seq<String>, j: int, n: nat, group: Seq<usize>) -> Seq<Seq<usize>>
    decreases ws.len() - j,
{
    if n == 0 {
        seq![group]
    } else if j >= ws.len() || j < 0 {
        Seq::empty()
    } else {
        (if fits(ws, group, j) {
            naive_scan(ws, j + 1, (n - 1) as nat, group.push(j as usize))
        } else {
            Seq::empty()
        }) + naive_scan(ws, j + 1, n, group)
    }
}

/// The groups whose first member is word `i`.
pub open spec fn naive_root(ws: Seq<String>, i: int, n: nat) -> Seq<Seq<usize>> {
    if n == 0 {
        seq![Seq::empty()]
    } else {
        naive_scan(ws, i + 1, (n - 1) as nat, seq![i as usize])
    }
}

/// The groups found by the worker that owns roots `i`, `i + threads`, ...
pub open spec fn naive_worker(ws: Seq<String>, i: int, n: nat, threads: nat) -> Seq<Seq<usize>>
    decreases ws.len() + threads - i,
{
    if i >= ws.len() || i < 0 || threads == 0 {
        Seq::empty()
    } else {
        naive_root(ws, i, n) + naive_worker(ws, i + threads, n, threads)
    }
}

/// Appends to `out` every group that extends `group` by `n` words of
/// `words[start..]`, in the order of `naive_scan`.
pub fn find_words_naive_impl(
    words: &Vec<String>,
    start: usize,
    n: usize,
    group: &mut Vec<usize>,
    out: &mut Vec<Vec<usize>>,
)
    requires
        start <= words.len(),
        forall|k: int| 0 <= k < old(group).len() ==> old(group)@[k] < words.len(),
    ensures
        final(group)@ == old(group)@,
        final(out).deep_view() == old(out).deep_view() + naive_scan(words@, start as int, n as nat, old(group)@),
    decreases n,
{
    if n == 0 {
        let g = group.clone();
        assert(g@ =~= group@);
        assert(g.deep_view() =~= group@);
        out.push(g);
        assert(out.deep_view() =~= old(out).deep_view() + seq![group@]);
        return;
    }
    let ghost out0 = out.deep_view();
    let ghost g0 = group@;
    let mut j: usize = start;
    while j < words.len()
        invariant
            start <= j <= words.len(),
            n > 0,
            group@ == g0,
            forall|k: int| 0 <= k < g0.len() ==> g0[k] < words.len(),
            out0 + naive_scan(words@, start as int, n as nat, g0) == out.deep_view() + naive_scan(words@, j as int, n as nat, g0),
        decreases words.len() - j,
    {
        let ghost before = out.deep_view();
        let mut ok = true;
        let mut k: usize = 0;
        while k < group.len()
            invariant
                group@ == g0,
                j < words.len(),
                forall|m: int| 0 <= m < g0.len() ==> g0[m] < words.len(),
                k <= group.len(),
                ok == (forall|m: int| 0 <= m < k ==> !share_letter(#[trigger] words@[g0[m] as int]@, words@[j as int]@)),
            decreases group.len() - k,
        {
            if overlaps(words[group[k]].as_str(), words[j].as_str()) {
                ok = false;
            }
            k = k + 1;
        }
        if ok {
            group.push(j);
            find_words_naive_impl(words, j + 1, n - 1, group, out);
            group.pop();
            assert(group@ =~= g0);
        }
        assert(ok == fits(words@, g0, j as int));
        assert(out0 + naive_scan(words@, start as int, n as nat, g0) =~= out.deep_view() + naive_scan(words@, j + 1, n as nat, g0));
        j = j + 1;
    }
    assert(out.deep_view() + naive_scan(words@, j as int, n as nat, g0) =~= out.deep_view());
}

/// The groups found by one worker of the brute-force search: it takes the
/// roots `offset`, `offset + threads`, ... and, for each root `i`, all groups
/// of `n` words whose first member is word `i` and whose other members come
/// after it.
pub fn find_words_naive_worker(words: &Vec<String>, n: usize, offset: usize, threads: usize) -> (r: Vec<Vec<usize>>)
    requires
        threads >= 1,
    ensures
        r.deep_view() == naive_worker(words@, offset as int, n as nat, threads as nat),
{
    let mut out: Vec<Vec<usize>> = Vec::new();
    let mut i: usize = offset;
    while i < words.len()
        invariant
            threads >= 1,
            naive_worker(words@, offset as int, n as nat, threads as nat)
                == out.deep_view() + naive_worker(words@, i as int, n as nat, threads as nat),
        decreases words.len() - i,
    {
        let ghost before = out.deep_view();
        if n == 0 {
            let e: Vec<usize> = Vec::new();
            assert(e.deep_view() =~= Seq::<usize>::empty());
            out.push(e);
            assert(out.deep_view() =~= before + seq![Seq::<usize>::empty()]);
        } else {
            let mut group: Vec<usize> = Vec::new();
            group.push(i);
            assert(group@ =~= seq![i]);
            find_words_naive_impl(words, i + 1, n - 1, &mut group, &mut out);
        }
        assert(out.deep_view() =~= before + naive_root(words@, i as int, n as nat));
        assert(naive_worker(words@, i as int, n as nat, threads as nat)
            == naive_root(words@, i as int, n as nat) + naive_worker(words@, i + threads, n as nat, threads as nat));
        assert(naive_worker(words@, offset as int, n as nat, threads as nat)
            =~= out.deep_view() + naive_worker(words@, i + threads, n as nat, threads as nat));
        if words.len() - i <= threads {
            assert(naive_worker(words@, i + threads, n as nat, threads as nat) == Seq::<Seq<usize>>::empty());
            assert(out.deep_view() =~= out.deep_view() + Seq::<Seq<usize>>::empty());
            return out;
        }
        i = i + threads;
    }
    assert(out.deep_view() =~= out.deep_view() + naive_worker(words@, i as int, n as nat, threads as nat));
    out
}

/// Positions strictly increase along `g`.
pub open spec fn increasing(g: Seq<usize>) -> bool {
    forall|a: int, b: int| 0 <= a < b < g.len() ==> g[a] < g[b]
}

/// A group of `n` distinct positions of `ws` whose words share no letter.
pub open spec fn valid_group(ws: Seq<String>, g: Seq<usize>, n: nat) -> bool {
    &&& g.len() == n
    &&& increasing(g)
    &&& forall|k: int| 0 <= k < g.len() ==> g[k] < ws.len()
    &&& pairwise_disjoint(ws, g)
}

/// Every group that the scan yields extends `group` by `n` later positions
/// and keeps the letters of its words pairwise disjoint.
pub proof fn lemma_naive_scan_sound(ws: Seq<String>, j: int, n: nat, group: Seq<usize>)
    requires
        0 <= j <= ws.len() <= usize::MAX,
        valid_group(ws, group, group.len()),
        forall|k: int| 0 <= k < group.len() ==> group[k] < j,
    ensures
        forall|g: Seq<usize>| #[trigger] naive_scan(ws, j, n, group).contains(g)
            ==> valid_group(ws, g, group.len() + n),
    decreases ws.len() - j,
{
    if n == 0 {
        assert(naive_scan(ws, j, n, group) =~= seq![group]);
        assert forall|g: Seq<usize>| #[trigger] naive_scan(ws, j, n, group).contains(g)
            implies valid_group(ws, g, group.len() + n) by {
            assert(naive_scan(ws, j, n, group)[0] == group);
        }
    } else if j < ws.len() {
        let left = if fits(ws, group, j) {
            naive_scan(ws, j + 1, (n - 1) as nat, group.push(j as usize))
        } else {
            Seq::empty()
        };
        let right = naive_scan(ws, j + 1, n, group);
        if fits(ws, group, j) {
            let g2 = group.push(j as usize);
            assert(g2[group.len() as int] == j as usize);
            assert(forall|k: int| 0 <= k < group.len() ==> g2[k] == group[k]);
            assert forall|a: int, b: int| 0 <= a < b < g2.len()
                implies !share_letter(#[trigger] ws[g2[a] as int]@, #[trigger] ws[g2[b] as int]@) by {
                if b == group.len() {
                    assert(!share_letter(ws[group[a] as int]@, ws[j]@));
                }
            }
            assert(increasing(g2));
            assert(valid_group(ws, g2, g2.len()));
            lemma_naive_scan_sound(ws, j + 1, (n - 1) as nat, g2);
        }
        lemma_naive_scan_sound(ws, j + 1, n, group);
        assert forall|g: Seq<usize>| #[trigger] naive_scan(ws, j, n, group).contains(g)
            implies valid_group(ws, g, group.len() + n) by {
            assert(naive_scan(ws, j, n, group) == left + right);
            let k = choose|k: int| 0 <= k < (left + right).len() && (left + right)[k] == g;
            if k < left.len() {
                assert(left.contains(g));
            } else {
                assert(right[k - left.len()] == g);
                assert(right.contains(g));
            }
        }
    }
}

/// Every group that a worker of the brute-force search yields holds `n`
/// distinct positions whose words pairwise share no letter; where no word
/// is empty, the `n` words themselves are distinct.
pub proof fn lemma_naive_groups_valid(ws: Seq<String>, offset: int, n: nat, threads: nat)
    requires
        0 <= offset,
        ws.len() <= usize::MAX,
    ensures
        forall|g: Seq<usize>| #[trigger] naive_worker(ws, offset, n, threads).contains(g)
            ==> valid_group(ws, g, n),
        (forall|i: int| 0 <= i < ws.len() ==> ws[i]@.len() > 0) ==>
            forall|g: Seq<usize>, a: int, b: int|
                #![trigger naive_worker(ws, offset, n, threads).contains(g), g[a], g[b]]
                naive_worker(ws, offset, n, threads).contains(g) && 0 <= a < b < g.len()
                ==> ws[g[a] as int]@ != ws[g[b] as int]@,
    decreases ws.len() + threads - offset,
{
    if offset < ws.len() && threads > 0 {
        let root = naive_root(ws, offset, n);
        let rest = naive_worker(ws, offset + threads, n, threads);
        if n == 0 {
            assert(root =~= seq![Seq::<usize>::empty()]);
            assert forall|g: Seq<usize>| #[trigger] root.contains(g) implies valid_group(ws, g, n) by {
                assert(root[0] == Seq::<usize>::empty());
            }
        } else {
            let g1 = seq![offset as usize];
            assert(valid_group(ws, g1, 1));
            lemma_naive_scan_sound(ws, offset + 1, (n - 1) as nat, g1);
        }
        lemma_naive_groups_valid(ws, offset + threads, n, threads);
        assert forall|g: Seq<usize>| #[trigger] naive_worker(ws, offset, n, threads).contains(g)
            implies valid_group(ws, g, n) by {
            let k = choose|k: int| 0 <= k < (root + rest).len() && (root + rest)[k] == g;
            if k < root.len() {
                assert(root.contains(g));
            } else {
                assert(rest[k - root.len()] == g);
                assert(rest.contains(g));
            }
        }
    }
    if forall|i: int| 0 <= i < ws.len() ==> ws[i]@.len() > 0 {
        assert forall|g: Seq<usize>, a: int, b: int|
            #![trigger naive_worker(ws, offset, n, threads).contains(g), g[a], g[b]]
            naive_worker(ws, offset, n, threads).contains(g) && 0 <= a < b < g.len()
            implies ws[g[a] as int]@ != ws[g[b] as int]@ by {
            assert(valid_group(ws, g, n));
            if ws[g[a] as int]@ == ws[g[b] as int]@ {
                let w = ws[g[a] as int]@;
                assert(w.len() > 0);
                assert(ws[g[b] as int]@.contains(w[0]));
                assert(share_letter(ws[g[a] as int]@, ws[g[b] as int]@));
            }
        }
    }
}

/// Fewer than `n` words after position `j` leave nothing to find.
pub proof fn lemma_naive_scan_short(ws: Seq<String>, j: int, n: nat, group: Seq<usize>)
    requires
        0 <= j <= ws.len(),
        n > ws.len() - j,
    ensures
        naive_scan(ws, j, n, group) == Seq::<Seq<usize>>::empty(),
    decreases ws.len() - j,
{
    if j < ws.len() {
        lemma_naive_scan_short(ws, j + 1, (n - 1) as nat, group.push(j as usize));
        lemma_naive_scan_short(ws, j + 1, n, group);
        assert(naive_scan(ws, j, n, group) =~= Seq::<Seq<usize>>::empty());
    }
}

/// A word list with fewer than `n` words yields no group.
pub proof fn lemma_naive_too_few_words(ws: Seq<String>, offset: int, n: nat, threads: nat)
    requires
        0 <= offset,
        n > ws.len(),
    ensures
        naive_worker(ws, offset, n, threads) == Seq::<Seq<usize>>::empty(),
    decreases ws.len() + threads - offset,
{
    if offset < ws.len() && threads > 0 {
        lemma_naive_scan_short(ws, offset + 1, (n - 1) as nat, seq![offset as usize]);
        lemma_naive_too_few_words(ws, offset + threads, n, threads);
        assert(naive_worker(ws, offset, n, threads) =~= Seq::<Seq<usize>>::empty());
    }
}

proof fn lemma_concat_has(a: Seq<Seq<usize>>, b: Seq<Seq<usize>>, x: Seq<usize>)
    requires
        a.contains(x) || b.contains(x),
    ensures
        (a + b).contains(x),
{
    if a.contains(x) {
        let k = choose|k: int| 0 <= k < a.len() && a[k] == x;
        assert((a + b)[k] == x);
    } else {
        let k = choose|k: int| 0 <= k < b.len() && b[k] == x;
        assert((a + b)[a.len() + k] == x);
    }
}

/// The scan finds every group that extends `group` by `n` words at
/// increasing positions from `j` on, sharing no letter.
pub proof fn lemma_naive_scan_complete(ws: Seq<String>, j: int, n: nat, group: Seq<usize>, g: Seq<usize>)
    requires
        0 <= j <= ws.len() <= usize::MAX,
        g.len() == group.len() + n,
        g.subrange(0, group.len() as int) == group,
        forall|k: int| group.len() <= k < g.len() ==> j <= #[trigger] g[k] < ws.len(),
        increasing(g),
        pairwise_disjoint(ws, g),
    ensures
        naive_scan(ws, j, n, group).contains(g),
    decreases ws.len() - j,
{
    let gl = group.len() as int;
    if n == 0 {
        assert(g =~= group);
        assert(naive_scan(ws, j, n, group)[0] == group);
    } else {
        assert(j <= g[gl] < ws.len());
        let left = if fits(ws, group, j) {
            naive_scan(ws, j + 1, (n - 1) as nat, group.push(j as usize))
        } else {
            Seq::empty()
        };
        let right = naive_scan(ws, j + 1, n, group);
        assert(naive_scan(ws, j, n, group) == left + right);
        if g[gl] == j {
            assert forall|k: int| 0 <= k < group.len() implies !share_letter(#[trigger] ws[group[k] as int]@, ws[j]@) by {
                assert(g.subrange(0, gl)[k] == g[k]);
                assert(!share_letter(ws[g[k] as int]@, ws[g[gl] as int]@));
            }
            assert(fits(ws, group, j));
            assert(g.subrange(0, gl + 1) =~= group.push(j as usize)) by {
                assert forall|k: int| 0 <= k < gl implies g.subrange(0, gl + 1)[k] == group[k] by {
                    assert(g.subrange(0, gl)[k] == g[k]);
                }
            }
            assert forall|k: int| gl + 1 <= k < g.len() implies j + 1 <= #[trigger] g[k] < ws.len() by {
                assert(g[gl] < g[k]);
            }
            lemma_naive_scan_complete(ws, j + 1, (n - 1) as nat, group.push(j as usize), g);
        } else {
            assert forall|k: int| gl <= k < g.len() implies j + 1 <= #[trigger] g[k] < ws.len() by {
                if k > gl {
                    assert(g[gl] < g[k]);
                }
            }
            lemma_naive_scan_complete(ws, j + 1, n, group, g);
        }
        lemma_concat_has(left, right, g);
    }
}

proof fn lemma_naive_worker_complete(ws: Seq<String>, offset: int, m: nat, n: nat, threads: nat, g: Seq<usize>)
    requires
        ws.len() <= usize::MAX,
        0 <= offset,
        threads > 0,
        n > 0,
        valid_group(ws, g, n),
        g[0] == offset + m * threads,
    ensures
        naive_worker(ws, offset, n, threads).contains(g),
    decreases m,
{
    let i = offset;
    assert(g[0] < ws.len());
    assert(offset <= g[0]) by (nonlinear_arith)
        requires g[0] == offset + m * threads, threads > 0;
    let root = naive_root(ws, i, n);
    let rest = naive_worker(ws, i + threads, n, threads);
    assert(naive_worker(ws, offset, n, threads) == root + rest);
    if m == 0 {
        assert(m * threads == 0) by (nonlinear_arith)
            requires m == 0;
        assert(g[0] == offset);
        let g1 = seq![offset as usize];
        assert(g.subrange(0, 1) =~= g1);
        assert forall|k: int| 1 <= k < g.len() implies offset + 1 <= #[trigger] g[k] < ws.len() by {
            assert(g[0] < g[k]);
        }
        lemma_naive_scan_complete(ws, offset + 1, (n - 1) as nat, g1, g);
    } else {
        assert(g[0] == (offset + threads) + (m - 1) as nat * threads) by (nonlinear_arith)
            requires g[0] == offset + m * threads, m > 0;
        lemma_naive_worker_complete(ws, offset + threads, (m - 1) as nat, n, threads, g);
    }
    lemma_concat_has(root, rest, g);
}

/// Every group of `n` words at increasing positions that pairwise share no
/// letter is found by the worker that owns its first position.
pub proof fn lemma_naive_complete(ws: Seq<String>, n: nat, threads: nat, g: Seq<usize>)
    requires
        ws.len() <= usize::MAX,
        threads > 0,
        n > 0,
        valid_group(ws, g, n),
    ensures
        naive_worker(ws, g[0] as int % threads as int, n, threads).contains(g),
{
    let o = g[0] as int % threads as int;
    let m = g[0] as int / threads as int;
    vstd::arithmetic::div_mod::lemma_fundamental_div_mod(g[0] as int, threads as int);
    assert(m >= 0) by {
        vstd::arithmetic::div_mod::lemma_div_pos_is_pos(g[0] as int, threads as int);
    }
    assert(g[0] == o + (m as nat) * threads) by (nonlinear_arith)
        requires g[0] as int == threads as int * m + o, m >= 0;
    lemma_naive_worker_complete(ws, o, m as nat, n, threads, g);
}

/// With `n == 1` each root yields exactly the group made of itself.
pub proof fn lemma_naive_singletons(ws: Seq<String>, i: int)
    requires
        0 <= i < ws.len(),
    ensures
        naive_root(ws, i, 1) == seq![seq![i as usize]],
{
    assert(naive_scan(ws, i + 1, 0, seq![i as usize]) == seq![seq![i as usize]]);
}

} // verus!
