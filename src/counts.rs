//! How often each letter occurs across a word list.
use vstd::prelude::*;
use crate::letters::letters_of;

verus! {

/// How often `c` occurs in `s`.
pub open spec fn count_in(s: Seq<char>, c: char) -> nat
    decreases s.len(),
{
    if s.len() == 0 {
        0
    } else {
        count_in(s.drop_last(), c) + if s.last() == c { 1nat } else { 0nat }
    }
}

/// How often `c` occurs across all words of `ws`.
pub open spec fn letter_count(ws: Seq<String>, c: char) -> nat
    decreases ws.len(),
{
    if ws.len() == 0 {
        0
    } else {
        letter_count(ws.drop_last(), c) + count_in(ws.last()@, c)
    }
}

/// The count that table `t` holds for `c`: its last entry under `c`, or zero.
pub open spec fn count_of(t: Seq<(char, usize)>, c: char) -> nat
    decreases t.len(),
{
    if t.len() == 0 {
        0
    } else if t.last().0 == c {
        t.last().1 as nat
    } else {
        count_of(t.drop_last(), c)
    }
}

proof fn lemma_count_of_at(t: Seq<(char, usize)>, k: int, c: char)
    requires
        0 <= k < t.len(),
        t[k].0 == c,
        forall|m: int| k < m < t.len() ==> (#[trigger] t[m]).0 != c,
    ensures
        count_of(t, c) == t[k].1,
    decreases t.len(),
{
    if k < t.len() - 1 {
        assert(t[t.len() - 1] == t.last());
        let d = t.drop_last();
        assert forall|m: int| k < m < d.len() implies (#[trigger] d[m]).0 != c by {
            assert(d[m] == t[m]);
        }
        lemma_count_of_at(d, k, c);
    }
}

proof fn lemma_count_of_absent(t: Seq<(char, usize)>, c: char)
    requires
        forall|m: int| 0 <= m < t.len() ==> (#[trigger] t[m]).0 != c,
    ensures
        count_of(t, c) == 0,
    decreases t.len(),
{
    if t.len() > 0 {
        assert(t[t.len() - 1] == t.last());
        let d = t.drop_last();
        assert forall|m: int| 0 <= m < d.len() implies (#[trigger] d[m]).0 != c by {
            assert(d[m] == t[m]);
        }
        lemma_count_of_absent(d, c);
    }
}

proof fn lemma_count_of_update(t: Seq<(char, usize)>, k: int, c: char, v: usize, d: char)
    requires
        0 <= k < t.len(),
        t[k].0 == c,
        forall|m: int| k < m < t.len() ==> (#[trigger] t[m]).0 != c,
    ensures
        count_of(t.update(k, (c, v)), d) == if d == c { v as nat } else { count_of(t, d) },
    decreases t.len(),
{
    let u = t.update(k, (c, v));
    assert(u[u.len() - 1] == u.last());
    assert(t[t.len() - 1] == t.last());
    if k == t.len() - 1 {
        assert(u.drop_last() =~= t.drop_last());
    } else {
        let dt = t.drop_last();
        assert(u.drop_last() =~= dt.update(k, (c, v)));
        assert forall|m: int| k < m < dt.len() implies (#[trigger] dt[m]).0 != c by {
            assert(dt[m] == t[m]);
        }
        lemma_count_of_update(dt, k, c, v, d);
    }
}

proof fn lemma_count_in_absent(s: Seq<char>, c: char)
    requires
        !s.contains(c),
    ensures
        count_in(s, c) == 0,
    decreases s.len(),
{
    if s.len() > 0 {
        assert(!s.drop_last().contains(c)) by {
            if s.drop_last().contains(c) {
                let k = choose|k: int| 0 <= k < s.drop_last().len() && s.drop_last()[k] == c;
                assert(s[k] == c);
            }
        }
        assert(s[s.len() - 1] == s.last());
        lemma_count_in_absent(s.drop_last(), c);
    }
}

proof fn lemma_count_in_at_most_one(s: Seq<char>, c: char)
    requires
        s.no_duplicates(),
    ensures
        count_in(s, c) <= 1,
    decreases s.len(),
{
    if s.len() > 0 {
        let d = s.drop_last();
        assert(d.no_duplicates());
        lemma_count_in_at_most_one(d, c);
        if s.last() == c {
            assert(!d.contains(c)) by {
                if d.contains(c) {
                    let k = choose|k: int| 0 <= k < d.len() && d[k] == c;
                    assert(s[k] == s[s.len() - 1]);
                }
            }
            lemma_count_in_absent(d, c);
        }
    }
}

proof fn lemma_letter_count_bound(ws: Seq<String>, c: char)
    requires
        forall|k: int| 0 <= k < ws.len() ==> (#[trigger] ws[k])@.no_duplicates(),
    ensures
        letter_count(ws, c) <= ws.len(),
    decreases ws.len(),
{
    if ws.len() > 0 {
        let d = ws.drop_last();
        assert forall|k: int| 0 <= k < d.len() implies (#[trigger] d[k])@.no_duplicates() by {
            assert(d[k] == ws[k]);
        }
        lemma_letter_count_bound(d, c);
        assert(ws[ws.len() - 1] == ws.last());
        lemma_count_in_at_most_one(ws.last()@, c);
    }
}

/// A table of each letter that occurs across `words` and how often it does.
pub fn letter_counts(words: &Vec<String>) -> (t: Vec<(char, usize)>)
    requires
        forall|k: int| 0 <= k < words@.len() ==> (#[trigger] words@[k])@.no_duplicates(),
    ensures
        forall|c: char| #[trigger] count_of(t@, c) == letter_count(words@, c),
{
    let mut t: Vec<(char, usize)> = Vec::new();
    let mut i: usize = 0;
    while i < words.len()
        invariant
            i <= words@.len(),
            forall|k: int| 0 <= k < words@.len() ==> (#[trigger] words@[k])@.no_duplicates(),
            forall|c: char| #[trigger] count_of(t@, c) == letter_count(words@.subrange(0, i as int), c),
        decreases words@.len() - i,
    {
        let w = letters_of(words[i].as_str());
        let ghost pre = words@.subrange(0, i as int);
        let mut j: usize = 0;
        while j < w.len()
            invariant
                i < words@.len(),
                j <= w@.len(),
                w@ == words@[i as int]@,
                w@.no_duplicates(),
                pre == words@.subrange(0, i as int),
                forall|k: int| 0 <= k < words@.len() ==> (#[trigger] words@[k])@.no_duplicates(),
                forall|c: char| #[trigger] count_of(t@, c) == letter_count(pre, c) + count_in(w@.subrange(0, j as int), c),
            decreases w@.len() - j,
        {
            let c = w[j];
            let ghost sub = w@.subrange(0, j as int);
            let ghost sub1 = w@.subrange(0, j + 1);
            assert(sub1.drop_last() =~= sub);
            assert(sub1.last() == c);
            assert(forall|d: char| #[trigger] count_in(sub1, d) == count_in(sub, d) + if d == c { 1nat } else { 0nat });
            assert(!sub.contains(c)) by {
                if sub.contains(c) {
                    let k = choose|k: int| 0 <= k < sub.len() && sub[k] == c;
                    assert(w@[k] == w@[j as int]);
                }
            }
            proof {
                lemma_count_in_absent(sub, c);
                assert forall|k: int| 0 <= k < pre.len() implies (#[trigger] pre[k])@.no_duplicates() by {
                    assert(pre[k] == words@[k]);
                }
                lemma_letter_count_bound(pre, c);
            }
            let mut k: usize = t.len();
            while k > 0 && t[k - 1].0 != c
                invariant
                    k <= t@.len(),
                    forall|m: int| k <= m < t@.len() ==> (#[trigger] t@[m]).0 != c,
                decreases k,
            {
                k = k - 1;
            }
            let ghost t0 = t@;
            if k == 0 {
                proof {
                    lemma_count_of_absent(t0, c);
                }
                t.push((c, 1));
                assert forall|d: char| #[trigger] count_of(t@, d) == letter_count(pre, d) + count_in(sub1, d) by {
                    assert(t@.drop_last() =~= t0);
                    assert(count_of(t0, d) == letter_count(pre, d) + count_in(sub, d));
                    assert(count_in(sub1, d) == count_in(sub, d) + if d == c { 1nat } else { 0nat });
                }
            } else {
                proof {
                    lemma_count_of_at(t0, k - 1, c);
                }
                let v = t[k - 1].1;
                assert(count_of(t0, c) == letter_count(pre, c) + count_in(sub, c));
                assert(pre.len() == i);
                assert(v == t0[k - 1].1);
                assert(count_in(sub, c) == 0);
                assert(letter_count(pre, c) <= pre.len());
                assert(v < words.len());
                t.set(k - 1, (c, v + 1));
                assert forall|d: char| #[trigger] count_of(t@, d) == letter_count(pre, d) + count_in(sub1, d) by {
                    lemma_count_of_update(t0, k - 1, c, (v + 1) as usize, d);
                    assert(count_of(t0, d) == letter_count(pre, d) + count_in(sub, d));
                    assert(count_in(sub1, d) == count_in(sub, d) + if d == c { 1nat } else { 0nat });
                }
            }
            j = j + 1;
        }
        assert(w@.subrange(0, j as int) =~= w@);
        assert(words@.subrange(0, i + 1).drop_last() =~= pre);
        i = i + 1;
    }
    assert(words@.subrange(0, i as int) =~= words@);
    t
}

/// How often `c` occurs according to table `t`.
pub fn count_lookup(t: &Vec<(char, usize)>, c: char) -> (r: usize)
    ensures
        r == count_of(t@, c),
{
    let mut k: usize = t.len();
    while k > 0 && t[k - 1].0 != c
        invariant
            k <= t@.len(),
            forall|m: int| k <= m < t@.len() ==> (#[trigger] t@[m]).0 != c,
        decreases k,
    {
        k = k - 1;
    }
    if k == 0 {
        proof {
            lemma_count_of_absent(t@, c);
        }
        0
    } else {
        proof {
            lemma_count_of_at(t@, k - 1, c);
        }
        t[k - 1].1
    }
}

} // verus!
