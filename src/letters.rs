//! Letter-level predicates on words.
use vstd::prelude::*;
use vstd::std_specs::iter::IteratorSpec;

verus! {

broadcast use {vstd::string::axiom_spec_iter, vstd::string::next_postcondition};

/// Two words share a letter.
pub open spec fn share_letter(a: Seq<char>, b: Seq<char>) -> bool {
    exists|i: int| 0 <= i < a.len() && b.contains(#[trigger] a[i])
}

/// The letters of a string, in order.
pub fn letters_of(s: &str) -> (r: Vec<char>)
    ensures
        r@ == s@,
{
    let mut it = s.chars();
    let mut out: Vec<char> = Vec::new();
    loop
        invariant
            it.obeys_prophetic_iter_laws(),
            out@ + it.remaining() == s@,
            it.decrease() is Some,
        ensures
            out@ == s@,
        decreases it.decrease()->0,
    {
        let step = it.next();
        match step {
            Some(c) => {
                out.push(c);
            },
            None => {
                assert(out@ + it.remaining() =~= out@);
                break;
            },
        }
    }
    out
}

/// Whether every letter of `w` occurs only once.
pub fn distinct_letters(w: &str) -> (r: bool)
    ensures
        r == w@.no_duplicates(),
{
    let cs = letters_of(w);
    let mut i: usize = 0;
    while i < cs.len()
        invariant
            cs@ == w@,
            i <= cs.len(),
            forall|a: int, b: int| 0 <= a < i && a < b < cs.len() ==> cs@[a] != cs@[b],
        decreases cs.len() - i,
    {
        let mut j: usize = i + 1;
        while j < cs.len()
            invariant
                cs@ == w@,
                i < j <= cs.len(),
                forall|b: int| i < b < j ==> cs@[i as int] != cs@[b],
            decreases cs.len() - j,
        {
            if cs[i] == cs[j] {
                return false;
            }
            j = j + 1;
        }
        i = i + 1;
    }
    true
}

/// Whether some letter of `s1` occurs in `s2`.
pub fn overlaps(s1: &str, s2: &str) -> (r: bool)
    ensures
        r == share_letter(s1@, s2@),
{
    let a = letters_of(s1);
    let b = letters_of(s2);
    let mut i: usize = 0;
    while i < a.len()
        invariant
            a@ == s1@,
            b@ == s2@,
            i <= a.len(),
            forall|k: int| 0 <= k < i ==> !b@.contains(#[trigger] a@[k]),
        decreases a.len() - i,
    {
        let mut j: usize = 0;
        while j < b.len()
            invariant
                a@ == s1@,
                b@ == s2@,
                i < a.len(),
                j <= b.len(),
                forall|m: int| 0 <= m < j ==> b@[m] != a@[i as int],
            decreases b.len() - j,
        {
            if a[i] == b[j] {
                assert(b@.contains(a@[i as int]));
                return true;
            }
            j = j + 1;
        }
        i = i + 1;
    }
    false
}

/// The non-empty words of `ws` with no repeated letter, in order.
pub open spec fn distinct_only(ws: Seq<String>) -> Seq<String>
    decreases ws.len(),
{
    if ws.len() == 0 {
        Seq::empty()
    } else if ws.last()@.len() > 0 && ws.last()@.no_duplicates() {
        distinct_only(ws.drop_last()).push(ws.last())
    } else {
        distinct_only(ws.drop_last())
    }
}

/// Keeps the words of `words` that are non-empty and have no repeated
/// letter, in order.
pub fn distinct_words(words: &Vec<String>) -> (r: Vec<String>)
    ensures
        r@ == distinct_only(words@),
        forall|k: int| 0 <= k < r@.len() ==> (#[trigger] r@[k])@.no_duplicates() && r@[k]@.len() > 0,
{
    let mut r: Vec<String> = Vec::new();
    let mut i: usize = 0;
    while i < words.len()
        invariant
            i <= words@.len(),
            r@ == distinct_only(words@.subrange(0, i as int)),
            forall|k: int| 0 <= k < r@.len() ==> (#[trigger] r@[k])@.no_duplicates() && r@[k]@.len() > 0,
        decreases words@.len() - i,
    {
        assert(words@.subrange(0, i + 1).drop_last() =~= words@.subrange(0, i as int));
        assert(words@.subrange(0, i + 1).last() == words@[i as int]);
        if !words[i].as_str().is_empty() && distinct_letters(words[i].as_str()) {
            let w = words[i].clone();
            r.push(w);
        }
        i = i + 1;
    }
    assert(words@.subrange(0, i as int) =~= words@);
    r
}

/// Letters strictly increase along `p`.
pub open spec fn strictly_sorted(p: Seq<char>) -> bool {
    forall|a: int, b: int| 0 <= a < b < p.len() ==> p[a] < p[b]
}

/// `p` is the letter profile of `w`: its distinct letters in increasing order.
pub open spec fn is_profile(p: Seq<char>, w: Seq<char>) -> bool {
    &&& strictly_sorted(p)
    &&& forall|c: char| p.contains(c) <==> w.contains(c)
}

/// A word has only one letter profile.
pub proof fn lemma_profile_unique(p: Seq<char>, q: Seq<char>)
    requires
        strictly_sorted(p),
        strictly_sorted(q),
        forall|c: char| p.contains(c) <==> q.contains(c),
    ensures
        p == q,
    decreases p.len(),
{
    if p.len() == 0 {
        if q.len() > 0 {
            assert(q.contains(q[0]));
        }
        assert(p =~= q);
    } else {
        if q.len() == 0 {
            assert(p.contains(p[0]));
        }
        assert(p.contains(p[0]));
        assert(q.contains(q[0]));
        let k = choose|k: int| 0 <= k < q.len() && q[k] == p[0];
        let m = choose|m: int| 0 <= m < p.len() && p[m] == q[0];
        if k > 0 {
            assert(q[0] < q[k]);
            if m > 0 {
                assert(p[0] < p[m]);
            }
        }
        assert(p[0] == q[0]);
        let p_rest = p.drop_first();
        let q_rest = q.drop_first();
        assert forall|c: char| p_rest.contains(c) implies q_rest.contains(c) by {
            let i = choose|i: int| 0 <= i < p_rest.len() && p_rest[i] == c;
            assert(p[i + 1] == c);
            assert(p.contains(c));
            let j = choose|j: int| 0 <= j < q.len() && q[j] == c;
            if j == 0 {
                assert(p[0] < p[i + 1]);
            }
            assert(q_rest[j - 1] == c);
        }
        assert forall|c: char| q_rest.contains(c) implies p_rest.contains(c) by {
            let i = choose|i: int| 0 <= i < q_rest.len() && q_rest[i] == c;
            assert(q[i + 1] == c);
            assert(q.contains(c));
            let j = choose|j: int| 0 <= j < p.len() && p[j] == c;
            if j == 0 {
                assert(q[0] < q[i + 1]);
            }
            assert(p_rest[j - 1] == c);
        }
        lemma_profile_unique(p_rest, q_rest);
        assert(p =~= seq![p[0]] + p_rest);
        assert(q =~= seq![q[0]] + q_rest);
    }
}

/// The letter profile of a word without repeated letters.
pub fn profile_of(w: &Vec<char>) -> (p: Vec<char>)
    requires
        w@.no_duplicates(),
    ensures
        is_profile(p@, w@),
{
    let mut p: Vec<char> = Vec::new();
    let mut i: usize = 0;
    while i < w.len()
        invariant
            w@.no_duplicates(),
            i <= w.len(),
            strictly_sorted(p@),
            forall|c: char| p@.contains(c) <==> w@.subrange(0, i as int).contains(c),
        decreases w.len() - i,
    {
        let c = w[i];
        assert(!p@.contains(c)) by {
            if p@.contains(c) {
                let k = choose|k: int| 0 <= k < i && w@.subrange(0, i as int)[k] == c;
                assert(w@[k] == w@[i as int]);
            }
        }
        let mut pos: usize = 0;
        while pos < p.len() && p[pos] < c
            invariant
                pos <= p.len(),
                forall|k: int| 0 <= k < pos ==> p@[k] < c,
            decreases p.len() - pos,
        {
            pos = pos + 1;
        }
        if pos < p.len() {
            assert(p@[pos as int] != c);
        }
        let ghost old_p = p@;
        p.insert(pos, c);
        assert forall|a: int, b: int| 0 <= a < b < p@.len() implies p@[a] < p@[b] by {
            if b < pos {
            } else if b == pos {
            } else if a < pos {
                assert(old_p[a] < c);
                assert(c < old_p[pos as int] || pos == old_p.len());
                if (pos as int) < b - 1 {
                    assert(old_p[pos as int] < old_p[b - 1]);
                }
            } else if a == pos {
                assert(c < old_p[pos as int]);
                if (pos as int) < b - 1 {
                    assert(old_p[pos as int] < old_p[b - 1]);
                }
            } else {
                assert(old_p[a - 1] < old_p[b - 1]);
            }
        }
        assert forall|d: char| p@.contains(d) <==> w@.subrange(0, i + 1).contains(d) by {
            if p@.contains(d) {
                let k = choose|k: int| 0 <= k < p@.len() && p@[k] == d;
                if k < pos {
                    assert(old_p[k] == d);
                    assert(old_p.contains(d));
                } else if k > pos {
                    assert(old_p[k - 1] == d);
                    assert(old_p.contains(d));
                }
                if d != c {
                    let m = choose|m: int| 0 <= m < i && w@.subrange(0, i as int)[m] == d;
                    assert(w@.subrange(0, i + 1)[m] == d);
                } else {
                    assert(w@.subrange(0, i + 1)[i as int] == d);
                }
            }
            if w@.subrange(0, i + 1).contains(d) {
                let m = choose|m: int| 0 <= m < i + 1 && #[trigger] w@.subrange(0, i + 1)[m] == d;
                if m < i {
                    assert(w@.subrange(0, i as int)[m] == d);
                    assert(old_p.contains(d));
                    let k = choose|k: int| 0 <= k < old_p.len() && old_p[k] == d;
                    if k < pos {
                        assert(p@[k] == d);
                    } else {
                        assert(p@[k + 1] == d);
                    }
                } else {
                    assert(p@[pos as int] == d);
                }
            }
        }
        i = i + 1;
    }
    assert(w@.subrange(0, i as int) =~= w@);
    p
}

} // verus!
