use distinct_words::counts::{count_lookup, letter_counts};
use distinct_words::letters::{distinct_letters, distinct_words, letters_of, overlaps, profile_of};
use distinct_words::naive::find_words_naive_worker;
use distinct_words::output::{expand_group, group_line, join_words, sort_words, str_le};
use distinct_words::search::find_words_tree_worker;
use distinct_words::tree::{build_tree, Tree};

fn strings(ws: &[&str]) -> Vec<String> {
    ws.iter().map(|w| w.to_string()).collect()
}

fn run_tree(ws: &[&str], n: usize, threads: usize) -> Vec<String> {
    let words = distinct_words(&strings(ws));
    let tree = build_tree(&words);
    let fast = tree.build_fast_tree();
    let roots = fast.get_all_word_nodes();
    let mut lines = Vec::new();
    for offset in 0..threads {
        for g in find_words_tree_worker(&fast, &roots, n, offset, threads) {
            for combo in expand_group(&fast, &g) {
                lines.push(group_line(combo));
            }
        }
    }
    lines
}

fn run_naive(ws: &[&str], n: usize, threads: usize) -> Vec<String> {
    let words = distinct_words(&strings(ws));
    let mut lines = Vec::new();
    for offset in 0..threads {
        for g in find_words_naive_worker(&words, n, offset, threads) {
            let combo: Vec<String> = g.iter().map(|&i| words[i].clone()).collect();
            lines.push(group_line(combo));
        }
    }
    lines
}

fn sorted(mut v: Vec<String>) -> Vec<String> {
    v.sort();
    v
}

#[test]
fn four_words_pairs() {
    let ws = ["abc", "def", "ghi", "adg"];
    let tree = sorted(run_tree(&ws, 2, 1));
    assert_eq!(tree, vec!["abc, def", "abc, ghi", "def, ghi"]);
    let naive = sorted(run_naive(&ws, 2, 1));
    assert_eq!(naive, vec!["abc, def", "abc, ghi", "def, ghi"]);
}

#[test]
fn single_word_no_pair() {
    assert!(run_tree(&["xyz"], 2, 1).is_empty());
    assert!(run_naive(&["xyz"], 2, 1).is_empty());
}

#[test]
fn anagrams_singletons() {
    let lines = sorted(run_tree(&["ab", "ba"], 1, 1));
    assert_eq!(lines, vec!["ab", "ba"]);
    let words = distinct_words(&strings(&["ab", "ba"]));
    let fast = build_tree(&words).build_fast_tree();
    let roots = fast.get_all_word_nodes();
    assert_eq!(roots.len(), 1);
    assert_eq!(fast.words(roots[0]), &["ab".to_string(), "ba".to_string()][..]);
}

#[test]
fn strategies_agree() {
    let ws = ["abc", "def", "ghi", "adg", "bei", "cfh", "jk", "kj", "xyz", "aa", "gh", "ij", "q"];
    for n in 1..5 {
        for threads in 1..4 {
            assert_eq!(sorted(run_tree(&ws, n, threads)), sorted(run_naive(&ws, n, 1)));
        }
    }
}

#[test]
fn no_duplicate_lines_across_workers() {
    let ws = ["ab", "cd", "ef", "gh", "ac", "bd", "eg", "fh", "ba", "z"];
    for threads in 1..5 {
        let lines = sorted(run_tree(&ws, 3, threads));
        let mut dedup = lines.clone();
        dedup.dedup();
        assert_eq!(lines, dedup);
        assert!(!lines.is_empty());
    }
}

#[test]
fn rerun_gives_same_lines() {
    let ws = ["abc", "def", "ghi", "adg", "bei", "cfh"];
    assert_eq!(run_tree(&ws, 2, 3), run_tree(&ws, 2, 3));
    assert_eq!(run_naive(&ws, 2, 3), run_naive(&ws, 2, 3));
}

#[test]
fn groups_are_disjoint_and_sized() {
    let ws = ["abc", "def", "ghi", "adg", "bei", "cfh", "jkl", "mno"];
    for line in run_tree(&ws, 3, 2) {
        let parts: Vec<&str> = line.split(", ").collect();
        assert_eq!(parts.len(), 3);
        for i in 0..parts.len() {
            for j in i + 1..parts.len() {
                assert!(!overlaps(parts[i], parts[j]));
                assert_ne!(parts[i], parts[j]);
            }
        }
    }
}

#[test]
fn one_member_per_word_node() {
    let ws = ["abc", "cba", "de", "f"];
    let words = distinct_words(&strings(&ws));
    let fast = build_tree(&words).build_fast_tree();
    let roots = fast.get_all_word_nodes();
    assert_eq!(roots.len(), 3);
    let groups = find_words_tree_worker(&fast, &roots, 1, 0, 1);
    assert_eq!(groups.len(), 3);
    for (g, r) in groups.iter().zip(roots.iter()) {
        assert_eq!(g, &vec![*r]);
    }
}

#[test]
fn too_large_group_is_empty() {
    let ws = ["ab", "cd", "ef"];
    assert!(run_tree(&ws, 4, 1).is_empty());
    assert!(run_naive(&ws, 4, 2).is_empty());
    assert_eq!(run_tree(&ws, 3, 1), vec!["ab, cd, ef"]);
}

#[test]
fn zero_size_gives_one_empty_group_per_root() {
    let words = strings(&["ab", "cd"]);
    assert_eq!(find_words_naive_worker(&words, 0, 0, 1), vec![Vec::<usize>::new(), Vec::new()]);
    let fast = build_tree(&words).build_fast_tree();
    let roots = fast.get_all_word_nodes();
    assert_eq!(find_words_tree_worker(&fast, &roots, 0, 0, 1).len(), 2);
}

#[test]
fn distinct_letters_cases() {
    assert!(distinct_letters("abc"));
    assert!(distinct_letters(""));
    assert!(!distinct_letters("abca"));
    assert!(!distinct_letters("aa"));
    assert_eq!(distinct_words(&strings(&["ab", "aa", "xyz", "hello"])), strings(&["ab", "xyz"]));
    assert_eq!(distinct_words(&strings(&["", "ab", ""])), strings(&["ab"]));
}

#[test]
fn overlaps_cases() {
    assert!(overlaps("abc", "cde"));
    assert!(!overlaps("abc", "def"));
    assert!(!overlaps("", "abc"));
}

#[test]
fn letters_and_profile() {
    assert_eq!(letters_of("héllo"), vec!['h', 'é', 'l', 'l', 'o']);
    assert_eq!(profile_of(&vec!['d', 'a', 'c', 'b']), vec!['a', 'b', 'c', 'd']);
    assert_eq!(profile_of(&vec![]), Vec::<char>::new());
}

#[test]
fn counting_letters() {
    let t = letter_counts(&strings(&["abc", "bcd", "cde"]));
    assert_eq!(count_lookup(&t, 'a'), 1);
    assert_eq!(count_lookup(&t, 'b'), 2);
    assert_eq!(count_lookup(&t, 'c'), 3);
    assert_eq!(count_lookup(&t, 'e'), 1);
    assert_eq!(count_lookup(&t, 'z'), 0);
}

#[test]
fn trie_insert_and_all_words() {
    let mut t = Tree::new();
    assert!(t.all_words().is_empty());
    t.insert("ba".to_string());
    t.insert("c".to_string());
    t.insert("ab".to_string());
    let mut all = t.all_words();
    all.sort();
    assert_eq!(all, strings(&["ab", "ba", "c"]));
}

#[test]
fn ranked_children_rarest_first() {
    // 'a' occurs three times, 'b' twice, 'c' once.
    let words = strings(&["a", "ab", "abc"]);
    let fast = build_tree(&words).build_fast_tree();
    let letters: Vec<char> = fast.childs(0).iter().map(|e| e.0).collect();
    assert_eq!(letters, vec!['a']);
    let words = strings(&["a", "ba", "cb", "b", "c", "ca"]);
    // a: 3, b: 3, c: 3 -> ties broken by letter
    let fast = build_tree(&words).build_fast_tree();
    let letters: Vec<char> = fast.childs(0).iter().map(|e| e.0).collect();
    assert_eq!(letters, vec!['a', 'b', 'c']);
    let words = strings(&["x", "xy", "yz", "y"]);
    // x: 2, y: 3, z: 1
    let fast = build_tree(&words).build_fast_tree();
    let letters: Vec<char> = fast.childs(0).iter().map(|e| e.0).collect();
    assert_eq!(letters, vec!['x', 'y']);
    let (_, xnode) = fast.childs(0)[0];
    assert_eq!(fast.chars(xnode), &['x'][..]);
}

#[test]
fn layout_and_word_nodes() {
    let words = strings(&["ab", "b"]);
    let fast = build_tree(&words).build_fast_tree();
    assert_eq!(fast.len(), 4);
    assert!(fast.chars(0).is_empty());
    let roots = fast.get_all_word_nodes();
    let paths: Vec<Vec<char>> = roots.iter().map(|&r| fast.chars(r).to_vec()).collect();
    // a: 1, b: 2 -> 'a' first; the arena holds a, ab, then b.
    assert_eq!(paths, vec![vec!['a', 'b'], vec!['b']]);
}

#[test]
fn line_formatting() {
    let mut v = strings(&["pear", "apple", "fig", "app"]);
    sort_words(&mut v);
    assert_eq!(v, strings(&["app", "apple", "fig", "pear"]));
    assert_eq!(join_words(&v), "app, apple, fig, pear");
    assert_eq!(join_words(&Vec::new()), "");
    assert_eq!(group_line(strings(&["def", "abc"])), "abc, def");
    assert!(str_le("ab", "abc"));
    assert!(!str_le("b", "abc"));
    assert!(str_le("", ""));
}

#[test]
fn expansion_is_cartesian() {
    let words = strings(&["ab", "ba", "cd", "dc", "e"]);
    let fast = build_tree(&words).build_fast_tree();
    let roots = fast.get_all_word_nodes();
    let ab = roots.iter().copied().find(|&r| fast.chars(r) == &['a', 'b'][..]).unwrap();
    let cd = roots.iter().copied().find(|&r| fast.chars(r) == &['c', 'd'][..]).unwrap();
    let combos = expand_group(&fast, &vec![ab, cd]);
    assert_eq!(
        combos,
        vec![
            strings(&["ab", "cd"]),
            strings(&["ab", "dc"]),
            strings(&["ba", "cd"]),
            strings(&["ba", "dc"]),
        ]
    );
    assert_eq!(expand_group(&fast, &vec![]), vec![Vec::<String>::new()]);
}

#[test]
fn empty_word_never_joins_a_group() {
    let ws = ["", "ab", "cd", ""];
    assert_eq!(sorted(run_tree(&ws, 2, 2)), vec!["ab, cd"]);
    assert_eq!(sorted(run_naive(&ws, 2, 2)), vec!["ab, cd"]);
    assert_eq!(sorted(run_tree(&ws, 1, 1)), vec!["ab", "cd"]);
}

#[test]
fn every_ranked_node_keeps_its_children() {
    let words = strings(&["abc", "abd", "ab", "b", "bc"]);
    let fast = build_tree(&words).build_fast_tree();
    let mut paths: Vec<Vec<char>> = (0..fast.len()).map(|i| fast.chars(i).to_vec()).collect();
    paths.sort();
    let mut dedup = paths.clone();
    dedup.dedup();
    assert_eq!(paths, dedup);
    assert_eq!(paths.len(), 7);
    for i in 0..fast.len() {
        for &(c, j) in fast.childs(i) {
            let mut p = fast.chars(i).to_vec();
            p.push(c);
            assert_eq!(fast.chars(j), &p[..]);
        }
    }
}
