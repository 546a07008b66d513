use word_count::FreqTable;
use word_count::count_tokens;
use word_count::count_words;
use word_count::normalize;
use word_count::tokenize;

#[test]
fn normalize_lowercases_and_strips() {
    assert_eq!(normalize("The"), "the");
    assert_eq!(normalize("CAT!"), "cat");
    assert_eq!(normalize("sat."), "sat");
    assert_eq!(normalize("Hello,World42"), "helloworld42");
}

#[test]
fn normalize_unicode_lowercase() {
    assert_eq!(normalize("ÅBC"), "åbc");
}

#[test]
fn normalize_punctuation_only_is_empty() {
    assert_eq!(normalize("!!!"), "");
}

#[test]
fn normalize_empty_token() {
    assert_eq!(normalize(""), "");
}

#[test]
fn normalize_is_idempotent_on_normalized_words() {
    for raw in ["The", "cat42", "!!!", "MiXeD-42", "éclair"] {
        let once = normalize(raw);
        let twice = normalize(&once);
        assert_eq!(twice, once);
    }
}

#[test]
fn tokenize_splits_on_whitespace() {
    let toks = tokenize("The cat sat. The CAT sat!");
    assert_eq!(toks, vec!["The", "cat", "sat.", "The", "CAT", "sat!"]);
}

#[test]
fn tokenize_handles_mixed_whitespace() {
    let toks = tokenize("  a\t\tbb \n c  ");
    assert_eq!(toks, vec!["a", "bb", "c"]);
}

#[test]
fn tokenize_empty_and_blank() {
    assert_eq!(tokenize("").len(), 0);
    assert_eq!(tokenize(" \t\n ").len(), 0);
}

#[test]
fn freq_table_counts_increments() {
    let mut t = FreqTable::new();
    assert_eq!(t.get("a"), 0);
    t.increment(String::from("a"));
    t.increment(String::from("b"));
    t.increment(String::from("a"));
    assert_eq!(t.get("a"), 2);
    assert_eq!(t.get("b"), 1);
    assert_eq!(t.get("c"), 0);
    assert_eq!(t.len(), 2);
}

#[test]
fn freq_table_add_count_inserts_and_adds() {
    let mut t = FreqTable::new();
    t.add_count(String::from("x"), 5);
    t.add_count(String::from("x"), 7);
    t.add_count(String::from("y"), 1);
    assert_eq!(t.get("x"), 12);
    assert_eq!(t.get("y"), 1);
}

#[test]
fn freq_table_add_count_of_zero_adds_no_entry() {
    let mut t = FreqTable::new();
    t.add_count(String::from("q"), 0);
    assert_eq!(t.get("q"), 0);
    assert_eq!(t.len(), 0);
    t.increment(String::from("q"));
    t.add_count(String::from("q"), 0);
    assert_eq!(t.get("q"), 1);
    assert_eq!(t.len(), 1);
}

#[test]
fn freq_table_entries_in_first_insertion_order() {
    let mut t = FreqTable::new();
    t.increment(String::from("b"));
    t.increment(String::from("a"));
    t.increment(String::from("b"));
    let es = t.entries();
    assert_eq!(es.len(), 2);
    assert_eq!(es[0].0, "b");
    assert_eq!(es[0].1, 2);
    assert_eq!(es[1].0, "a");
    assert_eq!(es[1].1, 1);
}

#[test]
fn merge_adds_counts_per_word() {
    let mut a = FreqTable::new();
    a.increment(String::from("w"));
    a.increment(String::from("x"));
    let mut b = FreqTable::new();
    b.increment(String::from("w"));
    b.increment(String::from("y"));
    assert!(a.try_merge_from(&b));
    assert_eq!(a.get("w"), 2);
    assert_eq!(a.get("x"), 1);
    assert_eq!(a.get("y"), 1);
}

#[test]
fn merge_overflow_is_refused_and_leaves_table_unchanged() {
    let mut a = FreqTable::new();
    a.add_count(String::from("w"), u64::MAX);
    a.add_count(String::from("z"), 3);
    let mut b = FreqTable::new();
    b.add_count(String::from("w"), 1);
    assert!(!a.try_merge_from(&b));
    assert_eq!(a.get("w"), u64::MAX);
    assert_eq!(a.get("z"), 3);
    assert_eq!(b.get("w"), 1);
}

#[test]
fn scenario_the_cat_sat() {
    let text = "The cat sat. The CAT sat!";
    let toks = tokenize(text);
    let mut normed: Vec<String> = Vec::new();
    for t in &toks {
        normed.push(normalize(t));
    }
    assert_eq!(normed, vec!["the", "cat", "sat", "the", "cat", "sat"]);
    let m = count_words(text, 1);
    assert_eq!(m.get("the"), 2);
    assert_eq!(m.get("cat"), 2);
    assert_eq!(m.get("sat"), 2);
    assert_eq!(m.len(), 3);
}

#[test]
fn scenario_four_a_two_workers() {
    let toks = tokenize("a a a a");
    assert_eq!(toks.len(), 4);
    let w0 = count_tokens(&toks, 0, 2);
    assert_eq!(w0.get("a"), 2);
    assert_eq!(w0.len(), 1);
    let w1 = count_tokens(&toks, 2, 4);
    assert_eq!(w1.get("a"), 2);
    let mut master = FreqTable::new();
    assert!(master.try_merge_from(&w0));
    assert!(master.try_merge_from(&w1));
    assert_eq!(master.get("a"), 4);
    assert_eq!(count_words("a a a a", 2).get("a"), 4);
}

#[test]
fn scenario_punctuation_tokens_count_under_empty_word() {
    let m = count_words("!!! ??? ok", 1);
    assert_eq!(m.get(""), 2);
    assert_eq!(m.get("ok"), 1);
    assert_eq!(m.len(), 2);
}

#[test]
fn counts_same_for_one_and_four_workers() {
    let text = "aa Bb cc aa dd bb CC aa";
    let m1 = count_words(text, 1);
    let m4 = count_words(text, 4);
    for w in ["aa", "bb", "cc", "dd", "ee"] {
        assert_eq!(m1.get(w), m4.get(w));
    }
    assert_eq!(m1.len(), m4.len());
    assert_eq!(m1.get("aa"), 3);
    assert_eq!(m1.get("bb"), 2);
    assert_eq!(m1.get("cc"), 2);
    assert_eq!(m1.get("dd"), 1);
}

#[test]
fn remainder_tokens_are_dropped_when_not_divisible() {
    let m = count_words("a b c d e", 2);
    assert_eq!(m.get("a"), 1);
    assert_eq!(m.get("d"), 1);
    assert_eq!(m.get("e"), 0);
    assert_eq!(m.len(), 4);
}

#[test]
fn chunks_cover_all_tokens_when_divisible() {
    let toks = tokenize("w x y z");
    let w0 = count_tokens(&toks, 0, 2);
    let w1 = count_tokens(&toks, 2, 4);
    let whole = count_tokens(&toks, 0, 4);
    let mut merged = FreqTable::new();
    assert!(merged.try_merge_from(&w0));
    assert!(merged.try_merge_from(&w1));
    for w in ["w", "x", "y", "z"] {
        assert_eq!(merged.get(w), whole.get(w));
        assert_eq!(merged.get(w), 1);
    }
}
