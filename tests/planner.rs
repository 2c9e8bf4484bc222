use kokoros::planner::ChunkPlanner;
use kokoros::text::is_space;

/// Drives the planner, counting one token per character.
fn plan(text: &str, budget: usize) -> Vec<String> {
    let mut p = ChunkPlanner::new(text, budget);
    while let Some(q) = p.pending() {
        p.feed(q.chars().count());
    }
    p.chunks()
}

fn words(s: &str) -> Vec<String> {
    s.split(|c: char| c.is_whitespace() || c == '.' || c == '?' || c == '!' || c == ';')
        .filter(|w| !w.is_empty())
        .map(|w| w.to_string())
        .collect()
}

#[test]
fn empty_text_gives_no_chunks() {
    assert!(plan("", 10).is_empty());
    assert!(plan("  . ;  ", 10).is_empty());
    let p = ChunkPlanner::new("", 10);
    assert!(p.pending().is_none());
}

#[test]
fn two_sentences_split_under_small_budget() {
    assert_eq!(
        plan("Hello world. This is a test.", 20),
        vec!["Hello world.".to_string(), "This is a test.".to_string()]
    );
}

#[test]
fn two_sentences_join_under_large_budget() {
    assert_eq!(
        plan("Hello world. This is a test.", 500),
        vec!["Hello world. This is a test.".to_string()]
    );
}

#[test]
fn terminators_become_full_stops() {
    assert_eq!(plan("Why? Yes! a;b", 500), vec!["Why. Yes. a. b.".to_string()]);
}

#[test]
fn first_query_is_the_first_sentence() {
    let p = ChunkPlanner::new("  Hello   world ! Next", 50);
    assert_eq!(p.pending(), Some("Hello   world.".to_string()));
}

#[test]
fn long_sentence_packs_words() {
    assert_eq!(
        plan("aaa bbb ccc ddd", 8),
        vec!["aaa bbb".to_string(), "ccc ddd.".to_string()]
    );
}

#[test]
fn oversized_word_stands_alone() {
    assert_eq!(
        plan("ab abcdefghijkl cd", 5),
        vec!["ab".to_string(), "abcdefghijkl".to_string(), "cd.".to_string()]
    );
}

#[test]
fn words_are_kept_in_order() {
    let text = "One two three. Four five six seven eight nine ten! Eleven; twelve?";
    for budget in [0usize, 3, 5, 10, 20, 40, 500] {
        let chunks = plan(text, budget);
        let joined: Vec<String> = chunks.iter().flat_map(|c| words(c)).collect();
        assert_eq!(joined, words(text), "budget {budget}");
    }
}

#[test]
fn oversized_sentence_closes_the_open_chunk_first() {
    assert_eq!(
        plan("Hi. aaaa bbbb cccc. Yo.", 10),
        vec!["Hi.".to_string(), "aaaa bbbb".to_string(), "cccc.".to_string(), "Yo.".to_string()]
    );
}

#[test]
fn counts_that_exceed_keep_chunk_order() {
    let mut p = ChunkPlanner::new("A. B C.", 8);
    for n in [4usize, 9, 4, 9] {
        assert!(p.pending().is_some());
        p.feed(n);
    }
    assert_eq!(p.pending(), None);
    assert_eq!(p.chunks(), vec!["A.".to_string(), "B".to_string(), "C.".to_string()]);
}

#[test]
fn chunks_fit_budget_or_are_single_words() {
    let text = "A fairly long sentence with many words in it. Short one. Supercalifragilistic.";
    for budget in [5usize, 12, 30] {
        for c in plan(text, budget) {
            assert!(c.chars().count() <= budget || !c.contains(' '), "{c}");
            assert!(!c.is_empty());
        }
    }
}

#[test]
fn white_space_matches_std() {
    for u in 0u32..0x3100 {
        if let Some(c) = char::from_u32(u) {
            assert_eq!(is_space(c), c.is_whitespace(), "{:x}", u);
        }
    }
}

#[test]
fn feed_follows_counts_exactly() {
    let mut p = ChunkPlanner::new("One. Two.", 10);
    assert_eq!(p.pending(), Some("One.".to_string()));
    p.feed(4);
    assert_eq!(p.pending(), Some("Two.".to_string()));
    p.feed(4);
    assert_eq!(p.pending(), Some("One. Two.".to_string()));
    p.feed(11);
    assert_eq!(p.pending(), None);
    assert_eq!(p.chunks(), vec!["One.".to_string(), "Two.".to_string()]);
}
