use afsort::AFSortable;
use afsort::FALLBACK_THRESHOLD;

#[test]
fn sorts_three_strings() {
    let mut strings = vec!["c", "a", "b"];
    strings.af_sort_unstable();
    assert_eq!(strings, vec!["a", "b", "c"]);
}

#[test]
fn prefix_key_sorts_first() {
    let mut strings = vec!["b", "aa", "a"];
    strings.af_sort_unstable();
    assert_eq!(strings, vec!["a", "aa", "b"]);
}

#[test]
fn duplicates_are_preserved() {
    let mut nums: Vec<u16> = vec![0x0502, 0x0001, 0x0502];
    nums.af_sort_unstable();
    assert_eq!(nums, vec![0x0001, 0x0502, 0x0502]);
}

#[test]
fn tuples_sort_by_projection() {
    let mut tuples = vec![("b", 2), ("a", 1)];
    afsort::sort_unstable_by(&mut tuples, |t: &(&str, i32)| &t.0);
    assert_eq!(tuples, vec![("a", 1), ("b", 2)]);
}

/// A small deterministic generator, enough to make varied lowercase words.
fn next_state(state: &mut u64) -> u64 {
    *state = state.wrapping_mul(6364136223846793005).wrapping_add(1442695040888963407);
    *state >> 33
}

fn random_word(state: &mut u64) -> String {
    let len = (next_state(state) % 12) as usize;
    let mut word = String::new();
    for _ in 0..len {
        let c = b'a' + (next_state(state) % 26) as u8;
        word.push(c as char);
    }
    word
}

#[test]
fn ten_thousand_words_match_comparison_sort() {
    let mut state: u64 = 42;
    let mut words: Vec<String> = Vec::new();
    for _ in 0..10000 {
        words.push(random_word(&mut state));
    }
    let mut copy = words.clone();
    copy.sort_unstable();
    words.af_sort_unstable();
    assert_eq!(words, copy);
}

#[test]
fn empty_and_singleton_unchanged() {
    let mut empty: Vec<u32> = vec![];
    empty.af_sort_unstable();
    assert_eq!(empty, Vec::<u32>::new());

    let mut one = vec![String::from("only")];
    one.af_sort_unstable();
    assert_eq!(one, vec![String::from("only")]);
}

#[test]
fn fallback_threshold_boundary() {
    assert_eq!(FALLBACK_THRESHOLD, 32);

    // exactly at the threshold: the comparison-sort path
    let mut state: u64 = 7;
    let mut at: Vec<u64> = Vec::new();
    for _ in 0..FALLBACK_THRESHOLD {
        at.push(next_state(&mut state));
    }
    let mut copy = at.clone();
    copy.sort_unstable();
    at.af_sort_unstable();
    assert_eq!(at, copy);

    // one past the threshold: at least one partition level
    let mut past: Vec<u64> = Vec::new();
    for _ in 0..(FALLBACK_THRESHOLD + 1) {
        past.push(next_state(&mut state));
    }
    let mut copy2 = past.clone();
    copy2.sort_unstable();
    past.af_sort_unstable();
    assert_eq!(past, copy2);
}

#[test]
fn sorting_twice_changes_nothing() {
    let mut state: u64 = 3;
    let mut nums: Vec<u32> = Vec::new();
    for _ in 0..200 {
        nums.push(next_state(&mut state) as u32);
    }
    nums.af_sort_unstable();
    let once = nums.clone();
    nums.af_sort_unstable();
    assert_eq!(nums, once);

    let mut words: Vec<String> = Vec::new();
    for _ in 0..100 {
        words.push(random_word(&mut state));
    }
    words.af_sort_unstable();
    let sorted_words = words.clone();
    words.af_sort_unstable();
    assert_eq!(words, sorted_words);
}

#[test]
fn sorts_byte_buffers() {
    let mut bufs: Vec<Vec<u8>> = vec![vec![2, 1], vec![], vec![2], vec![0, 255], vec![2, 0]];
    bufs.af_sort_unstable();
    assert_eq!(bufs, vec![vec![], vec![0, 255], vec![2], vec![2, 0], vec![2, 1]]);
}

#[test]
fn sort_by_digit_with_custom_extraction() {
    // sort unsigned numbers by the big-endian bytes of their value, handed
    // to the engine one digit at a time, with a comparison sort of the
    // caller's own as the terminal sorter
    let mut nums: Vec<u32> = vec![70000, 3, 70001, 256, 3];
    afsort::sort_unstable_by_digit(
        &mut nums,
        |t: &u32, d: usize| {
            if d < 4 {
                Some((*t >> (8 * (3 - d as u32))) as u8)
            } else {
                None
            }
        },
        |mut x: Vec<u32>, a: usize, b: usize| {
            x[a..b].sort_unstable();
            x
        },
    );
    assert_eq!(nums, vec![3, 3, 256, 70000, 70001]);
}

#[test]
fn sort_by_digit_on_large_input() {
    let mut state: u64 = 23;
    let mut nums: Vec<u32> = Vec::new();
    for _ in 0..2000 {
        nums.push(next_state(&mut state) as u32);
    }
    let mut copy = nums.clone();
    copy.sort_unstable();
    afsort::sort_unstable_by_digit(
        &mut nums,
        |t: &u32, d: usize| {
            if d < 4 {
                Some((*t >> (8 * (3 - d as u32))) as u8)
            } else {
                None
            }
        },
        |mut x: Vec<u32>, a: usize, b: usize| {
            x[a..b].sort_unstable();
            x
        },
    );
    assert_eq!(nums, copy);
}

#[test]
fn large_input_with_many_duplicates() {
    let mut state: u64 = 11;
    let mut nums: Vec<u8> = Vec::new();
    for _ in 0..5000 {
        nums.push((next_state(&mut state) % 7) as u8);
    }
    let mut copy = nums.clone();
    copy.sort_unstable();
    nums.af_sort_unstable();
    assert_eq!(nums, copy);
}
