use string_splitter::splitter::{split_all, until_char, StringSplitter};

fn chars_of(s: &str) -> Vec<char> {
    s.chars().collect()
}

fn string_of(frag: &[char]) -> String {
    frag.iter().collect()
}

fn strings_of(frags: Vec<&[char]>) -> Vec<String> {
    frags.iter().map(|f| string_of(f)).collect()
}

#[test]
fn part_2_char_split() {
    let text = chars_of("a b c d");
    let delim = chars_of(" ");
    let res = strings_of(split_all(&text, delim.as_slice()));
    assert_eq!(res, vec!["a", "b", "c", "d"]);
}

#[test]
fn part_2_word_split() {
    let text = chars_of("lazy brown fox");
    let delim = chars_of(" ");
    let res = strings_of(split_all(&text, delim.as_slice()));
    assert_eq!(res, vec!["lazy", "brown", "fox"]);
}

#[test]
fn part_2_tail_split() {
    let text = chars_of("a b c d ");
    let delim = chars_of(" ");
    let res = strings_of(split_all(&text, delim.as_slice()));
    assert_eq!(res, vec!["a", "b", "c", "d", ""]);
}

#[test]
fn part_3_char_split() {
    let text = chars_of("a b c d");
    let delim = chars_of(" ");
    let mut splitter = StringSplitter::new(&text, delim.as_slice());
    let mut res: Vec<String> = Vec::new();
    while let Some(frag) = splitter.next() {
        res.push(string_of(frag));
    }
    assert_eq!(res, vec!["a", "b", "c", "d"]);
}

#[test]
fn part_3_word_split() {
    let text = chars_of("lazy brown fox");
    let delim = chars_of(" ");
    let mut splitter = StringSplitter::new(&text, delim.as_slice());
    let mut res: Vec<String> = Vec::new();
    while let Some(frag) = splitter.next() {
        res.push(string_of(frag));
    }
    assert_eq!(res, vec!["lazy", "brown", "fox"]);
}

#[test]
fn part_3_tail_split() {
    let text = chars_of("a b c d ");
    let delim = chars_of(" ");
    let mut splitter = StringSplitter::new(&text, delim.as_slice());
    let mut res: Vec<String> = Vec::new();
    while let Some(frag) = splitter.next() {
        res.push(string_of(frag));
    }
    assert_eq!(res, vec!["a", "b", "c", "d", ""]);
}

#[test]
fn part_3_test_until_char() {
    let text = chars_of("asdfxqwer");
    assert_eq!(string_of(until_char(&text, 'x')), "asdf");
}

#[test]
fn part_4_char_split() {
    let text = chars_of("a b c d");
    let res = strings_of(split_all(&text, ' '));
    assert_eq!(res, vec!["a", "b", "c", "d"]);
}

#[test]
fn part_4_word_split() {
    let text = chars_of("lazy brown fox");
    let res = strings_of(split_all(&text, ' '));
    assert_eq!(res, vec!["lazy", "brown", "fox"]);
}

#[test]
fn part_4_tail_split() {
    let text = chars_of("a b c d ");
    let res = strings_of(split_all(&text, ' '));
    assert_eq!(res, vec!["a", "b", "c", "d", ""]);
}

#[test]
fn part_4_test_until_char() {
    let text = chars_of("asdfxqwer");
    assert_eq!(string_of(until_char(&text, 'x')), "asdf");
}

#[test]
fn empty_text_yields_one_empty_fragment() {
    let text = chars_of("");
    let delim = chars_of(" ");
    let res = strings_of(split_all(&text, delim.as_slice()));
    assert_eq!(res, vec![""]);
}

#[test]
fn adjacent_delimiters_yield_empty_fragment() {
    let text = chars_of("a,,b");
    let delim = chars_of(",");
    let res = strings_of(split_all(&text, delim.as_slice()));
    assert_eq!(res, vec!["a", "", "b"]);
}

#[test]
fn multi_character_delimiter() {
    let text = chars_of("one::two::three");
    let delim = chars_of("::");
    let res = strings_of(split_all(&text, delim.as_slice()));
    assert_eq!(res, vec!["one", "two", "three"]);
}

#[test]
fn overlapping_occurrences_are_scanned_greedily_left_to_right() {
    let text = chars_of("aaa");
    let delim = chars_of("aa");
    let res = strings_of(split_all(&text, delim.as_slice()));
    assert_eq!(res, vec!["", "a"]);
}

#[test]
fn empty_delimiter_never_matches() {
    let text = chars_of("ab");
    let delim = chars_of("");
    let res = strings_of(split_all(&text, delim.as_slice()));
    assert_eq!(res, vec!["ab"]);
}

#[test]
fn no_occurrence_yields_whole_text() {
    let text = chars_of("abc");
    let res = strings_of(split_all(&text, 'x'));
    assert_eq!(res, vec!["abc"]);
}

#[test]
fn until_char_without_occurrence_is_whole_text() {
    let text = chars_of("abc");
    assert_eq!(string_of(until_char(&text, 'x')), "abc");
}

#[test]
fn join_of_fragments_reconstructs_text() {
    let text = chars_of("x,,yz,w,");
    let delim = chars_of(",");
    let res = strings_of(split_all(&text, delim.as_slice()));
    assert_eq!(res.join(","), "x,,yz,w,");
}

#[test]
fn fragment_count_is_occurrences_plus_one() {
    // A greedy left-to-right scan finds two non-overlapping occurrences of
    // "an" in "banana", so there are three fragments.
    let text = chars_of("banana");
    let delim = chars_of("an");
    let res = strings_of(split_all(&text, delim.as_slice()));
    assert_eq!(res.len(), 3);
    assert_eq!(res, vec!["b", "", "a"]);
}

#[test]
fn exhaustion_is_permanent() {
    let text = chars_of("a b");
    let mut splitter = StringSplitter::new(&text, ' ');
    assert_eq!(string_of(splitter.next().unwrap()), "a");
    assert_eq!(string_of(splitter.next().unwrap()), "b");
    assert!(splitter.next().is_none());
    assert!(splitter.next().is_none());
    assert!(splitter.next().is_none());
}

#[test]
fn fragments_outlive_the_splitter() {
    let text = chars_of("a b");
    let first;
    {
        let mut splitter = StringSplitter::new(&text, ' ');
        first = splitter.next().unwrap();
    }
    assert_eq!(string_of(first), "a");
}
