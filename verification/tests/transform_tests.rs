use justify::process_last_line_parts;
use justify::transform;

#[test]
fn simple() {
    let test_cases = [
        ("", 5, ""),
        ("test", 5, "test "),
        ("Lorem ipsum dolor sit amet consectetur adipiscing elit sed do eiusmod tempor incididunt ut labore et dolore magna aliqua", 12,
         "Lorem  ipsum\ndolor    sit\namet        \nconsectetur \nadipiscing  \nelit  sed do\neiusmod     \ntempor      \nincididunt  \nut labore et\ndolore magna\naliqua      ")
    ];

    for &(input, output_line_len, expected) in &test_cases {
        println!("input: '{:#?}'", input.split(' ').collect::<Vec<_>>());
        let output = transform(input, output_line_len);
        println!("output: '{:#?}'", output.split('\n').collect::<Vec<_>>());
        println!(
            "expected: '{:#?}'",
            expected.split('\n').collect::<Vec<_>>()
        );
        assert_eq!(output, expected);
    }
}

const LOREM: &str = "Lorem ipsum dolor sit amet consectetur adipiscing elit sed do eiusmod tempor incididunt ut labore et dolore magna aliqua";

#[test]
fn empty_input_gives_empty_output() {
    for width in [1, 2, 5, 12, 80] {
        assert_eq!(transform("", width), "");
    }
}

#[test]
fn single_word_is_right_padded() {
    assert_eq!(transform("test", 5), "test ");
    assert_eq!(transform("aliqua", 12), "aliqua      ");
    assert_eq!(transform("abcde", 5), "abcde");
}

#[test]
fn every_line_has_exact_width() {
    for &(input, width) in &[(LOREM, 12), (LOREM, 30), ("one two three four", 7)] {
        let output = transform(input, width);
        assert!(!output.is_empty());
        for line in output.split('\n') {
            assert_eq!(line.chars().count(), width);
        }
    }
}

#[test]
fn word_order_is_preserved() {
    for &(input, width) in &[(LOREM, 12), (LOREM, 25), ("one two three four", 7)] {
        let output = transform(input, width);
        let input_words: Vec<&str> = input.split(' ').filter(|w| !w.is_empty()).collect();
        let output_words: Vec<&str> = output
            .split('\n')
            .flat_map(|line| line.split(' '))
            .filter(|w| !w.is_empty())
            .collect();
        assert_eq!(output_words, input_words);
    }
}

#[test]
fn no_word_is_split_or_altered() {
    let output = transform(LOREM, 12);
    let mut input_words = LOREM.split(' ').filter(|w| !w.is_empty());
    for line in output.split('\n') {
        for word in line.split(' ').filter(|w| !w.is_empty()) {
            assert_eq!(Some(word), input_words.next());
        }
    }
    assert_eq!(input_words.next(), None);
}

#[test]
fn greedy_packing_boundaries() {
    assert_eq!(transform("aa bb cc", 5), "aa bb\ncc   ");
    assert_eq!(transform("ab cd", 5), "ab cd");
    assert_eq!(transform("ab cd", 4), "ab  \ncd  ");
    assert_eq!(transform("abcde fg", 5), "abcde\nfg   ");
}

#[test]
fn space_distribution_is_fair_and_leftmost_first() {
    assert_eq!(transform("a b c", 8), "a   b  c");
    assert_eq!(transform("a b c d", 10), "a  b  c  d");
    let output = transform(LOREM, 12);
    for line in output.split('\n') {
        let gaps: Vec<usize> = line
            .trim_end()
            .split(|c: char| c != ' ')
            .filter(|g| !g.is_empty())
            .map(|g| g.len())
            .collect();
        for pair in gaps.windows(2) {
            assert!(pair[0] == pair[1] || pair[0] == pair[1] + 1);
        }
    }
}

#[test]
fn last_line_is_justified_not_left_aligned() {
    let output = transform(LOREM, 12);
    let last = output.split('\n').last().unwrap();
    assert_eq!(last, "aliqua      ");
    assert_eq!(last.chars().count(), 12);
}

#[test]
fn consecutive_spaces_yield_empty_words() {
    assert_eq!(transform("a  b", 5), "a   b");
}

#[test]
fn leading_space_degenerates_to_empty_output() {
    assert_eq!(transform(" a", 3), "");
}

#[test]
fn trailing_space_yields_trailing_empty_word() {
    assert_eq!(transform("ab ", 5), "ab   ");
}

#[test]
fn width_one_stacks_single_characters() {
    assert_eq!(transform("a b c", 1), "a\nb\nc");
}

#[test]
fn finalize_single_word_pads_right() {
    let parts = vec!["word"];
    assert_eq!(process_last_line_parts(&parts, 4, 9), "word     ");
}

#[test]
fn finalize_distributes_extra_spaces_leftmost() {
    let even = vec!["a", "b", "c"];
    assert_eq!(process_last_line_parts(&even, 3, 9), "a   b   c");
    let uneven = vec!["a", "b", "c"];
    assert_eq!(process_last_line_parts(&uneven, 3, 10), "a    b   c");
}
