use sqids::blocklist::{blocks, contains_digit, contains_word, is_blocked, matches_at};
use sqids::codec::position;
use sqids::encoder::{offset_of, rotate_reverse};
use sqids::sqids::{
    all_chars_in, all_distinct, filter_blocklist, holds_word, keeps, lower_chars, only_single_bytes,
};
use sqids::text::{ascii_digit, chars_of, single_byte, string_of, to_ascii_lower};
use sqids::Sqids;

fn sq() -> Sqids {
    Sqids::default(Vec::new())
}

fn cs(s: &str) -> Vec<char> {
    s.chars().collect()
}

#[test]
fn shuffle_of_the_default_alphabet() {
    let a = cs("abcdefghijklmnopqrstuvwxyzABCDEFGHIJKLMNOPQRSTUVWXYZ0123456789");
    let s = Sqids::shuffle(&a);
    assert_eq!(s, cs("fwjBhEY2uczNPDiloxmvISCrytaJO4d71T0W3qnMZbXVHg6eR8sAQ5KkpLUGF9"));
    assert_eq!(Sqids::shuffle(&a), s);
}

#[test]
fn shuffle_reorders() {
    for text in ["", "a", "ab", "abc", "abcdef", "aabbcc", "zzzz", "0123456789abcdef"] {
        let a = cs(text);
        let s = Sqids::shuffle(&a);
        assert_eq!(s.len(), a.len());
        let mut x = a.clone();
        let mut y = s.clone();
        x.sort();
        y.sort();
        assert_eq!(x, y);
    }
    assert_eq!(Sqids::shuffle(&cs("abcdef")), cs("bcadef"));
    assert_eq!(Sqids::shuffle(&cs("a")), cs("a"));
}

#[test]
fn digits_of_numbers() {
    assert_eq!(sq().to_id(0, &cs("abc")), cs("a"));
    assert_eq!(sq().to_id(13, &cs("abcd")), cs("db"));
    assert_eq!(sq().to_id(u64::MAX, &cs("01")), vec!['1'; 64]);
    assert_eq!(sq().to_number(&cs("db"), &cs("abcd")), 13);
    assert_eq!(sq().to_number(&cs("da"), &cs("abcd")), 12);
    assert_eq!(sq().to_number(&cs(""), &cs("abcd")), 0);
}

#[test]
fn reading_wraps_at_sixty_four_bits() {
    assert_eq!(sq().to_number(&vec!['1'; 65], &cs("01")), u64::MAX);
    let mut big = vec!['1'];
    big.extend(vec!['0'; 64]);
    assert_eq!(sq().to_number(&big, &cs("01")), 0);
}

#[test]
fn digits_read_back() {
    let alphabet = cs("k3G7QAe51FCsPW92uEOyq4Bg6Sp8YzVTmnU0liwDdHXLajZrfxNhobJIRcMvKt");
    for v in [0u64, 1, 61, 62, 63, 3843, 3844, 1 << 32, u64::MAX - 1, u64::MAX] {
        assert_eq!(sq().to_number(&sq().to_id(v, &alphabet), &alphabet), v);
    }
}

#[test]
fn first_positions() {
    assert_eq!(position(&cs("abca"), 'a'), 0);
    assert_eq!(position(&cs("abca"), 'c'), 2);
    assert_eq!(position(&cs("abca"), 'z'), 4);
    assert_eq!(position(&cs(""), 'z'), 0);
}

#[test]
fn offsets_and_working_alphabets() {
    let canonical = cs("fwjBhEY2uczNPDiloxmvISCrytaJO4d71T0W3qnMZbXVHg6eR8sAQ5KkpLUGF9");
    let off = offset_of(&canonical, &[1, 2, 3], 0);
    assert_eq!(canonical[off], '8');
    assert_eq!(offset_of(&canonical, &[1, 2, 3], 62), off);
    assert_eq!(offset_of(&canonical, &[1, 2, 3], 1), (off + 1) % 62);
    assert_eq!(rotate_reverse(&cs("abcde"), 0), cs("edcba"));
    assert_eq!(rotate_reverse(&cs("abcde"), 2), cs("baedc"));
    assert_eq!(rotate_reverse(&cs("abcde"), 4), cs("dcbae"));
    assert_eq!(offset_of(&cs("abc"), &[], 0), 0);
    assert_eq!(offset_of(&cs("abc"), &[0], 0), (1 + 97) % 3);
    assert_eq!(offset_of(&cs("abc"), &[4, 5], 2), ((2 + 98 + 99 + 1) % 3 + 2) % 3);
}

#[test]
fn candidates_before_the_blocklist() {
    let sqids = Sqids::new(None, Vec::new()).unwrap();
    assert_eq!(sqids.candidate_id(&[1, 2, 3], 0), cs("86Rf07"));
    assert_eq!(sqids.candidate_id(&[1, 2, 3], 1), cs("se8ojk"));
    assert_eq!(sqids.candidate_id(&[], 0), cs("f"));
}

#[test]
fn which_words_block() {
    assert!(!blocks(&cs("abcde"), &cs("abcd")));
    assert!(!blocks(&cs("abc"), &cs("xabcx")));
    assert!(blocks(&cs("abc"), &cs("abc")));
    assert!(blocks(&cs("abcd"), &cs("xabcdx")));
    assert!(!blocks(&cs("ab1d"), &cs("xab1dx")));
    assert!(blocks(&cs("ab1d"), &cs("ab1dxx")));
    assert!(blocks(&cs("ab1d"), &cs("xxab1d")));
    assert!(!blocks(&cs("abcd"), &cs("abc")));
    assert!(!blocks(&cs("abcd"), &cs("abxcd")));
    let words = vec![cs("abcd"), cs("xyz")];
    assert!(is_blocked(&cs("00abcd00"), &words));
    assert!(is_blocked(&cs("xyz"), &words));
    assert!(!is_blocked(&cs("0xyz0"), &words));
    assert!(!is_blocked(&cs("abcd"), &Vec::new()));
}

#[test]
fn words_in_identifiers() {
    assert!(matches_at(&cs("bc"), &cs("abcd"), 1));
    assert!(!matches_at(&cs("bc"), &cs("abcd"), 2));
    assert!(!matches_at(&cs("bc"), &cs("abcd"), 3));
    assert!(!matches_at(&cs("bc"), &cs("abcd"), 9));
    assert!(matches_at(&cs(""), &cs("abcd"), 4));
    assert!(contains_word(&cs("cd"), &cs("abcd")));
    assert!(contains_word(&cs(""), &cs("")));
    assert!(!contains_word(&cs("ca"), &cs("abcd")));
    assert!(contains_digit(&cs("ab0")));
    assert!(contains_digit(&cs("9ab")));
    assert!(!contains_digit(&cs("ab/:")));
}

#[test]
fn characters() {
    assert!(single_byte('a'));
    assert!(single_byte('\u{7f}'));
    assert!(!single_byte('\u{80}'));
    assert!(!single_byte('é'));
    assert_eq!(to_ascii_lower('A'), 'a');
    assert_eq!(to_ascii_lower('Z'), 'z');
    assert_eq!(to_ascii_lower('@'), '@');
    assert_eq!(to_ascii_lower('['), '[');
    assert_eq!(to_ascii_lower('q'), 'q');
    assert_eq!(to_ascii_lower('É'), 'É');
    assert!(ascii_digit('0') && ascii_digit('9'));
    assert!(!ascii_digit('/') && !ascii_digit(':') && !ascii_digit('a'));
    assert_eq!(chars_of("héllo"), cs("héllo"));
    assert_eq!(string_of(&cs("héllo")), "héllo");
    assert_eq!(string_of(&[]), "");
    assert_eq!(lower_chars(&cs("aBc9Z")), cs("abc9z"));
}

#[test]
fn alphabet_checks() {
    assert!(only_single_bytes(&cs("abc")));
    assert!(!only_single_bytes(&cs("abç")));
    assert!(all_distinct(&cs("abc")));
    assert!(all_distinct(&cs("")));
    assert!(!all_distinct(&cs("abca")));
    assert!(!all_distinct(&cs("abb")));
    assert!(all_chars_in(&cs("cab"), &cs("abc")));
    assert!(all_chars_in(&cs(""), &cs("abc")));
    assert!(!all_chars_in(&cs("cabd"), &cs("abc")));
}

#[test]
fn which_words_are_kept() {
    assert!(keeps(&cs("abc"), &cs("abcd")));
    assert!(!keeps(&cs("ab"), &cs("abcd")));
    assert!(!keeps(&cs("abe"), &cs("abcd")));
    assert!(keeps(&cs("aaaa"), &cs("a")));
}

#[test]
fn filtering_a_blocklist() {
    let words: Vec<String> =
        ["ABC", "ab", "abcx", "cAb", "\u{212a}\u{212a}\u{212a}", "abc"].iter().map(|w| w.to_string()).collect();
    let kept = filter_blocklist(&words, &cs("abck"));
    assert_eq!(kept, vec![cs("abc"), cs("cab"), cs("kkk")]);
    assert_eq!(filter_blocklist(&Vec::new(), &cs("abck")), Vec::<Vec<char>>::new());
}

#[test]
fn a_word_given_twice_counts_once() {
    let words: Vec<String> =
        ["Word", "other", "WORD", "word", "Other", "wor"].iter().map(|w| w.to_string()).collect();
    let kept = filter_blocklist(&words, &cs("abcdefghijklmnopqrstuvwxyz"));
    assert_eq!(kept, vec![cs("word"), cs("other"), cs("wor")]);
    assert!(holds_word(&kept, &cs("other")));
    assert!(holds_word(&kept, &cs("wor")));
    assert!(!holds_word(&kept, &cs("wo")));
    assert!(!holds_word(&kept, &cs("words")));
    assert!(!holds_word(&Vec::new(), &cs("word")));
}
