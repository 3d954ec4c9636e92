use sqids::{blocklist_from_json, Error, Options, Sqids};

fn bundled() -> Vec<String> {
    ["w0rd", "blocked", "zzz", "Sample"].iter().map(|w| w.to_string()).collect()
}

fn default_sqids() -> Sqids {
    Sqids::new(None, bundled()).unwrap()
}

fn with(alphabet: Option<&str>, min_length: Option<u8>, blocklist: Option<Vec<&str>>) -> Sqids {
    let words = blocklist.map(|b| b.into_iter().map(|w| w.to_string()).collect::<Vec<String>>());
    Sqids::new(Some(Options::new(alphabet.map(|a| a.to_string()), min_length, words, bundled())), bundled())
        .unwrap()
}

#[test]
fn encode_of_nothing_is_empty() {
    assert_eq!(default_sqids().encode(&[]), Ok(String::new()));
}

#[test]
fn decode_of_empty_is_nothing() {
    assert_eq!(default_sqids().decode(""), Vec::<u64>::new());
}

#[test]
fn one_two_three() {
    let sqids = default_sqids();
    assert_eq!(sqids.encode(&[1, 2, 3]), Ok("86Rf07".to_string()));
    assert_eq!(sqids.decode("86Rf07"), vec![1, 2, 3]);
}

#[test]
fn decode_rejects_unknown_character() {
    let sqids = default_sqids();
    assert_eq!(sqids.decode("*"), Vec::<u64>::new());
    assert_eq!(sqids.decode("86Rf07*"), Vec::<u64>::new());
    assert_eq!(sqids.decode("86*f07"), Vec::<u64>::new());
}

#[test]
fn single_numbers() {
    let sqids = default_sqids();
    assert_eq!(sqids.encode(&[0]), Ok("bM".to_string()));
    assert_eq!(sqids.encode(&[1]), Ok("Uk".to_string()));
    assert_eq!(sqids.decode("bM"), vec![0]);
    assert_eq!(sqids.decode("Uk"), vec![1]);
}

#[test]
fn pairs() {
    let sqids = default_sqids();
    assert_eq!(sqids.encode(&[0, 0]), Ok("SvIz".to_string()));
    assert_eq!(sqids.encode(&[0, 1]), Ok("n3qa".to_string()));
    assert_eq!(sqids.decode("SvIz"), vec![0, 0]);
    assert_eq!(sqids.decode("n3qa"), vec![0, 1]);
}

#[test]
fn largest_number() {
    let sqids = default_sqids();
    assert_eq!(sqids.encode(&[u64::MAX]), Ok("eIkvoXH40Lmd".to_string()));
    assert_eq!(sqids.decode("eIkvoXH40Lmd"), vec![u64::MAX]);
}

#[test]
fn round_trip_of_many_numbers() {
    let sqids = default_sqids();
    let numbers: Vec<u64> = vec![0, 0, 0, 1, 2, 3, 100, 1000, 100000, 1000000, u64::MAX];
    let id = sqids.encode(&numbers).unwrap();
    assert_eq!(id, "n3qPfOPArHM8c7Owzr8wTa129asK9oB1aRuT4bv");
    assert_eq!(sqids.decode(&id), numbers);
}

#[test]
fn round_trip_under_every_least_length() {
    for min_length in 0..=255u8 {
        let sqids = with(None, Some(min_length), None);
        for numbers in [vec![0u64], vec![1, 2, 3], vec![u64::MAX, 0, 7], vec![5; 40]] {
            let id = sqids.encode(&numbers).unwrap();
            assert!(id.chars().count() >= min_length as usize);
            assert_eq!(sqids.decode(&id), numbers);
        }
    }
}

#[test]
fn least_length_fills_with_padding() {
    assert_eq!(with(None, Some(6), None).encode(&[1, 2, 3]), Ok("86Rf07".to_string()));
    assert_eq!(with(None, Some(7), None).encode(&[1, 2, 3]), Ok("86Rf07x".to_string()));
    assert_eq!(with(None, Some(10), None).encode(&[1, 2, 3]), Ok("86Rf07xd4z".to_string()));
    assert_eq!(with(None, Some(13), None).encode(&[1, 2, 3]), Ok("86Rf07xd4zBmi".to_string()));
    assert_eq!(with(None, Some(10), None).encode(&[0]), Ok("bMZn4Y5Fq8".to_string()));
    assert_eq!(with(None, Some(10), None).decode("86Rf07xd4z"), vec![1, 2, 3]);
    let long = with(None, Some(255), None).encode(&[1, 2, 3]).unwrap();
    assert_eq!(long.len(), 255);
    assert!(long.starts_with("86Rf07xd4zBmiJXQG6otHEbew02c3PWsUOLZxADhCpKj7aVFv9I8RquYrNlSTMyf15kngGjqB9"));
}

#[test]
fn short_alphabet_is_refused() {
    let r = Sqids::new(Some(Options::new(Some("ab".to_string()), None, None, bundled())), bundled());
    assert_eq!(r.err(), Some(Error::AlphabetLength));
    let r = Sqids::new(Some(Options::new(Some(String::new()), None, None, bundled())), bundled());
    assert_eq!(r.err(), Some(Error::AlphabetLength));
}

#[test]
fn repeated_character_is_refused() {
    let r = Sqids::new(Some(Options::new(Some("aabc".to_string()), None, None, bundled())), bundled());
    assert_eq!(r.err(), Some(Error::AlphabetUniqueCharacters));
}

#[test]
fn multibyte_character_is_refused() {
    let r = Sqids::new(Some(Options::new(Some("ë1092".to_string()), None, None, bundled())), bundled());
    assert_eq!(r.err(), Some(Error::AlphabetMultibyteCharacters));
    let r = Sqids::new(Some(Options::new(Some("é".to_string()), None, None, bundled())), bundled());
    assert_eq!(r.err(), Some(Error::AlphabetMultibyteCharacters));
}

#[test]
fn custom_alphabets() {
    let hex = with(Some("0123456789abcdef"), None, None);
    assert_eq!(hex.encode(&[1, 2, 3]), Ok("489158".to_string()));
    assert_eq!(hex.decode("489158"), vec![1, 2, 3]);
    let tiny = with(Some("abc"), None, None);
    assert_eq!(tiny.encode(&[0]), Ok("ca".to_string()));
    assert_eq!(tiny.encode(&[1, 2, 3]), Ok("aacacbaa".to_string()));
    assert_eq!(tiny.decode("aacacbaa"), vec![1, 2, 3]);
}

#[test]
fn blocked_identifier_is_made_again() {
    let sqids = with(None, None, Some(vec!["86Rf07"]));
    assert_eq!(sqids.encode(&[1, 2, 3]), Ok("se8ojk".to_string()));
    assert_eq!(sqids.decode("se8ojk"), vec![1, 2, 3]);
    assert_eq!(sqids.decode("86Rf07"), vec![1, 2, 3]);
}

#[test]
fn blocklist_words_are_put_in_lower_case() {
    let sqids = with(None, None, Some(vec!["86RF07", "se8ojk"]));
    assert_eq!(sqids.encode(&[1, 2, 3]), Ok("ARsz1p".to_string()));
    assert_eq!(sqids.decode("ARsz1p"), vec![1, 2, 3]);
    assert!(sqids.is_blocked_id("86Rf07"));
    assert!(sqids.is_blocked_id("SE8OJK"));
    assert!(!sqids.is_blocked_id("ARsz1p"));
}

#[test]
fn words_outside_the_alphabet_are_dropped() {
    let sqids = with(Some("0123456789abcdef"), None, Some(vec!["489158", "48915z", "ab"]));
    assert!(sqids.is_blocked_id("489158"));
    assert!(!sqids.is_blocked_id("48915z"));
    assert!(!sqids.is_blocked_id("ab"));
    assert_eq!(sqids.decode("489158"), vec![1, 2, 3]);
    assert_ne!(sqids.encode(&[1, 2, 3]), Ok("489158".to_string()));
}

#[test]
fn every_attempt_blocked() {
    let sqids = with(Some("abc"), Some(3), Some(vec!["cab", "abc", "bca"]));
    assert_eq!(sqids.encode(&[0]), Err(Error::BlocklistMaxAttempts));
    assert_eq!(sqids.encode_numbers(&[0], 4), Err(Error::BlocklistMaxAttempts));
}

#[test]
fn later_attempts_start_elsewhere() {
    let sqids = default_sqids();
    assert_eq!(sqids.encode_numbers(&[1, 2, 3], 0), Ok("86Rf07".to_string()));
    assert_eq!(sqids.encode_numbers(&[1, 2, 3], 1), Ok("se8ojk".to_string()));
    assert_eq!(sqids.encode_numbers(&[1, 2, 3], 2), Ok("ARsz1p".to_string()));
    assert_eq!(sqids.encode_numbers(&[1, 2, 3], 62), Ok("86Rf07".to_string()));
    assert_eq!(sqids.encode_numbers(&[1, 2, 3], 63), Err(Error::BlocklistMaxAttempts));
}

#[test]
fn broken_identifiers_give_what_was_read() {
    let sqids = default_sqids();
    assert_eq!(sqids.decode("8"), Vec::<u64>::new());
    assert_eq!(sqids.decode("86"), vec![1]);
    assert_eq!(sqids.decode("86R"), vec![1]);
    assert_eq!(sqids.decode("86RR"), vec![1, 14]);
    assert_eq!(sqids.decode("8R6"), Vec::<u64>::new());
}

#[test]
fn same_call_same_result() {
    let a = default_sqids();
    let b = default_sqids();
    for numbers in [vec![1u64, 2, 3], vec![0], vec![9, 9, 9, 9]] {
        let first = a.encode(&numbers).unwrap();
        assert_eq!(a.encode(&numbers).unwrap(), first);
        assert_eq!(b.encode(&numbers).unwrap(), first);
        assert_eq!(a.decode(&first), b.decode(&first));
    }
}

#[test]
fn default_encoder() {
    let sqids = Sqids::default(bundled());
    assert_eq!(sqids.encode(&[1, 2, 3]), Ok("86Rf07".to_string()));
    assert_eq!(sqids.decode("86Rf07"), vec![1, 2, 3]);
    assert!(!sqids.is_blocked_id("86Rf07"));
    assert!(sqids.is_blocked_id("w0rd"));
    assert!(sqids.is_blocked_id("xxBlockedxx"));
    assert!(sqids.is_blocked_id("SAMPLE"));
    assert!(sqids.is_blocked_id("zzz"));
    assert!(!sqids.is_blocked_id("zzzz"));
}

#[test]
fn default_encoder_uses_the_bundled_words() {
    let words = vec!["86Rf07".to_string()];
    let sqids = Sqids::default(words.clone());
    assert!(sqids.is_blocked_id("86Rf07"));
    assert_eq!(sqids.encode(&[1, 2, 3]), Ok("se8ojk".to_string()));
    assert_eq!(sqids.decode("se8ojk"), vec![1, 2, 3]);
    let sqids = Sqids::new(None, words).unwrap();
    assert_eq!(sqids.encode(&[1, 2, 3]), Ok("se8ojk".to_string()));
    let sqids = Sqids::new(None, Vec::new()).unwrap();
    assert_eq!(sqids.encode(&[1, 2, 3]), Ok("86Rf07".to_string()));
}

#[test]
fn given_options_set_the_bundled_words_aside() {
    let words = vec!["86Rf07".to_string()];
    let none = Options::new(None, None, Some(Vec::new()), words.clone());
    assert!(none.blocklist.is_empty());
    let sqids = Sqids::new(Some(none), words.clone()).unwrap();
    assert!(!sqids.is_blocked_id("86Rf07"));
    assert_eq!(sqids.encode(&[1, 2, 3]), Ok("86Rf07".to_string()));
    let kept = Options::new(None, Some(0), None, words.clone());
    assert_eq!(kept.blocklist, words);
    let sqids = Sqids::new(Some(kept), Vec::new()).unwrap();
    assert_eq!(sqids.encode(&[1, 2, 3]), Ok("se8ojk".to_string()));
}

#[test]
fn options_take_what_is_given() {
    let o = Options::new(None, None, None, bundled());
    assert_eq!(o.alphabet, "abcdefghijklmnopqrstuvwxyzABCDEFGHIJKLMNOPQRSTUVWXYZ0123456789");
    assert_eq!(o.min_length, 0);
    assert_eq!(o.blocklist, bundled());
    let d = Options::default(bundled());
    assert_eq!(d.alphabet, o.alphabet);
    assert_eq!(d.min_length, 0);
    assert_eq!(d.blocklist, bundled());
    let o = Options::new(Some("xyz".to_string()), Some(9), Some(vec!["word".to_string()]), bundled());
    assert_eq!(o.alphabet, "xyz");
    assert_eq!(o.min_length, 9);
    assert_eq!(o.blocklist, vec!["word".to_string()]);
    let o = Options::new(Some("xyz".to_string()), None, None, bundled());
    assert_eq!(o.alphabet, "xyz");
    assert_eq!(o.min_length, 0);
    assert_eq!(o.blocklist, bundled());
    let o = Options::new(None, Some(7), Some(Vec::new()), bundled());
    assert_eq!(o.alphabet, d.alphabet);
    assert_eq!(o.min_length, 7);
    assert!(o.blocklist.is_empty());
}

#[test]
fn error_messages() {
    assert_eq!(
        Error::AlphabetMultibyteCharacters.message(),
        "Alphabet cannot contain multibyte characters"
    );
    assert_eq!(Error::AlphabetLength.message(), "Alphabet length must be at least 3");
    assert_eq!(Error::AlphabetUniqueCharacters.message(), "Alphabet must contain unique characters");
    assert_eq!(Error::BlocklistMaxAttempts.message(), "Reached max attempts to re-generate the ID");
}

#[test]
fn blocklist_from_json_text() {
    let words = blocklist_from_json("[\"86Rf07\", \"se8ojk\"]").unwrap();
    assert_eq!(words, vec!["86Rf07".to_string(), "se8ojk".to_string()]);
    assert_eq!(blocklist_from_json("[]"), Some(Vec::new()));
    assert_eq!(blocklist_from_json("{\"a\": 1}"), None);
    assert_eq!(blocklist_from_json("[1, 2]"), None);
    assert_eq!(blocklist_from_json("not json"), None);
    let sqids = Sqids::new(Some(Options::new(None, None, Some(words), Vec::new())), Vec::new()).unwrap();
    assert_eq!(sqids.encode(&[1, 2, 3]), Ok("ARsz1p".to_string()));
}
