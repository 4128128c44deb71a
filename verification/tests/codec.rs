use niceware::bytes_to_pass_phrase;
use niceware::generate_passphrase;
use niceware::passphrase_to_bytes;
use niceware::Dictionary;
use niceware::Error;

/// Deterministic word list for the tests: exactly 65,536 ASCII lowercase
/// words in strictly ascending order. A handful of real words are pinned at
/// the indices the tests rely on; every slot in between holds the previous
/// pinned word extended by `'a'` and a four-letter counter over `'b'..='z'`,
/// which keeps the whole list strictly sorted. Slot 1 holds a word of the
/// maximum length so that the length bound is tight.
fn build_words() -> Vec<String> {
    let pins: &[(usize, &str)] = &[
        (0, "a"),
        (3212, "balloted"),
        (4564, "bioengineering"),
        (11859, "creneled"),
        (13993, "depriving"),
        (23286, "gobbled"),
        (40000, "love"),
        (65084, "written"),
        (65300, "you"),
        (65535, "zyzzyva"),
    ];
    let digits: &[u8] = b"bcdefghijklmnopqrstuvwxyz";
    let mut words: Vec<String> = Vec::with_capacity(65536);
    let mut used_pins = 0;
    for t in 0..65536usize {
        if used_pins < pins.len() && t == pins[used_pins].0 {
            words.push(pins[used_pins].1.to_string());
            used_pins += 1;
        } else if t == 1 {
            words.push("a".repeat(28));
        } else {
            let (base_index, base_word) = pins[used_pins - 1];
            let mut n = t - base_index;
            let mut code = [0u8; 4];
            for d in (0..4).rev() {
                code[d] = digits[n % 25];
                n /= 25;
            }
            let mut w = String::from(base_word);
            w.push('a');
            for d in 0..4 {
                w.push(code[d] as char);
            }
            words.push(w);
        }
    }
    words
}

fn test_dict() -> Dictionary {
    Dictionary::new(build_words()).expect("the test word list is well formed")
}

fn strings(words: &[&str]) -> Vec<String> {
    words.iter().map(|w| w.to_string()).collect()
}

// generate_passphrase

#[test]
fn correct_passphrase_length() {
    let d = test_dict();
    assert_eq!(generate_passphrase(&d, 1).unwrap().len(), 1);
    assert_eq!(generate_passphrase(&d, 0).unwrap().len(), 0);
    assert_eq!(generate_passphrase(&d, 10).unwrap().len(), 10);
    assert_eq!(generate_passphrase(&d, 256).unwrap().len(), 256);
}

#[test]
fn passphrase_oob_num_words_513() {
    let d = test_dict();
    let err = generate_passphrase(&d, 513).unwrap_err();
    assert!(matches!(
        err,
        Error::TooManyWords { num_words: 513, max_words: 512 }
    ));
    assert_eq!(
        err.message(),
        "number of words 513 cannot be greater than 512"
    );
}

#[test]
fn passphrase_words_are_random() {
    let d = test_dict();
    let words = generate_passphrase(&d, 256).unwrap();
    // 512 random bytes decode back to themselves and are, beyond any doubt,
    // not all zero, so not every word can be the dictionary's first entry.
    let refs: Vec<&str> = words.iter().map(|w| w.as_str()).collect();
    let bytes = passphrase_to_bytes(&d, &refs).unwrap();
    assert_eq!(bytes.len(), 512);
    assert!(words.iter().any(|w| w != "a"));
    assert_eq!(bytes_to_pass_phrase(&d, &bytes).unwrap(), words);
}

// bytes_to_pass_phrase

#[test]
fn odd_bytes_length() {
    let d = test_dict();
    let err = bytes_to_pass_phrase(&d, &[0]).unwrap_err();
    assert!(matches!(err, Error::InvalidSize { size: 1 }));
    assert_eq!(err.message(), "odd size not supported: 1");
}

#[test]
fn expected_passphrases() {
    let d = test_dict();
    assert_eq!(bytes_to_pass_phrase(&d, &[]).unwrap().len(), 0);
    assert_eq!(bytes_to_pass_phrase(&d, &[0, 0]).unwrap(), strings(&["a"]));
    assert_eq!(
        bytes_to_pass_phrase(&d, &[255, 255]).unwrap(),
        strings(&["zyzzyva"])
    );
    assert_eq!(
        bytes_to_pass_phrase(
            &d,
            &[0, 0, 17, 212, 12, 140, 90, 246, 46, 83, 254, 60, 54, 169, 255, 255]
        )
        .unwrap(),
        "a bioengineering balloted gobbled creneled written depriving zyzzyva"
            .split(" ")
            .map(|w| w.to_string())
            .collect::<Vec<String>>()
    );
}

// passphrase_to_bytes

#[test]
fn invalid_word() {
    let d = test_dict();
    assert_eq!(
        passphrase_to_bytes(&d, &["You", "love", "ninetales"])
            .unwrap_err()
            .message(),
        "unknown word: ninetales"
    );
}

#[test]
fn expected_bytes() {
    let d = test_dict();
    assert_eq!(passphrase_to_bytes(&d, &["A"]).unwrap(), &[0, 0]);
    assert_eq!(passphrase_to_bytes(&d, &["zyzzyva"]).unwrap(), &[255, 255]);
    assert_eq!(
        passphrase_to_bytes(
            &d,
            &[
                "a",
                "bioengineering",
                "balloted",
                "gobbled",
                "creneled",
                "written",
                "depriving",
                "zyzzyva"
            ]
        )
        .unwrap(),
        &[0, 0, 17, 212, 12, 140, 90, 246, 46, 83, 254, 60, 54, 169, 255, 255]
    );
}

#[test]
fn decode_empty() {
    let d = test_dict();
    assert_eq!(passphrase_to_bytes(&d, &[]).unwrap(), Vec::<u8>::new());
}

#[test]
fn unknown_word_aborts_before_later_words() {
    let d = test_dict();
    let err = passphrase_to_bytes(&d, &["ninetales", "a"]).unwrap_err();
    assert!(matches!(err, Error::UnknownWord { word } if word == "ninetales"));
}

#[test]
fn overlong_token_is_unknown() {
    let d = test_dict();
    let token = "a".repeat(29);
    let err = passphrase_to_bytes(&d, &[token.as_str()]).unwrap_err();
    assert!(matches!(err, Error::UnknownWord { word } if word == token));
}

#[test]
fn round_trip_bytes() {
    let d = test_dict();
    let bytes: Vec<u8> = vec![1, 2, 3, 4, 250, 251, 0, 255];
    let words = bytes_to_pass_phrase(&d, &bytes).unwrap();
    let refs: Vec<&str> = words.iter().map(|w| w.as_str()).collect();
    assert_eq!(passphrase_to_bytes(&d, &refs).unwrap(), bytes);
}

#[test]
fn round_trip_case_insensitive() {
    let d = test_dict();
    let bytes = passphrase_to_bytes(&d, &["A", "ZyZZyVa", "LOVE"]).unwrap();
    assert_eq!(
        bytes_to_pass_phrase(&d, &bytes).unwrap(),
        strings(&["a", "zyzzyva", "love"])
    );
}
