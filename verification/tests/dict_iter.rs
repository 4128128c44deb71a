use niceware::bytes_to_pass_phrase_iter;
use niceware::bytes_to_pass_phrase_iter_from_slice;
use niceware::decimal_string;
use niceware::Dictionary;
use niceware::Error;

/// The same deterministic word list as the codec tests build: exactly 65,536
/// ASCII lowercase words in strictly ascending order, with a handful of real
/// words pinned at the indices the tests rely on and a word of the maximum
/// length at slot 1.
fn build_words() -> Vec<String> {
    let pins: &[(usize, &str)] = &[
        (0, "a"),
        (3212, "balloted"),
        (4564, "bioengineering"),
        (11859, "creneled"),
        (13993, "depriving"),
        (23286, "gobbled"),
        (40000, "love"),
        (65084, "written"),
        (65300, "you"),
        (65535, "zyzzyva"),
    ];
    let digits: &[u8] = b"bcdefghijklmnopqrstuvwxyz";
    let mut words: Vec<String> = Vec::with_capacity(65536);
    let mut used_pins = 0;
    for t in 0..65536usize {
        if used_pins < pins.len() && t == pins[used_pins].0 {
            words.push(pins[used_pins].1.to_string());
            used_pins += 1;
        } else if t == 1 {
            words.push("a".repeat(28));
        } else {
            let (base_index, base_word) = pins[used_pins - 1];
            let mut n = t - base_index;
            let mut code = [0u8; 4];
            for d in (0..4).rev() {
                code[d] = digits[n % 25];
                n /= 25;
            }
            let mut w = String::from(base_word);
            w.push('a');
            for d in 0..4 {
                w.push(code[d] as char);
            }
            words.push(w);
        }
    }
    words
}

fn test_dict() -> Dictionary {
    Dictionary::new(build_words()).expect("the test word list is well formed")
}

// dictionary invariants

#[test]
fn max_word_len() {
    let d = test_dict();
    let mut max_word_len = 0;
    for i in 0..65536usize {
        let len = d.word_at(i).len();
        if len > max_word_len {
            max_word_len = len;
        }
    }
    assert_eq!(niceware::MAX_WORD_LEN, max_word_len);
}

#[test]
fn all_words_are_ascii() {
    let d = test_dict();
    let mut all_ascii = true;
    for i in 0..65536usize {
        all_ascii = all_ascii && d.word_at(i).is_ascii();
    }
    assert!(all_ascii);
}

#[test]
fn dictionary_rejects_bad_word_lists() {
    // Too few entries.
    assert!(Dictionary::new(Vec::new()).is_none());
    // An entry out of order.
    let mut words = build_words();
    words.swap(10, 11);
    assert!(Dictionary::new(words).is_none());
    // A duplicated entry.
    let mut words = build_words();
    words[11] = words[10].clone();
    assert!(Dictionary::new(words).is_none());
    // An uppercase letter.
    let mut words = build_words();
    words[0] = "A".to_string();
    assert!(Dictionary::new(words).is_none());
    // A word above the length bound.
    let mut words = build_words();
    words[1] = "a".repeat(29);
    assert!(Dictionary::new(words).is_none());
    // An empty word.
    let mut words = build_words();
    words[0] = String::new();
    assert!(Dictionary::new(words).is_none());
    // A character outside ASCII.
    let mut words = build_words();
    words[0] = "\u{e9}".to_string();
    assert!(Dictionary::new(words).is_none());
}

#[test]
fn dictionary_accepts_and_keeps_words() {
    let words = build_words();
    let d = Dictionary::new(words.clone()).unwrap();
    assert_eq!(d.word_at(0), "a");
    assert_eq!(d.word_at(4564), "bioengineering");
    assert_eq!(d.word_at(65535), "zyzzyva");
    assert_eq!(d.word_at(17), words[17]);
}

// the lazy encoder

#[test]
fn test_passphrase_iter_empty() {
    let d = test_dict();
    let bytes = &[];
    assert_eq!(
        bytes_to_pass_phrase_iter_from_slice(bytes).unwrap().join(&d, " "),
        ""
    );
    assert_eq!(
        bytes_to_pass_phrase_iter_from_slice(bytes).unwrap().join(&d, ", "),
        ""
    );
}

#[test]
fn test_passphrase_iter_one() {
    let d = test_dict();
    let bytes = &[0, 0];
    assert_eq!(
        bytes_to_pass_phrase_iter_from_slice(bytes).unwrap().join(&d, " "),
        "a"
    );
    assert_eq!(
        bytes_to_pass_phrase_iter_from_slice(bytes).unwrap().join(&d, ", "),
        "a"
    );
}

#[test]
fn test_passphrase_iter_two() {
    let d = test_dict();
    let bytes = &[0, 0, 255, 255];
    assert_eq!(
        bytes_to_pass_phrase_iter_from_slice(bytes).unwrap().join(&d, " "),
        "a zyzzyva"
    );
    assert_eq!(
        bytes_to_pass_phrase_iter_from_slice(bytes).unwrap().join(&d, ", "),
        "a, zyzzyva"
    );
}

#[test]
fn test_passphrase_iter_long() {
    let d = test_dict();
    let bytes = &[0, 0, 17, 212, 12, 140, 90, 246, 46, 83, 254, 60, 54, 169, 255, 255];
    assert_eq!(
        bytes_to_pass_phrase_iter_from_slice(bytes).unwrap().join(&d, " "),
        "a bioengineering balloted gobbled creneled written depriving zyzzyva"
    );
    assert_eq!(
        bytes_to_pass_phrase_iter_from_slice(bytes).unwrap().join(&d, ", "),
        "a, bioengineering, balloted, gobbled, creneled, written, depriving, zyzzyva"
    );
}

#[test]
fn iter_from_slice_rejects_odd_length() {
    let err = bytes_to_pass_phrase_iter_from_slice(&[0, 0, 0]).unwrap_err();
    assert!(matches!(err, Error::InvalidSize { size: 3 }));
}

#[test]
fn iter_next_hands_out_each_word() {
    let d = test_dict();
    let mut it = bytes_to_pass_phrase_iter_from_slice(&[0, 0, 255, 255]).unwrap();
    assert_eq!(it.next(&d).unwrap(), "a");
    assert_eq!(it.next(&d).unwrap(), "zyzzyva");
    assert!(it.next(&d).is_none());
    assert!(it.next(&d).is_none());
}

#[test]
fn iter_size_hint_counts_remaining_words() {
    let d = test_dict();
    let mut it = bytes_to_pass_phrase_iter_from_slice(&[0, 0, 255, 255]).unwrap();
    assert_eq!(it.size_hint(), 2);
    it.next(&d);
    assert_eq!(it.size_hint(), 1);
    it.next(&d);
    assert_eq!(it.size_hint(), 0);
}

#[test]
fn iter_from_pairs_matches_slice() {
    let d = test_dict();
    let it = bytes_to_pass_phrase_iter(vec![[0, 0], [255, 255]]);
    assert_eq!(it.join(&d, " "), "a zyzzyva");
}

#[test]
fn iter_bytes_hint_counts_rendered_bytes() {
    let d = test_dict();
    let bytes = &[0, 0, 255, 255];
    let it = bytes_to_pass_phrase_iter_from_slice(bytes).unwrap();
    assert_eq!(it.bytes_hint(&d, 1), "a zyzzyva".len());
    assert_eq!(it.bytes_hint(&d, 2), "a, zyzzyva".len());
    let empty = bytes_to_pass_phrase_iter_from_slice(&[]).unwrap();
    assert_eq!(empty.bytes_hint(&d, 7), 0);
}

// error rendering

#[test]
fn error_messages_render_their_payloads() {
    assert_eq!(decimal_string(0), "0");
    assert_eq!(decimal_string(42), "42");
    assert_eq!(decimal_string(65535), "65535");
    let err = Error::UnknownWord { word: "Ninetales".to_string() };
    assert_eq!(err.message(), "unknown word: Ninetales");
    let err = Error::InvalidSize { size: 7 };
    assert_eq!(err.message(), "odd size not supported: 7");
    let err = Error::RNGError { inner: "no entropy".to_string() };
    assert_eq!(
        err.message(),
        "failed to generate entropy for passphrase: no entropy"
    );
}
