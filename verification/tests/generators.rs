use cracken::charsets::{
    all_bytes_table, digits_table, lower_table, printable_table, symbols_table, upper_table,
};
use cracken::generator::WordGenerator;
use cracken::mask::{parse_mask, GenError, Slot};
use cracken::wordlists::Wordlist;

fn generator(mask: &str, charsets: &[&str]) -> WordGenerator {
    let charsets: Vec<Vec<u8>> = charsets.iter().map(|c| c.as_bytes().to_vec()).collect();
    WordGenerator::new(mask.as_bytes(), None, None, &charsets, &vec![]).unwrap()
}

fn all_words(generator: &mut WordGenerator) -> Vec<Vec<u8>> {
    let mut words = Vec::new();
    while let Some(word) = generator.next_word() {
        words.push(word);
    }
    words
}

#[test]
fn builtin_tables() {
    assert_eq!(digits_table(), b"0123456789".to_vec());
    assert_eq!(lower_table(), b"abcdefghijklmnopqrstuvwxyz".to_vec());
    assert_eq!(upper_table(), b"ABCDEFGHIJKLMNOPQRSTUVWXYZ".to_vec());
    assert_eq!(
        symbols_table(),
        b"!\"#$%&'()*+,-./:;<=>?@[\\]^_`{|}~".to_vec()
    );
    assert_eq!(symbols_table().len(), 32);
    let mut printable = digits_table();
    printable.extend(lower_table());
    printable.extend(upper_table());
    printable.extend(symbols_table());
    assert_eq!(printable_table(), printable);
    assert_eq!(all_bytes_table(), (0u8..=255).collect::<Vec<u8>>());
}

#[test]
fn mask_slots() {
    assert_eq!(
        parse_mask(b"a?d?l?u?s?a?b?2?w1\xff", 2, 1),
        Ok(vec![
            Slot::Literal(b'a'),
            Slot::Digits,
            Slot::Lower,
            Slot::Upper,
            Slot::Symbols,
            Slot::Printable,
            Slot::Bytes,
            Slot::Custom(1),
            Slot::Words(0),
            Slot::Literal(0xff),
        ])
    );
    assert_eq!(parse_mask(b"", 0, 0), Ok(vec![]));
}

#[test]
fn mask_errors() {
    assert_eq!(parse_mask(b"?x", 0, 0), Err(GenError::MaskParse));
    assert_eq!(parse_mask(b"ab?", 0, 0), Err(GenError::MaskParse));
    assert_eq!(parse_mask(b"??", 0, 0), Err(GenError::MaskParse));
    assert_eq!(parse_mask(b"?0", 9, 9), Err(GenError::MaskParse));
    assert_eq!(parse_mask(b"?w", 9, 9), Err(GenError::MaskParse));
    assert_eq!(parse_mask(b"?w0", 9, 9), Err(GenError::MaskParse));
    assert_eq!(parse_mask(b"?wx", 9, 9), Err(GenError::MaskParse));
    assert_eq!(parse_mask(b"?1", 0, 0), Err(GenError::MaskReference));
    assert_eq!(parse_mask(b"?3", 2, 0), Err(GenError::MaskReference));
    assert_eq!(parse_mask(b"?w2", 0, 1), Err(GenError::MaskReference));
    assert_eq!(parse_mask(b"?2?x", 1, 0), Err(GenError::MaskReference));
    assert_eq!(parse_mask(b"?x?2", 1, 0), Err(GenError::MaskParse));
}

#[test]
fn bounds_errors() {
    let none: Vec<Vec<u8>> = vec![];
    let new = |min, max| WordGenerator::new(b"?d?d", min, max, &none, &vec![]);
    assert!(matches!(new(Some(2), Some(1)), Err(GenError::Bounds)));
    assert!(matches!(new(Some(3), None), Err(GenError::Bounds)));
    assert!(matches!(new(None, Some(3)), Err(GenError::Bounds)));
    assert!(new(Some(2), Some(2)).is_ok());
    assert!(new(Some(0), None).is_ok());
    assert!(matches!(new(None, Some(1)), Err(GenError::Bounds)));
    assert!(new(Some(1), Some(2)).is_ok());
}

#[test]
fn two_digits_in_ascending_order() {
    let mut generator = generator("?d?d", &[]);
    assert_eq!(generator.combinations(), Some(100));
    let words = all_words(&mut generator);
    assert_eq!(words.len(), 100);
    for (k, word) in words.iter().enumerate() {
        assert_eq!(word, format!("{:02}", k).as_bytes());
    }
    assert_eq!(generator.next_word(), None);
}

#[test]
fn years_after_four_letters() {
    let mut generator = generator("?l?l?l?l20?1?d", &["01"]);
    let lines = 26u64.pow(4) * 2 * 10;
    assert_eq!(generator.combinations(), Some(lines));
    let mut count: u64 = 0;
    let mut first = None;
    let mut last = None;
    while let Some(word) = generator.next_word() {
        if first.is_none() {
            first = Some(word.clone());
        }
        last = Some(word);
        count += 1;
    }
    assert_eq!(count, lines);
    assert_eq!(first, Some(b"aaaa2000".to_vec()));
    assert_eq!(last, Some(b"zzzz2019".to_vec()));
}

#[test]
fn word_number_gives_the_counters() {
    let sizes = [3usize, 2, 4];
    let mut generator = generator("?1?2?3", &["abc", "xy", "0123"]);
    let words = all_words(&mut generator);
    assert_eq!(words.len(), 24);
    for (k, word) in words.iter().enumerate() {
        let picks = [
            (k / (sizes[1] * sizes[2])) % sizes[0],
            (k / sizes[2]) % sizes[1],
            k % sizes[2],
        ];
        let expected = vec![b"abc"[picks[0]], b"xy"[picks[1]], b"0123"[picks[2]]];
        assert_eq!(word, &expected);
    }
}

#[test]
fn lines_end_in_a_newline() {
    let mut generator = generator("a?1", &["xy"]);
    assert_eq!(generator.next_line(), Some(b"ax\n".to_vec()));
    assert_eq!(generator.next_line(), Some(b"ay\n".to_vec()));
    assert_eq!(generator.next_line(), None);
}

#[test]
fn same_inputs_same_output() {
    let mut one = generator("?1?d?1", &["ba"]);
    let mut two = generator("?1?d?1", &["ba"]);
    assert_eq!(all_words(&mut one), all_words(&mut two));
}

#[test]
fn count_is_the_number_of_words() {
    let lists = vec![
        Wordlist::from_file(b"a\nbb\nccc\ndd\n"),
        Wordlist::from_file(b"x\nyyyy\n"),
    ];
    let charsets = vec![b"01".to_vec()];
    for mask in [&b"?w1?w2"[..], b"?w1?1?w1", b"?w2-?w2?d", b"?w1", b"k"] {
        for min in 0usize..10 {
            for max in min..10 {
                let made = WordGenerator::new(mask, Some(min), Some(max), &charsets, &lists);
                if let Ok(mut generator) = made {
                    let count = generator.combinations().unwrap();
                    let words = all_words(&mut generator);
                    assert_eq!(count, words.len() as u64);
                    assert!(words.iter().all(|w| min <= w.len() && w.len() <= max));
                }
            }
        }
    }
}

#[test]
fn window_filters_by_length() {
    let lists = vec![Wordlist::from_file(b"a\nbb\nccc\n")];
    let mut generator =
        WordGenerator::new(b"?w1?w1", Some(3), Some(4), &vec![], &lists).unwrap();
    assert_eq!(generator.combinations(), Some(5));
    assert_eq!(
        all_words(&mut generator),
        vec![
            b"abb".to_vec(),
            b"accc".to_vec(),
            b"bba".to_vec(),
            b"bbbb".to_vec(),
            b"ccca".to_vec(),
        ]
    );
}

#[test]
fn empty_slot_gives_no_words() {
    let mut generator = generator("?d?1", &[""]);
    assert_eq!(generator.combinations(), Some(0));
    assert_eq!(generator.next_word(), None);
}

#[test]
fn empty_mask_gives_the_empty_word() {
    let mut generator = generator("", &[]);
    assert_eq!(generator.combinations(), Some(1));
    assert_eq!(generator.next_word(), Some(vec![]));
    assert_eq!(generator.next_word(), None);
}

#[test]
fn count_too_large_for_64_bits() {
    let generator = generator("?b?b?b?b?b?b?b?b?b", &[]);
    assert_eq!(generator.combinations(), None);
    let generator = generator_of_bytes(8);
    assert_eq!(generator.combinations(), None);
    let generator = generator_of_bytes(7);
    assert_eq!(generator.combinations(), Some(1 << 56));
}

fn generator_of_bytes(slots: usize) -> WordGenerator {
    generator(&"?b".repeat(slots), &[])
}
