use cracken::wordlists::Wordlist;

fn words(list: &Wordlist) -> Vec<String> {
    (0..list.len())
        .map(|i| String::from_utf8(list.index(i).to_vec()).unwrap())
        .collect()
}

#[test]
fn test_wordlist_from_file() {
    let wordlist = Wordlist::from_file(b"hello\nhi\nworld\nyo\na\n");

    println!("{:?}", words(&wordlist));
    assert_eq!(words(&wordlist), vec!["a", "hi", "yo", "hello", "world"]);
}

#[test]
fn wordlist_skips_empty_lines() {
    let wordlist = Wordlist::from_file(b"\nbb\n\n\na\n");
    assert_eq!(wordlist.len(), 2);
    assert_eq!(words(&wordlist), vec!["a", "bb"]);
}

#[test]
fn wordlist_keeps_file_order_among_equal_lengths() {
    let wordlist = Wordlist::from_file(b"zz\nccc\naa\nb\nmm\nbbb");
    assert_eq!(words(&wordlist), vec!["b", "zz", "aa", "mm", "ccc", "bbb"]);
}

#[test]
fn wordlist_of_nothing_is_empty() {
    assert_eq!(Wordlist::from_file(b"").len(), 0);
    assert_eq!(Wordlist::from_file(b"\n\n").len(), 0);
}
