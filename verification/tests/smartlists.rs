use cracken::lines::split_lines;
use cracken::smartlist::Smartlist;

#[test]
fn lines_are_split_at_newlines() {
    assert_eq!(split_lines(b""), Vec::<Vec<u8>>::new());
    assert_eq!(split_lines(b"a"), vec![b"a".to_vec()]);
    assert_eq!(split_lines(b"a\n"), vec![b"a".to_vec()]);
    assert_eq!(split_lines(b"a\nbc"), vec![b"a".to_vec(), b"bc".to_vec()]);
    assert_eq!(
        split_lines(b"\n\nx\r\n"),
        vec![vec![], vec![], b"x\r".to_vec()]
    );
}

#[test]
fn ranks_follow_load_order() {
    let smartlist = Smartlist::from_bytes(b"pass\nword\n1\n").unwrap();
    assert_eq!(smartlist.len(), 3);
    assert_eq!(smartlist.rank(b"pass"), Some(1));
    assert_eq!(smartlist.rank(b"word"), Some(2));
    assert_eq!(smartlist.rank(b"1"), Some(3));
    assert_eq!(smartlist.rank(b"Pass"), None);
    assert_eq!(smartlist.rank(b""), None);
}

#[test]
fn missing_bytes_rank_after_the_last_entry() {
    let smartlist = Smartlist::from_bytes(b"pass\nword\n1\n").unwrap();
    for b in 0u8..=255 {
        let expected = if b == b'1' { 3 } else { 4 };
        assert_eq!(smartlist.rank(&[b]), Some(expected));
    }
}

#[test]
fn last_line_needs_no_newline() {
    let smartlist = Smartlist::from_bytes(b"ab\ncd").unwrap();
    assert_eq!(smartlist.len(), 2);
    assert_eq!(smartlist.rank(b"cd"), Some(2));
}

#[test]
fn empty_lines_take_a_rank() {
    let smartlist = Smartlist::from_bytes(b"ab\n\ncd\n").unwrap();
    assert_eq!(smartlist.len(), 3);
    assert_eq!(smartlist.rank(b""), Some(2));
    assert_eq!(smartlist.rank(b"cd"), Some(3));
    assert_eq!(smartlist.rank(b"x"), Some(4));
}

#[test]
fn files_are_merged_in_order() {
    let files = vec![b"ab\ncd\n".to_vec(), b"ef\nab\n".to_vec()];
    let smartlist = Smartlist::from_files(&files).unwrap();
    assert_eq!(smartlist.len(), 4);
    assert_eq!(smartlist.rank(b"ab"), Some(1));
    assert_eq!(smartlist.rank(b"cd"), Some(2));
    assert_eq!(smartlist.rank(b"ef"), Some(3));
    assert_eq!(smartlist.rank(b"q"), Some(5));
}
