use cracken::charsets::{charset_mask, classify, CharClass};
use cracken::password_entropy::{compute_password_entropy, password_mask_cost, pieces_along};
use cracken::smartlist::Smartlist;

const VOCAB: &[u8] = b"helloworld\n123\n!\nDOW\nQE\nD-\n";

fn costs_for(smartlist: &Smartlist) -> Vec<u32> {
    (1..=smartlist.len() + 1)
        .map(|rank| ((rank as f64).log2() * 65536.0).round() as u32)
        .collect()
}

fn entropy(smartlist: &Smartlist, pwd: &str) -> (f64, Vec<String>) {
    let costs = costs_for(smartlist);
    let (_, split) = compute_password_entropy(smartlist, &costs, pwd.as_bytes());
    let bits = split
        .iter()
        .map(|part| (smartlist.rank(part).unwrap() as f64).log2())
        .sum();
    let split = split
        .into_iter()
        .map(|part| String::from_utf8_lossy(&part).to_string())
        .collect();
    (bits, split)
}

fn mask_bits(pwd: &str) -> f64 {
    password_mask_cost(pwd.as_bytes())
        .into_iter()
        .map(|term| (term as f64).log2())
        .sum()
}

#[test]
fn test_compute_password_entropy() {
    let smartlist = Smartlist::from_bytes(VOCAB).unwrap();
    let pwd = "helloworld123!";
    let res = entropy(&smartlist, pwd);
    assert_eq!(
        res,
        (
            1f64.log2() + 2f64.log2() + 3f64.log2(),
            vec!["helloworld", "123", "!"]
                .into_iter()
                .map(String::from)
                .collect()
        ),
    );
}

#[test]
fn test_compute_password_entropy_long_password() {
    let smartlist = Smartlist::from_bytes(VOCAB).unwrap();
    let pwd = "helloworld123!helloworld123!helloworld123!";
    let res = entropy(&smartlist, pwd);
    let once = [1f64.log2(), 2f64.log2(), 3f64.log2()];
    let bits: f64 = once.iter().chain(once.iter()).chain(once.iter()).sum();
    assert_eq!(
        res,
        (
            bits,
            vec![
                "helloworld",
                "123",
                "!",
                "helloworld",
                "123",
                "!",
                "helloworld",
                "123",
                "!"
            ]
            .into_iter()
            .map(String::from)
            .collect()
        ),
    );
}

#[test]
fn test_compute_password_entropy_random_password() {
    let smartlist = Smartlist::from_bytes(VOCAB).unwrap();
    let pwd = "E93gtaaE6yF7xDOWv3ww2QE6qD-Wye4mk8O3Vaerem8";
    let res = entropy(&smartlist, pwd);
    let expected: Vec<String> = vec![
        "E", "9", "3", "g", "t", "a", "a", "E", "6", "y", "F", "7", "x", "DOW", "v", "3", "w",
        "w", "2", "QE", "6", "q", "D-", "W", "y", "e", "4", "m", "k", "8", "O", "3", "V", "a",
        "e", "r", "e", "m", "8",
    ]
    .into_iter()
    .map(String::from)
    .collect();
    let bits: f64 = expected
        .iter()
        .map(|part| match part.as_str() {
            "DOW" => 4f64.log2(),
            "QE" => 5f64.log2(),
            "D-" => 6f64.log2(),
            _ => 7f64.log2(),
        })
        .sum();
    assert_eq!(res, (bits, expected));
}

#[test]
fn test_password_mask_cost() {
    let cases: Vec<(&str, f64)> = vec![
        ("0123456789", 33.219280948873624),
        ("😃", 32.0),
    ];
    for (pwd, expected_cost) in cases {
        assert_eq!(mask_bits(pwd), expected_cost);
    }
    assert_eq!(
        password_mask_cost(b"Aa123456!"),
        vec![26, 26, 10, 10, 10, 10, 10, 10, 33]
    );
    assert_eq!(password_mask_cost(b"!@#$%^&*()"), vec![33; 10]);
    let long = password_mask_cost(b"E93gtaaE6yF7xDOWv3ww2QE6qD-Wye4mk8O3Vaerem8");
    assert_eq!(long.iter().filter(|&&term| term == 10).count(), 11);
    assert_eq!(long.iter().filter(|&&term| term == 26).count(), 31);
    assert_eq!(long.iter().filter(|&&term| term == 33).count(), 1);
}

#[test]
fn classes_of_bytes() {
    assert_eq!(classify(b'0'), CharClass::Digit);
    assert_eq!(classify(b'9'), CharClass::Digit);
    assert_eq!(classify(b'a'), CharClass::Letter);
    assert_eq!(classify(b'Z'), CharClass::Letter);
    assert_eq!(classify(b' '), CharClass::Symbol);
    assert_eq!(classify(b'~'), CharClass::Symbol);
    assert_eq!(classify(b'`'), CharClass::Symbol);
    assert_eq!(classify(0x7f), CharClass::Any);
    assert_eq!(classify(0x00), CharClass::Any);
    assert_eq!(classify(0xf0), CharClass::Any);
    let symbols = (0u8..=255)
        .filter(|b| classify(*b) == CharClass::Symbol)
        .count();
    assert_eq!(symbols, 33);
}

#[test]
fn charset_mask_tags_each_byte() {
    assert_eq!(charset_mask(b"Aa1 !\x01"), b"lldssa".to_vec());
    assert_eq!(charset_mask(b""), Vec::<u8>::new());
}

#[test]
fn empty_password_costs_nothing() {
    let smartlist = Smartlist::from_bytes(VOCAB).unwrap();
    let costs = costs_for(&smartlist);
    let (cost, split) = compute_password_entropy(&smartlist, &costs, b"");
    assert_eq!(cost, 0);
    assert!(split.is_empty());
}

#[test]
fn segments_put_together_are_the_password() {
    let smartlist = Smartlist::from_bytes(b"ab\nabc\nc\nbc\n\xff\xfe\n").unwrap();
    let costs = costs_for(&smartlist);
    for pwd in [&b"abcabc"[..], b"\xff\xfe\x00abc", b"zzz", b"a"] {
        let (cost, split) = compute_password_entropy(&smartlist, &costs, pwd);
        assert_eq!(split.concat(), pwd.to_vec());
        let sum: u64 = split
            .iter()
            .map(|part| costs[smartlist.rank(part).unwrap() - 1] as u64)
            .sum();
        assert_eq!(cost, sum);
    }
}

#[test]
fn cheapest_cover_wins() {
    let smartlist = Smartlist::from_bytes(b"ab\nabc\nc\nbc\n").unwrap();
    let costs = costs_for(&smartlist);
    let (cost, split) = compute_password_entropy(&smartlist, &costs, b"abc");
    assert_eq!(split, vec![b"abc".to_vec()]);
    assert_eq!(cost, 65536);
    let (cost, split) = compute_password_entropy(&smartlist, &costs, b"abbc");
    assert_eq!(split, vec![b"ab".to_vec(), b"bc".to_vec()]);
    assert_eq!(cost, 0 + 131072);
}

#[test]
fn rank_one_pieces_are_free() {
    let smartlist = Smartlist::from_bytes(b"a\naa\n").unwrap();
    let costs = costs_for(&smartlist);
    let (cost, split) = compute_password_entropy(&smartlist, &costs, b"aa");
    assert_eq!(cost, 0);
    assert_eq!(split, vec![b"a".to_vec(), b"a".to_vec()]);
}

#[test]
fn unknown_bytes_fall_back_to_single_bytes() {
    let smartlist = Smartlist::from_bytes(b"").unwrap();
    let costs = costs_for(&smartlist);
    let (cost, split) = compute_password_entropy(&smartlist, &costs, b"\x00\xffq");
    assert_eq!(split, vec![vec![0u8], vec![0xffu8], vec![b'q']]);
    assert_eq!(cost, 0);
}

#[test]
fn unlisted_ranks_cost_the_most() {
    let smartlist = Smartlist::from_bytes(b"ab\n").unwrap();
    let (cost, split) = compute_password_entropy(&smartlist, &vec![7], b"abz");
    assert_eq!(split, vec![b"ab".to_vec(), b"z".to_vec()]);
    assert_eq!(cost, 7 + 0xffff_ffff);
}

#[test]
fn pieces_follow_a_partition_only() {
    assert_eq!(
        pieces_along(b"abcd", &vec![0, 1, 4]),
        Some(vec![b"a".to_vec(), b"bcd".to_vec()])
    );
    assert_eq!(pieces_along(b"", &vec![0]), Some(vec![]));
    assert_eq!(pieces_along(b"abcd", &vec![0, 1]), None);
    assert_eq!(pieces_along(b"abcd", &vec![1, 4]), None);
    assert_eq!(pieces_along(b"abcd", &vec![0, 2, 2, 4]), None);
    assert_eq!(pieces_along(b"abcd", &vec![0, 3, 2, 4]), None);
    assert_eq!(pieces_along(b"abcd", &vec![]), None);
}
