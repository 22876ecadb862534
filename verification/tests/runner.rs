use cracken::mask::GenError;
use cracken::runner::{run, Command, EntropyArgs, GenerateArgs, Outcome, RunError};

fn generate(mask: &str) -> GenerateArgs {
    GenerateArgs {
        masks: vec![mask.as_bytes().to_vec()],
        min_len: None,
        max_len: None,
        stats: false,
        custom_charsets: vec![],
        wordlists: vec![],
    }
}

fn drain(outcome: Outcome) -> Vec<u8> {
    let mut written = Vec::new();
    match outcome {
        Outcome::Words(generators) => {
            for mut generator in generators {
                while let Some(word) = generator.next_word() {
                    written.extend_from_slice(&word);
                    written.push(b'\n');
                }
            }
        }
        _ => panic!("no words"),
    }
    written
}

fn rank_costs(ranks: usize) -> Vec<u32> {
    (1..=ranks)
        .map(|rank| ((rank as f64).log2() * 65536.0).round() as u32)
        .collect()
}

#[test]
fn test_run_generate_smoke() {
    for args in vec![generate("?d"), generate("?d")] {
        assert!(run(&Command::Generate(args)).is_ok());
    }
}

#[test]
fn test_run_entropy_smoke() {
    let vocab = b"helloworld\n123\n!\n".to_vec();
    let args = EntropyArgs {
        smartlists: vec![vocab],
        costs: rank_costs(4),
        passwords: vec![b"helloworld123!".to_vec()],
    };
    assert!(run(&Command::Entropy(args)).is_ok());
}

#[test]
fn test_run_custom_charset() {
    let mut args = generate("?1");
    args.custom_charsets = vec![b"abcdef0123456789".to_vec()];
    assert!(run(&Command::Generate(args)).is_ok());
}

#[test]
fn test_run_stats() {
    let mut args = generate("?d?s?u?l?a?b");
    args.stats = true;
    assert!(run(&Command::Generate(args)).is_ok());
}

#[test]
fn test_run_bad_args() {
    let mut args = generate("?d");
    args.min_len = Some(2);
    assert!(run(&Command::Generate(args)).is_err());
}

#[test]
fn test_run_bad_args2() {
    let args = generate("?x");
    assert!(run(&Command::Generate(args)).is_err());
}

#[test]
fn test_run_bad_args3() {
    let mut args = generate("?d");
    args.max_len = Some(5);
    assert!(run(&Command::Generate(args)).is_err());
}

#[test]
fn run_generate_writes_every_digit() {
    let outcome = run(&Command::Generate(generate("?d"))).unwrap();
    assert_eq!(drain(outcome), b"0\n1\n2\n3\n4\n5\n6\n7\n8\n9\n".to_vec());
}

#[test]
fn run_custom_charset_keeps_order_and_duplicates() {
    let mut args = generate("x?1");
    args.custom_charsets = vec![b"bab".to_vec()];
    let outcome = run(&Command::Generate(args)).unwrap();
    assert_eq!(drain(outcome), b"xb\nxa\nxb\n".to_vec());
}

#[test]
fn run_stats_counts_the_first_mask() {
    let mut args = generate("?d?s?u?l?a?b");
    args.stats = true;
    match run(&Command::Generate(args)).unwrap() {
        Outcome::Count(count) => {
            assert_eq!(count, Some(10 * 32 * 26 * 26 * 94 * 256));
        }
        _ => panic!("no count"),
    }
}

#[test]
fn run_masks_in_order() {
    let mut args = generate("a?1");
    args.masks.push(b"?1b".to_vec());
    args.custom_charsets = vec![b"01".to_vec()];
    let outcome = run(&Command::Generate(args)).unwrap();
    assert_eq!(drain(outcome), b"a0\na1\n0b\n1b\n".to_vec());
}

#[test]
fn run_reports_the_kind_of_error() {
    let parse = run(&Command::Generate(generate("?d?")));
    assert!(matches!(parse, Err(RunError::Generator(GenError::MaskParse))));
    let reference = run(&Command::Generate(generate("?w1")));
    assert!(matches!(reference, Err(RunError::Generator(GenError::MaskReference))));
    let mut args = generate("?d?d");
    args.min_len = Some(2);
    args.max_len = Some(1);
    let bounds = run(&Command::Generate(args));
    assert!(matches!(bounds, Err(RunError::Generator(GenError::Bounds))));
}

#[test]
fn run_wordlist_slot() {
    let mut args = generate("?w1?d");
    args.masks = vec![b"?w1-?1".to_vec()];
    args.custom_charsets = vec![b"xy".to_vec()];
    args.wordlists = vec![b"pear\nfig\n\nkiwi\n".to_vec()];
    let outcome = run(&Command::Generate(args)).unwrap();
    assert_eq!(
        drain(outcome),
        b"fig-x\nfig-y\npear-x\npear-y\nkiwi-x\nkiwi-y\n".to_vec()
    );
}

#[test]
fn run_entropy_reports_both_models() {
    let args = EntropyArgs {
        smartlists: vec![b"helloworld\n".to_vec(), b"123\n!\n".to_vec()],
        costs: rank_costs(4),
        passwords: vec![b"helloworld123!".to_vec(), b"".to_vec()],
    };
    match run(&Command::Entropy(args)).unwrap() {
        Outcome::Entropy(reports) => {
            assert_eq!(reports.len(), 2);
            assert_eq!(
                reports[0].split,
                vec![b"helloworld".to_vec(), b"123".to_vec(), b"!".to_vec()]
            );
            assert_eq!(reports[0].split_cost, 0 + 65536 + 103872);
            assert_eq!(reports[0].hybrid_mask, b"helloworld123?s".to_vec());
            assert_eq!(reports[0].charset_mask, b"llllllllllddds".to_vec());
            assert_eq!(
                reports[0].mask_terms,
                vec![26, 26, 26, 26, 26, 26, 26, 26, 26, 26, 10, 10, 10, 33]
            );
            assert!(reports[1].split.is_empty());
            assert_eq!(reports[1].split_cost, 0);
        }
        _ => panic!("no reports"),
    }
}
