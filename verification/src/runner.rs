//! Running one command on inputs that were read beforehand.
//!
//! A command carries the contents of the files it names. Running it yields
//! what is to be written: a count, the generators to drain in order, or one
//! entropy report per password.

use vstd::prelude::*;
use crate::charsets::{charset_mask, class_of, classify, keyspace_of, tag, tag_of};
use crate::counting::window_count;
use crate::password_entropy::{
    all_entries, astar_route, compute_password_entropy, concat, is_entry, password_mask_cost,
    pieces, step_graph, MAX_PASSWORD_LEN,
};
use crate::generator::{lists_view, setup_of, total, WordGenerator};
use crate::lines::{lines_of, views};
use crate::mask::{GenError, QUERY};
use crate::smartlist::{merged_lines, rank_of, Smartlist};
use crate::wordlists::{shortest_first, Wordlist};

verus! {

/// What the generate command was asked.
#[derive(Debug)]
pub struct GenerateArgs {
    /// The masks, in the order in which their words are to come out.
    pub masks: Vec<Vec<u8>>,
    /// The least length of a word, if bounded.
    pub min_len: Option<usize>,
    /// The greatest length of a word, if bounded.
    pub max_len: Option<usize>,
    /// Whether only the number of words of the first mask is wanted.
    pub stats: bool,
    /// The custom charsets `?1`, `?2`, ...
    pub custom_charsets: Vec<Vec<u8>>,
    /// The contents of the wordlist files `?w1`, `?w2`, ...
    pub wordlists: Vec<Vec<u8>>,
}

/// What the entropy command was asked.
#[derive(Debug)]
pub struct EntropyArgs {
    /// The contents of the smartlist files, in order.
    pub smartlists: Vec<Vec<u8>>,
    /// The cost of each rank: `costs[r - 1]` for rank `r`.
    pub costs: Vec<u32>,
    /// The passwords to estimate.
    pub passwords: Vec<Vec<u8>>,
}

/// A command.
#[derive(Debug)]
pub enum Command {
    /// Generate the words of masks.
    Generate(GenerateArgs),
    /// Estimate the entropy of passwords.
    Entropy(EntropyArgs),
}

/// The entropy of one password under both models.
#[derive(Debug)]
pub struct EntropyReport {
    /// The cheapest segmentation into smartlist entries.
    pub split: Vec<Vec<u8>>,
    /// The rank of each segment.
    pub split_ranks: Vec<usize>,
    /// The cost of that segmentation.
    pub split_cost: u64,
    /// The mask of that segmentation: an entry of several bytes stands for
    /// itself, a single byte is `?` and the tag of its class.
    pub hybrid_mask: Vec<u8>,
    /// The tag of each byte's class.
    pub charset_mask: Vec<u8>,
    /// The keyspace of each byte's class.
    pub mask_terms: Vec<u64>,
}

/// What a command yields.
#[derive(Debug)]
pub enum Outcome {
    /// The number of words of the first mask, when it fits in 64 bits.
    Count(Option<u64>),
    /// One generator per mask, each before its first word.
    Words(Vec<WordGenerator>),
    /// One report per password.
    Entropy(Vec<EntropyReport>),
}

/// Why a command could not be run.
#[derive(Clone, Copy, Debug, PartialEq, Eq, Structural)]
pub enum RunError {
    /// A generator could not be set up.
    Generator(GenError),
    /// The smartlists hold more entries than ranks fit in a machine word.
    SmartlistTooLong,
    /// A password is longer than the solver takes.
    PasswordTooLong,
}

/// The wordlists held by the contents of wordlist files.
pub open spec fn loaded_lists(files: Seq<Seq<u8>>) -> Seq<Seq<Seq<u8>>> {
    Seq::new(files.len(), |i: int| shortest_first(lines_of(files[i])))
}

/// The first error among the first `upto` masks, in their order.
pub open spec fn first_failure(
    masks: Seq<Seq<u8>>,
    min_len: Option<usize>,
    max_len: Option<usize>,
    charsets: Seq<Seq<u8>>,
    wordlists: Seq<Seq<Seq<u8>>>,
    upto: nat,
) -> Option<GenError>
    decreases upto,
{
    if upto == 0 {
        None
    } else {
        match first_failure(masks, min_len, max_len, charsets, wordlists, (upto - 1) as nat) {
            Some(e) => Some(e),
            None => match setup_of(masks[upto - 1], min_len, max_len, charsets, wordlists) {
                Err(e) => Some(e),
                Ok(_) => None,
            },
        }
    }
}

/// The mask of a segmentation.
pub open spec fn hybrid_mask_of(parts: Seq<Seq<u8>>) -> Seq<u8>
    decreases parts.len(),
{
    if parts.len() == 0 {
        Seq::empty()
    } else {
        let last = parts.last();
        hybrid_mask_of(parts.drop_last()) + if last.len() == 1 {
            seq![QUERY, tag_of(class_of(last[0]))]
        } else {
            last
        }
    }
}

/// Whether `report` is the report on `pwd` for the smartlist loaded with
/// `words` and the rank costs `costs`.
pub open spec fn reports_on(
    report: EntropyReport,
    words: Seq<Seq<u8>>,
    costs: Seq<u32>,
    pwd: Seq<u8>,
) -> bool {
    let route = astar_route(step_graph(words, costs, pwd), pwd.len() as usize);
    &&& route is Some
    &&& report.split_cost == route.unwrap().1
    &&& views(report.split@) == pieces(pwd, route.unwrap().0)
    &&& concat(views(report.split@)) == pwd
    &&& report.split_ranks@.len() == report.split@.len()
    &&& forall|j: int|
        0 <= j < report.split@.len() ==> rank_of(words, #[trigger] report.split@[j]@) == Some(
            report.split_ranks@[j] as nat,
        )
    &&& report.hybrid_mask@ == hybrid_mask_of(views(report.split@))
    &&& report.charset_mask@ == Seq::new(pwd.len(), |i: int| tag_of(class_of(pwd[i])))
    &&& report.mask_terms@ == Seq::new(pwd.len(), |i: int| keyspace_of(class_of(pwd[i])))
}

/// What running the generate command must yield.
pub open spec fn generate_yields(args: GenerateArgs, out: Result<Outcome, RunError>) -> bool {
    let charsets = views(args.custom_charsets@);
    let lists = loaded_lists(views(args.wordlists@));
    let masks = views(args.masks@);
    if args.stats && masks.len() > 0 {
        match setup_of(masks[0], args.min_len, args.max_len, charsets, lists) {
            Err(e) => out == Err::<Outcome, RunError>(RunError::Generator(e)),
            Ok((table, lo, hi)) => {
                let exact = window_count(table, table.len(), lo as int, hi as int);
                match out {
                    Ok(Outcome::Count(Some(count))) => count == exact && total(table, table.len())
                        <= u64::MAX,
                    Ok(Outcome::Count(None)) => total(table, table.len()) > u64::MAX,
                    _ => false,
                }
            },
        }
    } else {
        match first_failure(masks, args.min_len, args.max_len, charsets, lists, masks.len()) {
            Some(e) => out == Err::<Outcome, RunError>(RunError::Generator(e)),
            None => match out {
                Ok(Outcome::Words(generators)) => generators@.len() == masks.len() && forall|
                    i: int,
                |
                    0 <= i < masks.len() ==> (#[trigger] generators@[i]).starts_from(
                        setup_of(masks[i], args.min_len, args.max_len, charsets, lists).unwrap(),
                    ),
                _ => false,
            },
        }
    }
}

/// What running the entropy command must yield.
pub open spec fn entropy_yields(args: EntropyArgs, out: Result<Outcome, RunError>) -> bool {
    let words = merged_lines(views(args.smartlists@));
    let passwords = views(args.passwords@);
    if words.len() >= usize::MAX {
        out == Err::<Outcome, RunError>(RunError::SmartlistTooLong)
    } else if exists|i: int|
        0 <= i < passwords.len() && (#[trigger] passwords[i]).len() >= MAX_PASSWORD_LEN {
        out == Err::<Outcome, RunError>(RunError::PasswordTooLong)
    } else {
        match out {
            Ok(Outcome::Entropy(reports)) => reports@.len() == passwords.len() && forall|i: int|
                0 <= i < passwords.len() ==> reports_on(
                    #[trigger] reports@[i],
                    words,
                    args.costs@,
                    passwords[i],
                ),
            _ => false,
        }
    }
}

/// The mask of a segmentation.
pub fn hybrid_mask(parts: &Vec<Vec<u8>>) -> (mask: Vec<u8>)
    ensures
        mask@ == hybrid_mask_of(views(parts@)),
{
    let mut mask: Vec<u8> = Vec::new();
    let mut i: usize = 0;
    assert(views(parts@).take(0) =~= Seq::<Seq<u8>>::empty());
    while i < parts.len()
        invariant
            i <= parts@.len(),
            mask@ == hybrid_mask_of(views(parts@).take(i as int)),
        decreases parts@.len() - i,
    {
        proof {
            let upto = views(parts@).take(i as int + 1);
            assert(upto.drop_last() =~= views(parts@).take(i as int));
            assert(upto.last() == parts@[i as int]@);
        }
        let ghost before = mask@;
        let part = &parts[i];
        if part.len() == 1 {
            mask.push(QUERY);
            mask.push(tag(classify(part[0])));
            assert(mask@ =~= before + seq![QUERY, tag_of(class_of(part@[0]))]);
        } else {
            mask.extend_from_slice(part.as_slice());
        }
        i += 1;
    }
    assert(views(parts@).take(parts@.len() as int) =~= views(parts@));
    mask
}

/// The report on one password.
pub fn estimate_password_entropy(smartlist: &Smartlist, costs: &Vec<u32>, pwd: &[u8]) -> (report:
    EntropyReport)
    requires
        pwd@.len() < MAX_PASSWORD_LEN,
    ensures
        reports_on(report, smartlist@, costs@, pwd@),
{
    let (split_cost, split) = compute_password_entropy(smartlist, costs, pwd);
    let mut split_ranks: Vec<usize> = Vec::new();
    let mut j: usize = 0;
    while j < split.len()
        invariant
            j <= split@.len(),
            all_entries(smartlist@, views(split@)),
            split_ranks@.len() == j,
            forall|k: int|
                0 <= k < j ==> rank_of(smartlist@, #[trigger] split@[k]@) == Some(
                    split_ranks@[k] as nat,
                ),
        decreases split@.len() - j,
    {
        assert(is_entry(smartlist@, views(split@)[j as int]));
        match smartlist.rank(split[j].as_slice()) {
            Some(rank) => {
                split_ranks.push(rank);
            },
            None => {
                split_ranks.push(0);
            },
        }
        j += 1;
    }
    let hybrid_mask = hybrid_mask(&split);
    let charset_mask = charset_mask(pwd);
    let mask_terms = password_mask_cost(pwd);
    EntropyReport { split, split_ranks, split_cost, hybrid_mask, charset_mask, mask_terms }
}

/// Loads the wordlists held by the contents of wordlist files.
pub fn load_wordlists(files: &Vec<Vec<u8>>) -> (lists: Vec<Wordlist>)
    ensures
        lists_view(lists@) == loaded_lists(views(files@)),
{
    let mut lists: Vec<Wordlist> = Vec::new();
    let mut i: usize = 0;
    while i < files.len()
        invariant
            i <= files@.len(),
            lists@.len() == i,
            forall|j: int|
                0 <= j < i ==> (#[trigger] lists@[j])@ == shortest_first(lines_of(files@[j]@)),
        decreases files@.len() - i,
    {
        lists.push(Wordlist::from_file(files[i].as_slice()));
        i += 1;
    }
    assert(lists_view(lists@) =~= loaded_lists(views(files@)));
    lists
}

/// Runs the generate command.
pub fn run_wordlist_generator(args: &GenerateArgs) -> (out: Result<Outcome, RunError>)
    ensures
        generate_yields(*args, out),
{
    let lists = load_wordlists(&args.wordlists);
    let ghost charsets = views(args.custom_charsets@);
    let ghost wordlists = loaded_lists(views(args.wordlists@));
    let ghost masks = views(args.masks@);
    let mut generators: Vec<WordGenerator> = Vec::new();
    let mut i: usize = 0;
    while i < args.masks.len()
        invariant
            i <= args.masks@.len(),
            masks == views(args.masks@),
            charsets == views(args.custom_charsets@),
            wordlists == lists_view(lists@),
            wordlists == loaded_lists(views(args.wordlists@)),
            generators@.len() == i,
            args.stats ==> i == 0,
            first_failure(masks, args.min_len, args.max_len, charsets, wordlists, i as nat)
                is None,
            forall|j: int|
                0 <= j < i ==> (#[trigger] generators@[j]).starts_from(
                    setup_of(masks[j], args.min_len, args.max_len, charsets, wordlists).unwrap(),
                ),
        decreases args.masks@.len() - i,
    {
        assert(masks[i as int] == args.masks@[i as int]@);
        let generator = match WordGenerator::new(
            args.masks[i].as_slice(),
            args.min_len,
            args.max_len,
            &args.custom_charsets,
            &lists,
        ) {
            Ok(generator) => generator,
            Err(e) => {
                proof {
                    lemma_first_failure_stays(
                        masks,
                        args.min_len,
                        args.max_len,
                        charsets,
                        wordlists,
                        (i + 1) as nat,
                        masks.len(),
                    );
                }
                return Err(RunError::Generator(e));
            },
        };
        if args.stats {
            return Ok(Outcome::Count(generator.combinations()));
        }
        generators.push(generator);
        i += 1;
    }
    Ok(Outcome::Words(generators))
}

/// An error among the first masks stays the first error when more masks
/// follow.
pub proof fn lemma_first_failure_stays(
    masks: Seq<Seq<u8>>,
    min_len: Option<usize>,
    max_len: Option<usize>,
    charsets: Seq<Seq<u8>>,
    wordlists: Seq<Seq<Seq<u8>>>,
    m: nat,
    n: nat,
)
    requires
        m <= n,
        first_failure(masks, min_len, max_len, charsets, wordlists, m) is Some,
    ensures
        first_failure(masks, min_len, max_len, charsets, wordlists, n) == first_failure(
            masks,
            min_len,
            max_len,
            charsets,
            wordlists,
            m,
        ),
    decreases n,
{
    if m < n {
        lemma_first_failure_stays(masks, min_len, max_len, charsets, wordlists, m, (n - 1) as nat);
    }
}

/// Runs the entropy command.
pub fn run_entropy_estimator(args: &EntropyArgs) -> (out: Result<Outcome, RunError>)
    ensures
        entropy_yields(*args, out),
{
    let smartlist = match Smartlist::from_files(&args.smartlists) {
        Some(smartlist) => smartlist,
        None => {
            return Err(RunError::SmartlistTooLong);
        },
    };
    let ghost passwords = views(args.passwords@);
    let mut i: usize = 0;
    while i < args.passwords.len()
        invariant
            i <= args.passwords@.len(),
            passwords == views(args.passwords@),
            smartlist@ == merged_lines(views(args.smartlists@)),
            smartlist@.len() < usize::MAX,
            forall|j: int| 0 <= j < i ==> (#[trigger] passwords[j]).len() < MAX_PASSWORD_LEN,
        decreases args.passwords@.len() - i,
    {
        assert(passwords[i as int] == args.passwords@[i as int]@);
        if args.passwords[i].len() >= MAX_PASSWORD_LEN {
            assert(0 <= i < passwords.len() && passwords[i as int].len() >= MAX_PASSWORD_LEN);
            return Err(RunError::PasswordTooLong);
        }
        i += 1;
    }
    let mut reports: Vec<EntropyReport> = Vec::new();
    i = 0;
    while i < args.passwords.len()
        invariant
            i <= args.passwords@.len(),
            passwords == views(args.passwords@),
            smartlist@ == merged_lines(views(args.smartlists@)),
            smartlist@.len() < usize::MAX,
            forall|j: int|
                0 <= j < passwords.len() ==> (#[trigger] passwords[j]).len() < MAX_PASSWORD_LEN,
            reports@.len() == i,
            forall|j: int|
                0 <= j < i ==> reports_on(
                    #[trigger] reports@[j],
                    smartlist@,
                    args.costs@,
                    passwords[j],
                ),
        decreases args.passwords@.len() - i,
    {
        assert(passwords[i as int] == args.passwords@[i as int]@);
        reports.push(
            estimate_password_entropy(&smartlist, &args.costs, args.passwords[i].as_slice()),
        );
        i += 1;
    }
    Ok(Outcome::Entropy(reports))
}

/// Runs a command.
pub fn run(command: &Command) -> (out: Result<Outcome, RunError>)
    ensures
        match *command {
            Command::Generate(args) => generate_yields(args, out),
            Command::Entropy(args) => entropy_yields(args, out),
        },
{
    match command {
        Command::Generate(args) => run_wordlist_generator(args),
        Command::Entropy(args) => run_entropy_estimator(args),
    }
}

} // verus!
