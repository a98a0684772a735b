//! The command line: what it asks for, or what is wrong with it.
use vstd::prelude::*;

use crate::number::number_value;
use crate::number::parse_number;
use crate::text::chars_of;
use crate::text::concatenated;
use crate::text::join;
use crate::text::same_text;
use crate::text::starts_with;
use crate::text::texts;

verus! {

/// How many results a search returns unless told otherwise.
pub const DEFAULT_SEARCH_LIMIT: usize = 8;

/// How many milliseconds a search waits for a provider unless told otherwise.
pub const DEFAULT_TIMEOUT_MS: u64 = 900;

/// How many pages a deep search fetches unless told otherwise.
pub const DEFAULT_DEEP_LIMIT: usize = 3;

/// What the command line asks for.
#[derive(Debug)]
pub enum Command {
    Convert { url: String, verbose: bool },
    Search(SearchOptions),
}

/// What a search is asked for.
#[derive(Debug)]
pub struct SearchOptions {
    pub query: String,
    pub limit: usize,
    pub timeout_ms: u64,
    pub json: bool,
    pub llm: bool,
    pub deep: bool,
    pub deep_limit: usize,
    pub verbose: bool,
}

impl Clone for SearchOptions {
    fn clone(&self) -> (res: Self)
        ensures
            res == *self,
    {
        SearchOptions { query: self.query.clone(), ..*self }
    }
}

/// A flag that takes a value.
#[derive(Debug, Clone, Copy, PartialEq, Eq, Structural)]
pub enum ValueFlag {
    Limit,
    TimeoutMs,
    DeepLimit,
}

/// What is wrong with a command line.
#[derive(Debug)]
pub enum CommandError {
    MissingArguments,
    MissingUrl,
    MissingQuery,
    MissingValue(ValueFlag),
    InvalidValue(ValueFlag, String),
    UnknownFlag(String),
    ZeroLimit,
    ZeroDeepLimit,
}

/// The model of `Command`.
pub enum CommandModel {
    Convert { url: Seq<char>, verbose: bool },
    Search(OptionsModel),
}

/// The model of `SearchOptions`.
pub struct OptionsModel {
    pub query: Seq<char>,
    pub limit: usize,
    pub timeout_ms: u64,
    pub json: bool,
    pub llm: bool,
    pub deep: bool,
    pub deep_limit: usize,
    pub verbose: bool,
}

/// The model of `CommandError`.
pub enum ErrorModel {
    MissingArguments,
    MissingUrl,
    MissingQuery,
    MissingValue(ValueFlag),
    InvalidValue(ValueFlag, Seq<char>),
    UnknownFlag(Seq<char>),
    ZeroLimit,
    ZeroDeepLimit,
}

impl View for SearchOptions {
    type V = OptionsModel;

    open spec fn view(&self) -> OptionsModel {
        OptionsModel {
            query: self.query@,
            limit: self.limit,
            timeout_ms: self.timeout_ms,
            json: self.json,
            llm: self.llm,
            deep: self.deep,
            deep_limit: self.deep_limit,
            verbose: self.verbose,
        }
    }
}

impl View for Command {
    type V = CommandModel;

    open spec fn view(&self) -> CommandModel {
        match *self {
            Command::Convert { url, verbose } => CommandModel::Convert { url: url@, verbose },
            Command::Search(options) => CommandModel::Search(options@),
        }
    }
}

impl View for CommandError {
    type V = ErrorModel;

    open spec fn view(&self) -> ErrorModel {
        match *self {
            CommandError::MissingArguments => ErrorModel::MissingArguments,
            CommandError::MissingUrl => ErrorModel::MissingUrl,
            CommandError::MissingQuery => ErrorModel::MissingQuery,
            CommandError::MissingValue(flag) => ErrorModel::MissingValue(flag),
            CommandError::InvalidValue(flag, value) => ErrorModel::InvalidValue(flag, value@),
            CommandError::UnknownFlag(flag) => ErrorModel::UnknownFlag(flag@),
            CommandError::ZeroLimit => ErrorModel::ZeroLimit,
            CommandError::ZeroDeepLimit => ErrorModel::ZeroDeepLimit,
        }
    }
}

/// The model of the outcome of reading a command line.
pub open spec fn outcome(res: Result<Command, CommandError>) -> Result<CommandModel, ErrorModel> {
    match res {
        Ok(command) => Ok(command@),
        Err(error) => Err(error@),
    }
}

/// What the arguments of a search have said so far.
pub struct Scan {
    pub limit: usize,
    pub timeout_ms: u64,
    pub json: bool,
    pub llm: bool,
    pub deep: bool,
    pub deep_limit: usize,
    pub verbose: bool,
    pub terms: Seq<Seq<char>>,
}

/// What holds before any argument of a search is read.
pub open spec fn scan_start() -> Scan {
    Scan {
        limit: DEFAULT_SEARCH_LIMIT,
        timeout_ms: DEFAULT_TIMEOUT_MS,
        json: false,
        llm: false,
        deep: false,
        deep_limit: DEFAULT_DEEP_LIMIT,
        verbose: false,
        terms: Seq::empty(),
    }
}

/// The flag that takes a value and is written `arg`.
pub open spec fn value_flag(arg: Seq<char>) -> Option<ValueFlag> {
    if arg == "--limit"@ {
        Some(ValueFlag::Limit)
    } else if arg == "--timeout-ms"@ {
        Some(ValueFlag::TimeoutMs)
    } else if arg == "--deep-limit"@ {
        Some(ValueFlag::DeepLimit)
    } else {
        None
    }
}

/// The largest value that a flag takes.
pub open spec fn largest(flag: ValueFlag) -> nat {
    match flag {
        ValueFlag::Limit => usize::MAX as nat,
        ValueFlag::TimeoutMs => u64::MAX as nat,
        ValueFlag::DeepLimit => usize::MAX as nat,
    }
}

/// What holds once a flag has got its value.
pub open spec fn with_value(scan: Scan, flag: ValueFlag, value: nat) -> Scan {
    match flag {
        ValueFlag::Limit => Scan { limit: value as usize, ..scan },
        ValueFlag::TimeoutMs => Scan { timeout_ms: value as u64, ..scan },
        ValueFlag::DeepLimit => Scan { deep_limit: value as usize, ..scan },
    }
}

/// What holds once an argument that is neither a flag with a value nor its value has been read.
pub open spec fn with_word(scan: Scan, arg: Seq<char>) -> Result<Scan, ErrorModel> {
    if arg == "--json"@ {
        Ok(Scan { json: true, ..scan })
    } else if arg == "--llm"@ {
        Ok(Scan { llm: true, ..scan })
    } else if arg == "--deep"@ {
        Ok(Scan { deep: true, ..scan })
    } else if arg == "--verbose"@ || arg == "-v"@ {
        Ok(Scan { verbose: true, ..scan })
    } else if "-"@.is_prefix_of(arg) {
        Err(ErrorModel::UnknownFlag(arg))
    } else {
        Ok(Scan { terms: scan.terms.push(arg), ..scan })
    }
}

/// What holds once the arguments `args` have been read.
pub open spec fn scanned(args: Seq<Seq<char>>, scan: Scan) -> Result<Scan, ErrorModel>
    decreases args.len(),
{
    if args.len() == 0 {
        Ok(scan)
    } else {
        match value_flag(args[0]) {
            Some(flag) => if args.len() == 1 {
                Err(ErrorModel::MissingValue(flag))
            } else {
                match number_value(args[1], 10, largest(flag)) {
                    Some(value) => scanned(args.skip(2), with_value(scan, flag, value)),
                    None => Err(ErrorModel::InvalidValue(flag, args[1])),
                }
            },
            None => match with_word(scan, args[0]) {
                Ok(next) => scanned(args.skip(1), next),
                Err(error) => Err(error),
            },
        }
    }
}

/// What the command line `args` of a search asks for. The first two arguments are the program
/// and the word `search`.
pub open spec fn search_command(args: Seq<Seq<char>>) -> Result<CommandModel, ErrorModel> {
    if args.len() <= 2 {
        Err(ErrorModel::MissingQuery)
    } else {
        match scanned(args.skip(2), scan_start()) {
            Err(error) => Err(error),
            Ok(scan) => if scan.terms.len() == 0 {
                Err(ErrorModel::MissingQuery)
            } else if scan.limit == 0 {
                Err(ErrorModel::ZeroLimit)
            } else if scan.deep_limit == 0 {
                Err(ErrorModel::ZeroDeepLimit)
            } else {
                Ok(
                    CommandModel::Search(
                        OptionsModel {
                            query: join(scan.terms, " "@),
                            limit: scan.limit,
                            timeout_ms: scan.timeout_ms,
                            json: scan.json,
                            llm: scan.llm,
                            deep: scan.deep,
                            deep_limit: scan.deep_limit,
                            verbose: scan.verbose,
                        },
                    ),
                )
            },
        }
    }
}

/// The first of `args` that does not begin with a hyphen.
pub open spec fn first_plain(args: Seq<Seq<char>>) -> Option<Seq<char>>
    decreases args.len(),
{
    if args.len() == 0 {
        None
    } else if !"-"@.is_prefix_of(args[0]) {
        Some(args[0])
    } else {
        first_plain(args.skip(1))
    }
}

/// Whether one of `args` asks for more output.
pub open spec fn asks_verbose(args: Seq<Seq<char>>) -> bool {
    args.contains("--verbose"@) || args.contains("-v"@)
}

/// What the command line `args` asks for. The first argument is the program.
pub open spec fn command(args: Seq<Seq<char>>) -> Result<CommandModel, ErrorModel> {
    if args.len() <= 1 {
        Err(ErrorModel::MissingArguments)
    } else if args[1] == "search"@ {
        search_command(args)
    } else {
        match first_plain(args.skip(1)) {
            Some(url) => Ok(CommandModel::Convert { url, verbose: asks_verbose(args.skip(1)) }),
            None => Err(ErrorModel::MissingUrl),
        }
    }
}

/// The number that a flag's value writes.
fn flag_value(value: &str, max: u64) -> (res: Option<u64>)
    ensures
        match res {
            Some(v) => number_value(value@, 10, max as nat) == Some(v as nat) && v <= max,
            None => number_value(value@, 10, max as nat) is None,
        },
{
    let cs = chars_of(value);
    let n: usize = cs.len();
    assert(cs@.subrange(0, n as int) =~= value@);
    parse_number(&cs, 0, n, 10, max)
}

/// The flag that takes a value and is written `arg`.
fn find_value_flag(arg: &str) -> (res: Option<ValueFlag>)
    ensures
        res == value_flag(arg@),
{
    if same_text(arg, "--limit") {
        Some(ValueFlag::Limit)
    } else if same_text(arg, "--timeout-ms") {
        Some(ValueFlag::TimeoutMs)
    } else if same_text(arg, "--deep-limit") {
        Some(ValueFlag::DeepLimit)
    } else {
        None
    }
}

/// What the command line of a search asks for.
pub fn parse_search_command(args: &[String]) -> (res: Result<Command, CommandError>)
    ensures
        outcome(res) == search_command(texts(args@)),
{
    if args.len() <= 2 {
        return Err(CommandError::MissingQuery);
    }
    let ghost all = texts(args@);
    let mut limit: usize = DEFAULT_SEARCH_LIMIT;
    let mut timeout_ms: u64 = DEFAULT_TIMEOUT_MS;
    let mut json: bool = false;
    let mut llm: bool = false;
    let mut deep: bool = false;
    let mut deep_limit: usize = DEFAULT_DEEP_LIMIT;
    let mut verbose: bool = false;
    let mut query = String::new();
    let mut terms: usize = 0;
    let ghost mut scan = scan_start();
    let mut i: usize = 2;
    while i < args.len()
        invariant
            2 <= i <= args@.len(),
            args@.len() > 2,
            all == texts(args@),
            scan.limit == limit,
            scan.timeout_ms == timeout_ms,
            scan.json == json,
            scan.llm == llm,
            scan.deep == deep,
            scan.deep_limit == deep_limit,
            scan.verbose == verbose,
            scan.terms.len() == terms,
            terms <= i,
            query@ == join(scan.terms, " "@),
            scanned(all.skip(2), scan_start()) == scanned(all.skip(i as int), scan),
        decreases args@.len() - i,
    {
        let arg: &str = args[i].as_str();
        let ghost rest = all.skip(i as int);
        let ghost before = scan;
        assert(rest[0] == arg@);
        if let Some(flag) = find_value_flag(arg) {
            if i + 1 >= args.len() {
                return Err(CommandError::MissingValue(flag));
            }
            let value: &str = args[i + 1].as_str();
            assert(rest[1] == value@);
            let max: u64 = match flag {
                ValueFlag::Limit => usize::MAX as u64,
                ValueFlag::TimeoutMs => u64::MAX,
                ValueFlag::DeepLimit => usize::MAX as u64,
            };
            let v: u64 = match flag_value(value, max) {
                Some(v) => v,
                None => {
                    return Err(CommandError::InvalidValue(flag, value.to_owned()));
                },
            };
            match flag {
                ValueFlag::Limit => {
                    limit = v as usize;
                },
                ValueFlag::TimeoutMs => {
                    timeout_ms = v;
                },
                ValueFlag::DeepLimit => {
                    deep_limit = v as usize;
                },
            }
            proof {
                scan = with_value(scan, flag, v as nat);
                assert(rest.skip(2) =~= all.skip(i + 2));
            }
            i += 2;
        } else {
            if same_text(arg, "--json") {
                json = true;
            } else if same_text(arg, "--llm") {
                llm = true;
            } else if same_text(arg, "--deep") {
                deep = true;
            } else if same_text(arg, "--verbose") || same_text(arg, "-v") {
                verbose = true;
            } else if starts_with(arg, "-") {
                return Err(CommandError::UnknownFlag(arg.to_owned()));
            } else {
                if terms > 0 {
                    query.push_str(" ");
                }
                query.push_str(arg);
                terms += 1;
                assert(scan.terms.push(arg@).drop_last() =~= scan.terms);
                assert(query@ =~= join(scan.terms.push(arg@), " "@));
            }
            proof {
                scan = with_word(scan, arg@)->Ok_0;
                assert(rest.skip(1) =~= all.skip(i + 1));
            }
            i += 1;
        }
    }
    if terms == 0 {
        return Err(CommandError::MissingQuery);
    }
    if limit == 0 {
        return Err(CommandError::ZeroLimit);
    }
    if deep_limit == 0 {
        return Err(CommandError::ZeroDeepLimit);
    }
    Ok(
        Command::Search(
            SearchOptions { query, limit, timeout_ms, json, llm, deep, deep_limit, verbose },
        ),
    )
}

/// What the command line asks for.
pub fn parse_command(args: &[String]) -> (res: Result<Command, CommandError>)
    ensures
        outcome(res) == command(texts(args@)),
{
    let ghost all = texts(args@);
    if args.len() <= 1 {
        return Err(CommandError::MissingArguments);
    }
    assert(all[1] == args@[1]@);
    if same_text(args[1].as_str(), "search") {
        return parse_search_command(args);
    }
    let mut verbose: bool = false;
    let mut i: usize = 1;
    while i < args.len()
        invariant
            1 <= i <= args@.len(),
            all == texts(args@),
            verbose == asks_verbose(all.subrange(1, i as int)),
        decreases args@.len() - i,
    {
        let ghost seen = all.subrange(1, i as int);
        let ghost next = all.subrange(1, i + 1);
        assert(next =~= seen.push(args@[i as int]@));
        proof {
            let arg = args@[i as int]@;
            assert(next[i - 1] == arg);
            assert forall|x: Seq<char>| seen.contains(x) implies next.contains(x) by {
                let k = choose|k: int| 0 <= k < seen.len() && seen[k] == x;
                assert(next[k] == x);
            }
            assert forall|x: Seq<char>| next.contains(x) && x != arg implies seen.contains(x) by {
                let k = choose|k: int| 0 <= k < next.len() && next[k] == x;
                assert(seen[k] == x);
            }
        }
        if same_text(args[i].as_str(), "--verbose") || same_text(args[i].as_str(), "-v") {
            verbose = true;
        }
        i += 1;
    }
    assert(all.subrange(1, i as int) =~= all.skip(1));
    let mut k: usize = 1;
    while k < args.len()
        invariant
            1 <= k <= args@.len(),
            all == texts(args@),
            all[1] != "search"@,
            verbose == asks_verbose(all.skip(1)),
            first_plain(all.skip(1)) == first_plain(all.skip(k as int)),
        decreases args@.len() - k,
    {
        let ghost rest = all.skip(k as int);
        assert(rest[0] == args@[k as int]@);
        if !starts_with(args[k].as_str(), "-") {
            return Ok(Command::Convert { url: args[k].clone(), verbose });
        }
        assert(rest.skip(1) =~= all.skip(k + 1));
        k += 1;
    }
    Err(CommandError::MissingUrl)
}

/// How a flag that takes a value is written.
pub open spec fn flag_text(flag: ValueFlag) -> Seq<char> {
    match flag {
        ValueFlag::Limit => "--limit"@,
        ValueFlag::TimeoutMs => "--timeout-ms"@,
        ValueFlag::DeepLimit => "--deep-limit"@,
    }
}

/// What the user is told of an error.
pub open spec fn error_text(error: ErrorModel) -> Seq<char> {
    match error {
        ErrorModel::MissingArguments => "Missing command arguments."@,
        ErrorModel::MissingUrl => "Missing URL argument."@,
        ErrorModel::MissingQuery => "Missing search query."@,
        ErrorModel::MissingValue(flag) => flag_text(flag) + " requires a value."@,
        ErrorModel::InvalidValue(flag, value) => "Invalid "@ + flag_text(flag) + " value: "@
            + value,
        ErrorModel::UnknownFlag(flag) => "Unknown search flag: "@ + flag,
        ErrorModel::ZeroLimit => "--limit must be greater than zero."@,
        ErrorModel::ZeroDeepLimit => "--deep-limit must be greater than zero."@,
    }
}

impl ValueFlag {
    /// How the flag is written.
    pub fn text(self) -> (res: String)
        ensures
            res@ == flag_text(self),
            value_flag(res@) == Some(self),
    {
        proof {
            lemma_flags();
        }
        match self {
            ValueFlag::Limit => "--limit".to_owned(),
            ValueFlag::TimeoutMs => "--timeout-ms".to_owned(),
            ValueFlag::DeepLimit => "--deep-limit".to_owned(),
        }
    }
}

impl CommandError {
    /// What the user is told.
    pub fn message(&self) -> (res: String)
        ensures
            res@ == error_text(self@),
            match *self {
                CommandError::MissingArguments => res@ == "Missing command arguments."@,
                CommandError::MissingUrl => res@ == "Missing URL argument."@,
                CommandError::MissingQuery => res@ == "Missing search query."@,
                CommandError::MissingValue(ValueFlag::Limit) => res@
                    == "--limit requires a value."@,
                CommandError::MissingValue(ValueFlag::TimeoutMs) => res@
                    == "--timeout-ms requires a value."@,
                CommandError::MissingValue(ValueFlag::DeepLimit) => res@
                    == "--deep-limit requires a value."@,
                CommandError::InvalidValue(ValueFlag::Limit, value) => res@
                    == "Invalid --limit value: "@ + value@,
                CommandError::InvalidValue(ValueFlag::TimeoutMs, value) => res@
                    == "Invalid --timeout-ms value: "@ + value@,
                CommandError::InvalidValue(ValueFlag::DeepLimit, value) => res@
                    == "Invalid --deep-limit value: "@ + value@,
                CommandError::UnknownFlag(flag) => res@ == "Unknown search flag: "@ + flag@,
                CommandError::ZeroLimit => res@ == "--limit must be greater than zero."@,
                CommandError::ZeroDeepLimit => res@ == "--deep-limit must be greater than zero."@,
            },
    {
        proof {
            lemma_messages();
        }
        match self {
            CommandError::MissingArguments => "Missing command arguments.".to_owned(),
            CommandError::MissingUrl => "Missing URL argument.".to_owned(),
            CommandError::MissingQuery => "Missing search query.".to_owned(),
            CommandError::MissingValue(flag) => concatenated(flag.text().as_str(), " requires a value."),
            CommandError::InvalidValue(flag, value) => {
                let mut text = concatenated("Invalid ", flag.text().as_str());
                text.push_str(" value: ");
                text.push_str(value.as_str());
                text
            },
            CommandError::UnknownFlag(flag) => concatenated("Unknown search flag: ", flag.as_str()),
            CommandError::ZeroLimit => "--limit must be greater than zero.".to_owned(),
            CommandError::ZeroDeepLimit => "--deep-limit must be greater than zero.".to_owned(),
        }
    }
}

/// How the program `bin` is used.
pub open spec fn usage(bin: Seq<char>) -> Seq<char> {
    "blitzmd - blazing-fast URL to Markdown converter + web search\n\nUsage:\n  "@ + bin
        + " [--verbose] <URL>\n  "@ + bin
        + " search [--limit N] [--timeout-ms MS] [--json] [--llm] [--deep] [--deep-limit N] [--verbose] <query>\n"@
}

/// How the program `bin` is used.
pub fn usage_text(bin: &str) -> (res: String)
    ensures
        res@ == usage(bin@),
        res@ == "blitzmd - blazing-fast URL to Markdown converter + web search\n\nUsage:\n  "@ + bin@
            + " [--verbose] <URL>\n  "@ + bin@
            + " search [--limit N] [--timeout-ms MS] [--json] [--llm] [--deep] [--deep-limit N] [--verbose] <query>\n"@,
{
    let mut text = String::new();
    text.push_str("blitzmd - blazing-fast URL to Markdown converter + web search\n\nUsage:\n  ");
    text.push_str(bin);
    text.push_str(" [--verbose] <URL>\n  ");
    text.push_str(bin);
    text.push_str(
        " search [--limit N] [--timeout-ms MS] [--json] [--llm] [--deep] [--deep-limit N] [--verbose] <query>\n",
    );
    assert(text@ =~= usage(bin@));
    text
}

/// Whom a search prints its results for.
#[derive(Debug, Clone, Copy, PartialEq, Eq, Structural)]
pub enum Audience {
    Program,
    LanguageModel,
    Person,
}

/// Whom a search prints its results for: a program where it was asked for JSON, whatever else it
/// was asked for.
pub open spec fn audience_of(options: OptionsModel) -> Audience {
    if options.json {
        Audience::Program
    } else if options.llm {
        Audience::LanguageModel
    } else {
        Audience::Person
    }
}

impl SearchOptions {
    /// Whom the search prints its results for.
    pub fn audience(&self) -> (res: Audience)
        ensures
            res == audience_of(self@),
            res == Audience::Program <==> self.json,
            res == Audience::LanguageModel <==> self.llm && !self.json,
    {
        if self.json {
            Audience::Program
        } else if self.llm {
            Audience::LanguageModel
        } else {
            Audience::Person
        }
    }
}

// Laws.

/// How the flags are written, letter by letter.
proof fn lemma_flags()
    ensures
        "--limit"@.len() == 7,
        "--timeout-ms"@.len() == 12 && "--timeout-ms"@[2] == 't',
        "--deep-limit"@.len() == 12 && "--deep-limit"@[2] == 'd',
        "--json"@.len() == 6 && "--json"@[2] == 'j',
        "--deep"@.len() == 6 && "--deep"@[2] == 'd',
        "--llm"@.len() == 5,
        "--verbose"@.len() == 9,
        "-v"@.len() == 2,
        "-"@.len() == 1 && "-"@[0] == '-',
{
    reveal_strlit("--limit");
    reveal_strlit("--timeout-ms");
    reveal_strlit("--deep-limit");
    reveal_strlit("--json");
    reveal_strlit("--deep");
    reveal_strlit("--llm");
    reveal_strlit("--verbose");
    reveal_strlit("-v");
    reveal_strlit("-");
}

/// What is said of a flag has its name in it.
proof fn lemma_messages()
    ensures
        "--limit"@ + " requires a value."@ == "--limit requires a value."@,
        "--timeout-ms"@ + " requires a value."@ == "--timeout-ms requires a value."@,
        "--deep-limit"@ + " requires a value."@ == "--deep-limit requires a value."@,
        "Invalid "@ + "--limit"@ + " value: "@ == "Invalid --limit value: "@,
        "Invalid "@ + "--timeout-ms"@ + " value: "@ == "Invalid --timeout-ms value: "@,
        "Invalid "@ + "--deep-limit"@ + " value: "@ == "Invalid --deep-limit value: "@,
{
    reveal_strlit("--limit");
    reveal_strlit("--timeout-ms");
    reveal_strlit("--deep-limit");
    reveal_strlit(" requires a value.");
    reveal_strlit("Invalid ");
    reveal_strlit(" value: ");
    reveal_strlit("--limit requires a value.");
    reveal_strlit("--timeout-ms requires a value.");
    reveal_strlit("--deep-limit requires a value.");
    reveal_strlit("Invalid --limit value: ");
    reveal_strlit("Invalid --timeout-ms value: ");
    reveal_strlit("Invalid --deep-limit value: ");
    assert("--limit"@ + " requires a value."@ =~= "--limit requires a value."@);
    assert("--timeout-ms"@ + " requires a value."@ =~= "--timeout-ms requires a value."@);
    assert("--deep-limit"@ + " requires a value."@ =~= "--deep-limit requires a value."@);
    assert("Invalid "@ + "--limit"@ + " value: "@ =~= "Invalid --limit value: "@);
    assert("Invalid "@ + "--timeout-ms"@ + " value: "@ =~= "Invalid --timeout-ms value: "@);
    assert("Invalid "@ + "--deep-limit"@ + " value: "@ =~= "Invalid --deep-limit value: "@);
}

/// A search that is told nothing else returns eight results, waits nine hundred milliseconds, and
/// would fetch three pages; it is not deep, says little, and prints for a person.
pub proof fn law_defaults()
    ensures
        ({
            let s = scan_start();
            &&& s.limit == 8 && s.timeout_ms == 900 && s.deep_limit == 3
            &&& !s.json && !s.llm && !s.deep && !s.verbose
            &&& s.terms == Seq::<Seq<char>>::empty()
        }),
{
}

/// What one argument of a search does: a switch is switched on, a word becomes the next word of
/// the query, and a flag that is not known is an error.
pub proof fn law_one_argument(arg: Seq<char>, rest: Seq<Seq<char>>, scan: Scan)
    requires
        arg != "--limit"@ && arg != "--timeout-ms"@ && arg != "--deep-limit"@,
    ensures
        ({
            let out = scanned(seq![arg] + rest, scan);
            &&& arg == "--json"@ ==> out == scanned(rest, Scan { json: true, ..scan })
            &&& arg == "--llm"@ ==> out == scanned(rest, Scan { llm: true, ..scan })
            &&& arg == "--deep"@ ==> out == scanned(rest, Scan { deep: true, ..scan })
            &&& arg == "--verbose"@ || arg == "-v"@ ==> out == scanned(
                rest,
                Scan { verbose: true, ..scan },
            )
            &&& arg.len() == 0 || arg[0] != '-' ==> out == scanned(
                rest,
                Scan { terms: scan.terms.push(arg), ..scan },
            )
            &&& arg.len() > 0 && arg[0] == '-' && arg != "--json"@ && arg != "--llm"@ && arg
                != "--deep"@ && arg != "--verbose"@ && arg != "-v"@ ==> out == Err::<
                Scan,
                ErrorModel,
            >(ErrorModel::UnknownFlag(arg))
        }),
{
    lemma_flags();
    lemma_hyphen(arg);
    lemma_hyphen("--json"@);
    lemma_hyphen("--llm"@);
    lemma_hyphen("--deep"@);
    lemma_hyphen("--verbose"@);
    lemma_hyphen("-v"@);
    reveal_strlit("--json");
    reveal_strlit("--llm");
    reveal_strlit("--deep");
    reveal_strlit("--verbose");
    reveal_strlit("-v");
    assert("--json"@[0] == '-' && "--llm"@[0] == '-' && "--deep"@[0] == '-' && "--verbose"@[0]
        == '-' && "-v"@[0] == '-');
    let all = seq![arg] + rest;
    assert(all[0] == arg);
    assert(all.skip(1) =~= rest);
}

/// An argument begins with a hyphen where its first character is one.
proof fn lemma_hyphen(arg: Seq<char>)
    ensures
        "-"@.is_prefix_of(arg) <==> arg.len() > 0 && arg[0] == '-',
{
    reveal_strlit("-");
    if arg.len() > 0 {
        assert(arg.subrange(0, 1)[0] == arg[0]);
        if arg[0] == '-' {
            assert("-"@ =~= arg.subrange(0, 1));
        }
    }
}

/// What a flag and its value do: the value is set to the number that is written behind the flag,
/// where it is one that fits; otherwise, and where nothing is written behind it, that is an error.
pub proof fn law_flag_with_value(value: Seq<char>, rest: Seq<Seq<char>>, scan: Scan)
    ensures
        scanned(seq!["--limit"@], scan) == Err::<Scan, ErrorModel>(
            ErrorModel::MissingValue(ValueFlag::Limit),
        ),
        scanned(seq!["--timeout-ms"@], scan) == Err::<Scan, ErrorModel>(
            ErrorModel::MissingValue(ValueFlag::TimeoutMs),
        ),
        scanned(seq!["--deep-limit"@], scan) == Err::<Scan, ErrorModel>(
            ErrorModel::MissingValue(ValueFlag::DeepLimit),
        ),
        scanned(seq!["--limit"@, value] + rest, scan) == (match number_value(
            value,
            10,
            usize::MAX as nat,
        ) {
            Some(n) => scanned(rest, Scan { limit: n as usize, ..scan }),
            None => Err(ErrorModel::InvalidValue(ValueFlag::Limit, value)),
        }),
        scanned(seq!["--timeout-ms"@, value] + rest, scan) == (match number_value(
            value,
            10,
            u64::MAX as nat,
        ) {
            Some(n) => scanned(rest, Scan { timeout_ms: n as u64, ..scan }),
            None => Err(ErrorModel::InvalidValue(ValueFlag::TimeoutMs, value)),
        }),
        scanned(seq!["--deep-limit"@, value] + rest, scan) == (match number_value(
            value,
            10,
            usize::MAX as nat,
        ) {
            Some(n) => scanned(rest, Scan { deep_limit: n as usize, ..scan }),
            None => Err(ErrorModel::InvalidValue(ValueFlag::DeepLimit, value)),
        }),
{
    lemma_flags();
    let a = seq!["--limit"@, value] + rest;
    let b = seq!["--timeout-ms"@, value] + rest;
    let c = seq!["--deep-limit"@, value] + rest;
    assert(a.skip(2) =~= rest && b.skip(2) =~= rest && c.skip(2) =~= rest);
    assert(a[0] == "--limit"@ && a[1] == value);
    assert(b[0] == "--timeout-ms"@ && b[1] == value);
    assert(c[0] == "--deep-limit"@ && c[1] == value);
}

/// What a search asks for once all of its arguments are read: what they have set, and their words
/// with a space between them as the query. It needs a word, and none of its limits may be zero.
pub proof fn law_search_command(args: Seq<Seq<char>>)
    ensures
        args.len() <= 2 ==> search_command(args) == Err::<CommandModel, ErrorModel>(
            ErrorModel::MissingQuery,
        ),
        args.len() > 2 ==> match scanned(args.skip(2), scan_start()) {
            Err(error) => search_command(args) == Err::<CommandModel, ErrorModel>(error),
            Ok(scan) => {
                &&& scan.terms.len() == 0 ==> search_command(args) == Err::<
                    CommandModel,
                    ErrorModel,
                >(ErrorModel::MissingQuery)
                &&& scan.terms.len() > 0 && scan.limit == 0 ==> search_command(args) == Err::<
                    CommandModel,
                    ErrorModel,
                >(ErrorModel::ZeroLimit)
                &&& scan.terms.len() > 0 && scan.limit > 0 && scan.deep_limit == 0
                    ==> search_command(args) == Err::<CommandModel, ErrorModel>(
                    ErrorModel::ZeroDeepLimit,
                )
                &&& scan.terms.len() > 0 && scan.limit > 0 && scan.deep_limit > 0 ==> (
                search_command(args) matches Ok(CommandModel::Search(options)) && options.query
                    == join(scan.terms, " "@) && options.limit == scan.limit && options.timeout_ms
                    == scan.timeout_ms && options.json == scan.json && options.llm == scan.llm
                    && options.deep == scan.deep && options.deep_limit == scan.deep_limit
                    && options.verbose == scan.verbose)
            },
        },
{
}

/// A command line that does not begin with the word `search` asks for the first of its arguments
/// that is no flag to be converted, with more output where one of them says so.
pub proof fn law_convert_command(args: Seq<Seq<char>>, k: int)
    requires
        args.len() > 1,
        args[1] != "search"@,
        1 <= k <= args.len(),
        forall|j: int| 1 <= j < k ==> (#[trigger] args[j]).len() > 0 && args[j][0] == '-',
        k < args.len() ==> args[k].len() == 0 || args[k][0] != '-',
    ensures
        k == args.len() ==> command(args) == Err::<CommandModel, ErrorModel>(
            ErrorModel::MissingUrl,
        ),
        k < args.len() ==> (command(args) matches Ok(CommandModel::Convert { url, verbose }) && url
            == args[k] && (verbose <==> exists|i: int|
            1 <= i < args.len() && (#[trigger] args[i] == "--verbose"@ || args[i] == "-v"@))),
{
    let rest = args.skip(1);
    assert forall|j: int| 0 <= j < rest.len() implies #[trigger] rest[j] == args[j + 1] by {}
    lemma_first_plain_is(rest, k - 1);
    if rest.contains("--verbose"@) {
        let i = choose|i: int| 0 <= i < rest.len() && rest[i] == "--verbose"@;
        assert(args[i + 1] == "--verbose"@);
    }
    if rest.contains("-v"@) {
        let i = choose|i: int| 0 <= i < rest.len() && rest[i] == "-v"@;
        assert(args[i + 1] == "-v"@);
    }
    if exists|i: int|
        1 <= i < args.len() && (#[trigger] args[i] == "--verbose"@ || args[i] == "-v"@) {
        let i = choose|i: int|
            1 <= i < args.len() && (#[trigger] args[i] == "--verbose"@ || args[i] == "-v"@);
        assert(rest[i - 1] == args[i]);
    }
}

/// The first argument that is no flag stands behind flags only.
proof fn lemma_first_plain_is(args: Seq<Seq<char>>, k: int)
    requires
        0 <= k <= args.len(),
        forall|j: int| 0 <= j < k ==> (#[trigger] args[j]).len() > 0 && args[j][0] == '-',
        k < args.len() ==> args[k].len() == 0 || args[k][0] != '-',
    ensures
        first_plain(args) == (if k < args.len() {
            Some(args[k])
        } else {
            None
        }),
    decreases args.len(),
{
    if args.len() > 0 {
        lemma_hyphen(args[0]);
        if k > 0 {
            let rest = args.skip(1);
            assert forall|j: int| 0 <= j < k - 1 implies (#[trigger] rest[j]).len() > 0
                && rest[j][0] == '-' by {
                assert(rest[j] == args[j + 1]);
            }
            assert(args[0].len() > 0 && args[0][0] == '-');
            lemma_first_plain_is(rest, k - 1);
        }
    }
}

/// A command line with nothing behind the program is an error, and one that begins with the word
/// `search` is read as a search.
pub proof fn law_command(args: Seq<Seq<char>>)
    ensures
        args.len() <= 1 ==> command(args) == Err::<CommandModel, ErrorModel>(
            ErrorModel::MissingArguments,
        ),
        args.len() > 1 && args[1] == "search"@ ==> command(args) == search_command(args),
{
}

/// A search that is accepted asks for results, and for pages where it is deep; a search never
/// asks for a page to be converted, nor a conversion for a search.
pub proof fn law_accepted_command(args: Seq<Seq<char>>)
    ensures
        match command(args) {
            Ok(CommandModel::Search(options)) => options.limit > 0 && options.deep_limit > 0
                && args[1] == "search"@,
            Ok(CommandModel::Convert { url, .. }) => args[1] != "search"@ && args.contains(url)
                && !"-"@.is_prefix_of(url),
            Err(_) => true,
        },
{
    if args.len() > 1 && args[1] != "search"@ {
        lemma_first_plain(args.skip(1));
        if let Some(url) = first_plain(args.skip(1)) {
            let i = choose|i: int| 0 <= i < args.skip(1).len() && args.skip(1)[i] == url;
            assert(args[i + 1] == url);
        }
    }
}

proof fn lemma_first_plain(args: Seq<Seq<char>>)
    ensures
        first_plain(args) matches Some(url) ==> args.contains(url) && !"-"@.is_prefix_of(url),
    decreases args.len(),
{
    if args.len() > 0 {
        if !"-"@.is_prefix_of(args[0]) {
            assert(args.contains(args[0]));
        } else {
            lemma_first_plain(args.skip(1));
            if let Some(url) = first_plain(args.skip(1)) {
                let i = choose|i: int| 0 <= i < args.skip(1).len() && args.skip(1)[i] == url;
                assert(args[i + 1] == url);
            }
        }
    }
}

/// The arguments behind a prefix that is read without an error are read as if they came alone,
/// after what the prefix has set.
pub proof fn law_scanned_in_parts(a: Seq<Seq<char>>, b: Seq<Seq<char>>, scan: Scan)
    requires
        scanned(a, scan) is Ok,
    ensures
        scanned(a + b, scan) == scanned(b, scanned(a, scan)->Ok_0),
    decreases a.len(),
{
    if a.len() == 0 {
        assert(a + b =~= b);
    } else {
        assert((a + b)[0] == a[0]);
        match value_flag(a[0]) {
            Some(flag) => {
                assert((a + b)[1] == a[1]);
                let value = number_value(a[1], 10, largest(flag))->0;
                assert((a + b).skip(2) =~= a.skip(2) + b);
                law_scanned_in_parts(a.skip(2), b, with_value(scan, flag, value));
            },
            None => {
                assert((a + b).skip(1) =~= a.skip(1) + b);
                law_scanned_in_parts(a.skip(1), b, with_word(scan, a[0])->Ok_0);
            },
        }
    }
}

} // verus!
