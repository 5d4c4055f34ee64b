//! The command line.
use crate::output::BackendType;
use crate::text;
use vstd::prelude::*;

verus! {

/// The sampling interval, in milliseconds, where none is given.
pub const DEFAULT_INTERVAL_MS: u64 = 1000;

/// What the command line asks for.
#[derive(Debug)]
pub struct Options {
    pub interval_ms: u64,
    pub backend: BackendType,
    /// The temperature threshold as it was given; where none was given there is a default.
    pub threshold: Option<String>,
    pub one_shot: bool,
    /// Only the usage is to be printed.
    pub help: bool,
    /// What is to be said about arguments that were not understood.
    pub warnings: Vec<String>,
}

#[verifier::ext_equal]
pub struct OptionsView {
    pub interval_ms: u64,
    pub backend: BackendType,
    pub threshold: Option<Seq<char>>,
    pub one_shot: bool,
    pub help: bool,
    pub warnings: Seq<Seq<char>>,
}

/// The texts of a list.
pub open spec fn texts(v: Seq<String>) -> Seq<Seq<char>> {
    Seq::new(v.len(), |i: int| v[i]@)
}

impl View for Options {
    type V = OptionsView;

    open spec fn view(&self) -> OptionsView {
        OptionsView {
            interval_ms: self.interval_ms,
            backend: self.backend,
            threshold: match self.threshold {
                Some(s) => Some(s@),
                None => None,
            },
            one_shot: self.one_shot,
            help: self.help,
            warnings: texts(self.warnings@),
        }
    }
}

/// The options where nothing is given.
pub open spec fn defaults() -> OptionsView {
    OptionsView {
        interval_ms: DEFAULT_INTERVAL_MS,
        backend: BackendType::Influx,
        threshold: None,
        one_shot: false,
        help: false,
        warnings: Seq::empty(),
    }
}

/// The interval that a text gives; the default where it is not a number.
pub open spec fn interval_of(s: Seq<char>) -> u64 {
    match text::parsed_u64(s) {
        Some(n) => n,
        None => DEFAULT_INTERVAL_MS,
    }
}

/// The format that a word names.
pub open spec fn named_backend(s: Seq<char>) -> Option<BackendType> {
    if s == "json"@ {
        Some(BackendType::Json)
    } else if s == "table"@ {
        Some(BackendType::Table)
    } else if s == "influx"@ {
        Some(BackendType::Influx)
    } else if s == "http"@ {
        Some(BackendType::Http)
    } else if s == "grpc"@ {
        Some(BackendType::Grpc)
    } else {
        None
    }
}

pub open spec fn is_interval(s: Seq<char>) -> bool {
    s == "-i"@ || s == "--interval"@
}

pub open spec fn is_output(s: Seq<char>) -> bool {
    s == "-o"@ || s == "--output"@
}

pub open spec fn is_threshold(s: Seq<char>) -> bool {
    s == "-t"@ || s == "--temp-threshold"@
}

pub open spec fn is_help(s: Seq<char>) -> bool {
    s == "-h"@ || s == "--help"@
}

/// The options after the word for the format.
pub open spec fn with_backend(o: OptionsView, word: Seq<char>) -> OptionsView {
    match named_backend(word) {
        Some(backend) => OptionsView { backend, ..o },
        None => OptionsView {
            backend: BackendType::Influx,
            warnings: o.warnings.push("unknown backend: "@ + word + ", using influx"@),
            ..o
        },
    }
}

/// The options after the arguments from `at` on. An argument that takes a value takes the next
/// one, and without a next one is ignored; a request for help ends the reading.
pub open spec fn options_from(o: OptionsView, args: Seq<Seq<char>>, at: int) -> OptionsView
    decreases args.len() - at,
{
    if at < 0 || at >= args.len() {
        o
    } else if is_interval(args[at]) {
        if at + 1 < args.len() {
            options_from(
                OptionsView { interval_ms: interval_of(args[at + 1]), ..o },
                args,
                at + 2,
            )
        } else {
            o
        }
    } else if is_output(args[at]) {
        if at + 1 < args.len() {
            options_from(with_backend(o, args[at + 1]), args, at + 2)
        } else {
            o
        }
    } else if is_threshold(args[at]) {
        if at + 1 < args.len() {
            options_from(OptionsView { threshold: Some(args[at + 1]), ..o }, args, at + 2)
        } else {
            o
        }
    } else if args[at] == "--once"@ {
        options_from(OptionsView { one_shot: true, ..o }, args, at + 1)
    } else if is_help(args[at]) {
        OptionsView { help: true, ..o }
    } else {
        options_from(
            OptionsView { warnings: o.warnings.push("unknown arg: "@ + args[at]), ..o },
            args,
            at + 1,
        )
    }
}

fn backend_named(s: &str) -> (res: Option<BackendType>)
    ensures
        res == named_backend(s@),
{
    if text::same_text(s, "json") {
        Some(BackendType::Json)
    } else if text::same_text(s, "table") {
        Some(BackendType::Table)
    } else if text::same_text(s, "influx") {
        Some(BackendType::Influx)
    } else if text::same_text(s, "http") {
        Some(BackendType::Http)
    } else if text::same_text(s, "grpc") {
        Some(BackendType::Grpc)
    } else {
        None
    }
}

fn warn(warnings: &mut Vec<String>, message: String)
    ensures
        texts(final(warnings)@) == texts(old(warnings)@).push(message@),
{
    warnings.push(message);
    assert(texts(warnings@) =~= texts(old(warnings)@).push(message@));
}

fn choose_backend(options: &mut Options, word: &str)
    ensures
        final(options)@ == with_backend(old(options)@, word@),
{
    match backend_named(word) {
        Some(backend) => {
            options.backend = backend;
        },
        None => {
            options.backend = BackendType::Influx;
            let message: String = "unknown backend: ".to_owned().concat(word).concat(
                ", using influx",
            );
            warn(&mut options.warnings, message);
        },
    }
}

/// Reads the arguments of the program, of which the first is its own name.
pub fn parse_args(args: &Vec<String>) -> (res: Options)
    ensures
        res@ == options_from(defaults(), texts(args@), 1),
{
    let mut options = Options {
        interval_ms: DEFAULT_INTERVAL_MS,
        backend: BackendType::Influx,
        threshold: None,
        one_shot: false,
        help: false,
        warnings: Vec::new(),
    };
    let ghost all = texts(args@);
    let mut i: usize = 1;
    assert(options@.warnings =~= Seq::empty());
    while i < args.len()
        invariant
            1 <= i,
            all == texts(args@),
            options_from(options@, all, i as int) == options_from(defaults(), all, 1),
        decreases args@.len() - i,
    {
        let arg: &str = args[i].as_str();
        assert(all[i as int] == arg@);
        let left: usize = args.len() - i;
        assert(left > 1 ==> all[i + 1] == args@[i + 1]@);
        if text::same_text(arg, "-i") || text::same_text(arg, "--interval") {
            if left == 1 {
                return options;
            }
            let chars: Vec<char> = text::chars_of(args[i + 1].as_str());
            options.interval_ms = match text::parse_u64(chars.as_slice()) {
                Some(n) => n,
                None => DEFAULT_INTERVAL_MS,
            };
            i = i + 1;
        } else if text::same_text(arg, "-o") || text::same_text(arg, "--output") {
            if left == 1 {
                return options;
            }
            choose_backend(&mut options, args[i + 1].as_str());
            i = i + 1;
        } else if text::same_text(arg, "-t") || text::same_text(arg, "--temp-threshold") {
            if left == 1 {
                return options;
            }
            options.threshold = Some(args[i + 1].clone());
            i = i + 1;
        } else if text::same_text(arg, "--once") {
            options.one_shot = true;
        } else if text::same_text(arg, "-h") || text::same_text(arg, "--help") {
            options.help = true;
            return options;
        } else {
            let message: String = "unknown arg: ".to_owned().concat(arg);
            warn(&mut options.warnings, message);
        }
        i = i + 1;
    }
    options
}

/// Without arguments the interval is a second and the format is that of InfluxDB.
pub proof fn nothing_is_asked_for(args: Seq<Seq<char>>)
    requires
        args.len() <= 1,
    ensures
        ({
            let o = options_from(defaults(), args, 1);
            &&& o.interval_ms == 1000
            &&& o.backend == BackendType::Influx
            &&& o.threshold is None
            &&& !o.one_shot
            &&& !o.help
            &&& o.warnings.len() == 0
        }),
{
}

/// An interval, a format or a threshold is taken from the argument behind its word, and changes
/// nothing else; the arguments after that are read as if they stood alone.
pub proof fn values_stand_behind_their_words(
    o: OptionsView,
    args: Seq<Seq<char>>,
    at: int,
    n: u64,
    backend: BackendType,
)
    requires
        0 <= at,
        at + 1 < args.len(),
    ensures
        ({
            let word = args[at];
            let value = args[at + 1];
            let all = options_from(o, args, at);
            &&& (word == "-i"@ || word == "--interval"@) && value == text::decimal(n as nat) ==> all
                == options_from(OptionsView { interval_ms: n, ..o }, args, at + 2)
            &&& (word == "-o"@ || word == "--output"@) && value == backend.word() ==> all
                == options_from(OptionsView { backend, ..o }, args, at + 2)
            &&& word == "-t"@ || word == "--temp-threshold"@ ==> all == options_from(
                OptionsView { threshold: Some(value), ..o },
                args,
                at + 2,
            )
        }),
{
    lemma_words();
    text::numbers_are_read_back(n);
}

/// The words of the command line are all different.
proof fn lemma_words()
    ensures
        "-i"@ != "-o"@,
        "-i"@ != "-t"@,
        "-i"@ != "-h"@,
        "-o"@ != "-t"@,
        "-o"@ != "-h"@,
        "-t"@ != "-h"@,
        "-i"@.len() == 2,
        "-o"@.len() == 2,
        "-t"@.len() == 2,
        "-h"@.len() == 2,
        "--interval"@.len() == 10,
        "--output"@.len() == 8,
        "--temp-threshold"@.len() == 16,
        "--once"@.len() == 6,
        "--help"@.len() == 6,
        "--once"@ != "--help"@,
        "json"@.len() == 4,
        "table"@.len() == 5,
        "influx"@.len() == 6,
        "http"@.len() == 4,
        "grpc"@.len() == 4,
        "json"@ != "http"@,
        "json"@ != "grpc"@,
        "http"@ != "grpc"@,
{
    reveal_strlit("-i");
    reveal_strlit("-o");
    reveal_strlit("-t");
    reveal_strlit("-h");
    reveal_strlit("--interval");
    reveal_strlit("--output");
    reveal_strlit("--temp-threshold");
    reveal_strlit("--once");
    reveal_strlit("--help");
    reveal_strlit("json");
    reveal_strlit("table");
    reveal_strlit("influx");
    reveal_strlit("http");
    reveal_strlit("grpc");
    assert("-i"@[1] == 'i' && "-o"@[1] == 'o' && "-t"@[1] == 't' && "-h"@[1] == 'h');
    assert("--once"@[2] == 'o' && "--help"@[2] == 'h');
    assert("json"@[0] == 'j' && "http"@[0] == 'h' && "grpc"@[0] == 'g');
}

/// A single run is asked for by one word; help ends the reading; and an argument that is not known
/// is named in a warning and otherwise passed over.
pub proof fn words_without_values(o: OptionsView, args: Seq<Seq<char>>, at: int)
    requires
        0 <= at < args.len(),
    ensures
        ({
            let word = args[at];
            let all = options_from(o, args, at);
            &&& word == "--once"@ ==> all == options_from(
                OptionsView { one_shot: true, ..o },
                args,
                at + 1,
            )
            &&& word == "-h"@ || word == "--help"@ ==> all == (OptionsView { help: true, ..o })
            &&& ![
                "-i"@,
                "--interval"@,
                "-o"@,
                "--output"@,
                "-t"@,
                "--temp-threshold"@,
                "--once"@,
                "-h"@,
                "--help"@,
            ]@.contains(word) ==> all == options_from(
                OptionsView { warnings: o.warnings.push("unknown arg: "@ + word), ..o },
                args,
                at + 1,
            )
        }),
{
    lemma_words();
    let known = [
        "-i"@,
        "--interval"@,
        "-o"@,
        "--output"@,
        "-t"@,
        "--temp-threshold"@,
        "--once"@,
        "-h"@,
        "--help"@,
    ]@;
    assert(known[0] == "-i"@ && known[1] == "--interval"@ && known[2] == "-o"@ && known[3]
        == "--output"@ && known[4] == "-t"@ && known[5] == "--temp-threshold"@ && known[6]
        == "--once"@ && known[7] == "-h"@ && known[8] == "--help"@);
}

/// A text that is not a number asks for an interval of a second, and a word that names no format
/// asks for that of InfluxDB, with a warning that repeats it.
pub proof fn values_that_are_not_understood(o: OptionsView, args: Seq<Seq<char>>, at: int)
    requires
        0 <= at,
        at + 1 < args.len(),
    ensures
        ({
            let word = args[at];
            let value = args[at + 1];
            let all = options_from(o, args, at);
            &&& (word == "-i"@ || word == "--interval"@) && text::parsed_u64(value) is None ==> all
                == options_from(OptionsView { interval_ms: 1000, ..o }, args, at + 2)
            &&& (word == "-o"@ || word == "--output"@) && (forall|b: BackendType|
                (#[trigger] b.word()) != value) ==> all == options_from(
                OptionsView {
                    backend: BackendType::Influx,
                    warnings: o.warnings.push(
                        "unknown backend: "@ + value + ", using influx"@,
                    ),
                    ..o
                },
                args,
                at + 2,
            )
        }),
{
    lemma_words();
    let value = args[at + 1];
    if forall|b: BackendType| (#[trigger] b.word()) != value {
        assert(BackendType::Json.word() != value);
        assert(BackendType::Table.word() != value);
        assert(BackendType::Influx.word() != value);
        assert(BackendType::Http.word() != value);
        assert(BackendType::Grpc.word() != value);
    }
}

} // verus!
