//! The command line: what was asked for, and with which parameters.
use crate::model::config::Precision;
use crate::text::{owned, same_text, to_chars};
use vstd::prelude::*;

verus! {

/// What a program was asked to do.
#[derive(Debug)]
pub enum Command {
    Demo,
    Bench,
    TeamBench,
    Chat,
    Run,
    Unknown(String),
}

/// The command that a word asks for.
pub open spec fn is_command(word: Seq<char>, c: Command) -> bool {
    if word == "demo"@ {
        c is Demo
    } else if word == "bench"@ {
        c is Bench
    } else if word == "teambench"@ {
        c is TeamBench
    } else if word == "chat"@ {
        c is Chat
    } else if word == "run"@ {
        c is Run
    } else {
        c matches Command::Unknown(w) && w@ == word
    }
}

/// The texts of some arguments.
pub open spec fn arg_texts(args: Seq<String>) -> Seq<Seq<char>> {
    Seq::new(args.len(), |i: int| args[i]@)
}

/// Argument `i`, or `default` where there are not so many.
pub open spec fn arg_or(args: Seq<Seq<char>>, i: int, default: Seq<char>) -> Seq<char> {
    if i < args.len() {
        args[i]
    } else {
        default
    }
}

/// Argument `i`, or `default` where there are not so many.
pub fn argument_or(args: &Vec<String>, i: usize, default: &str) -> (s: String)
    ensures
        s@ == arg_or(arg_texts(args@), i as int, default@),
{
    if i < args.len() {
        owned(args[i].as_str())
    } else {
        owned(default)
    }
}

/// The command of a command line, without the program's name: `demo` if there is
/// none.
pub fn command(args: &Vec<String>) -> (c: Command)
    ensures
        is_command(arg_or(arg_texts(args@), 0, "demo"@), c),
{
    let word = argument_or(args, 0, "demo");
    let w = word.as_str();
    if same_text(w, "demo") {
        Command::Demo
    } else if same_text(w, "bench") {
        Command::Bench
    } else if same_text(w, "teambench") {
        Command::TeamBench
    } else if same_text(w, "chat") {
        Command::Chat
    } else if same_text(w, "run") {
        Command::Run
    } else {
        Command::Unknown(word)
    }
}

/// All characters are decimal digits.
pub open spec fn all_digits(s: Seq<char>) -> bool {
    forall|i: int| 0 <= i < s.len() ==> '0' <= #[trigger] s[i] && s[i] <= '9'
}

/// The value of a row of decimal digits.
pub open spec fn digits_value(s: Seq<char>) -> nat
    decreases s.len(),
{
    if s.len() == 0 {
        0
    } else {
        10 * digits_value(s.drop_last()) + (s.last() as int - '0' as int) as nat
    }
}

/// The digits of a number, behind a plus sign if there is one.
pub open spec fn unsigned_part(s: Seq<char>) -> Seq<char> {
    if s.len() > 0 && s[0] == '+' {
        s.skip(1)
    } else {
        s
    }
}

/// The natural number, no larger than `max`, that `s` writes in decimal.
pub open spec fn natural_of(s: Seq<char>, max: nat) -> Option<nat> {
    let d = unsigned_part(s);
    if d.len() > 0 && all_digits(d) && digits_value(d) <= max {
        Some(digits_value(d))
    } else {
        None
    }
}

/// Leading digits make up no more than the whole.
proof fn lemma_digits_grow(s: Seq<char>, n: int)
    requires
        0 <= n <= s.len(),
    ensures
        digits_value(s.take(n)) <= digits_value(s),
    decreases s.len(),
{
    if n < s.len() {
        lemma_digits_grow(s.drop_last(), n);
        assert(s.drop_last().take(n) =~= s.take(n));
    } else {
        assert(s.take(n) =~= s);
    }
}

/// Reads a natural number no larger than `max`.
pub fn parse_natural(s: &str, max: u64) -> (r: Option<u64>)
    ensures
        match natural_of(s@, max as nat) {
            Some(n) => r == Some(n as u64) && n <= u64::MAX,
            None => r is None,
        },
{
    let chars: Vec<char> = to_chars(s);
    let start: usize = if chars.len() > 0 && chars[0] == '+' {
        1
    } else {
        0
    };
    let ghost d = unsigned_part(s@);
    if start == chars.len() {
        return None;
    }
    let mut value: u64 = 0;
    let mut i: usize = start;
    proof {
        assert(d.take(0) =~= seq![]);
    }
    while i < chars.len()
        invariant
            chars@ == s@,
            d == unsigned_part(s@),
            start <= 1,
            d == chars@.skip(start as int),
            start <= i <= chars@.len(),
            all_digits(d.take(i - start)),
            value == digits_value(d.take(i - start)),
            value <= max,
        decreases chars.len() - i,
    {
        let c: char = chars[i];
        proof {
            assert(d[i - start] == c);
            assert(d.take(i + 1 - start).drop_last() =~= d.take(i - start));
        }
        if c < '0' || c > '9' {
            proof {
                assert(!all_digits(d));
            }
            return None;
        }
        let digit: u64 = (c as u32 - '0' as u32) as u64;
        proof {
            lemma_digits_grow(d, i + 1 - start);
        }
        if value as u128 * 10 + digit as u128 > max as u128 {
            return None;
        }
        value = value * 10 + digit;
        proof {
            assert forall|j: int| 0 <= j < i + 1 - start implies '0' <= #[trigger] d.take(
                i + 1 - start,
            )[j] && d.take(i + 1 - start)[j] <= '9' by {
                if j < i - start {
                    assert(d.take(i - start)[j] == d[j]);
                }
            }
        }
        i += 1;
    }
    proof {
        assert(d.take(i - start) =~= d);
    }
    Some(value)
}

/// A number, or `default` where the text is none.
pub open spec fn number_or(s: Option<Seq<char>>, max: nat, default: nat) -> nat {
    match s {
        Some(text) => match natural_of(text, max) {
            Some(n) => n,
            None => default,
        },
        None => default,
    }
}

/// The parameters of `run` as they are read, argument by argument.
#[verifier::ext_equal]
pub struct RunView {
    /// What is not an option.
    pub positional: Seq<Seq<char>>,
    pub steps: nat,
    /// The texts behind `--temp`, in order.
    pub temps: Seq<Seq<char>>,
    pub seed: nat,
    pub q8: bool,
    pub chat: bool,
}

/// Argument `i`, if there is one.
pub open spec fn arg_at(args: Seq<Seq<char>>, i: int) -> Option<Seq<char>> {
    if i < args.len() {
        Some(args[i])
    } else {
        None
    }
}

/// Reads the arguments from `i` on. An option with a value takes the argument
/// behind it, whatever that is; a value that cannot be read leaves things as they
/// were.
pub open spec fn read_from(v: RunView, args: Seq<Seq<char>>, i: int) -> RunView
    decreases
            if i < args.len() {
                args.len() - i
            } else {
                0
            },
{
    if i >= args.len() {
        v
    } else if args[i] == "--steps"@ {
        read_from(
            RunView {
                steps: number_or(arg_at(args, i + 1), usize::MAX as nat, v.steps),
                ..v
            },
            args,
            i + 2,
        )
    } else if args[i] == "--temp"@ {
        read_from(
            RunView {
                temps: match arg_at(args, i + 1) {
                    Some(t) => v.temps.push(t),
                    None => v.temps,
                },
                ..v
            },
            args,
            i + 2,
        )
    } else if args[i] == "--seed"@ {
        read_from(
            RunView { seed: number_or(arg_at(args, i + 1), u64::MAX as nat, v.seed), ..v },
            args,
            i + 2,
        )
    } else if args[i] == "--q8"@ {
        read_from(RunView { q8: true, ..v }, args, i + 1)
    } else if args[i] == "--chat"@ {
        read_from(RunView { chat: true, ..v }, args, i + 1)
    } else {
        read_from(RunView { positional: v.positional.push(args[i]), ..v }, args, i + 1)
    }
}

/// Past the end there is nothing to read.
proof fn lemma_read_past_end(v: RunView, args: Seq<Seq<char>>, i: int)
    requires
        i >= args.len(),
    ensures
        read_from(v, args, i) == v,
{
}

/// The parameters before any argument is read.
pub open spec fn run_defaults() -> RunView {
    RunView {
        positional: Seq::empty(),
        steps: 200,
        temps: Seq::empty(),
        seed: 20260712,
        q8: false,
        chat: false,
    }
}

/// `s` ends in `suffix`.
pub open spec fn ends_in(s: Seq<char>, suffix: Seq<char>) -> bool {
    s.len() >= suffix.len() && s.skip(s.len() - suffix.len()) == suffix
}

/// Whether `s` ends in `suffix`.
pub fn ends_with(s: &str, suffix: &str) -> (b: bool)
    ensures
        b == ends_in(s@, suffix@),
{
    let a: Vec<char> = to_chars(s);
    let e: Vec<char> = to_chars(suffix);
    if a.len() < e.len() {
        return false;
    }
    let base: usize = a.len() - e.len();
    let ghost tail = s@.skip(base as int);
    let mut i: usize = 0;
    while i < e.len()
        invariant
            a@ == s@,
            e@ == suffix@,
            base + e.len() == a.len(),
            tail == s@.skip(base as int),
            i <= e@.len(),
            forall|j: int| 0 <= j < i ==> #[trigger] tail[j] == e@[j],
        decreases e.len() - i,
    {
        if a[base + i] != e[i] {
            proof {
                assert(tail[i as int] != suffix@[i as int]);
            }
            return false;
        }
        i += 1;
    }
    proof {
        assert(tail =~= suffix@);
    }
    true
}

/// The parameters of `run`.
#[derive(Debug)]
pub struct RunArgs {
    pub model_path: String,
    /// Where the tokenizer is, unless the model file has it.
    pub tokenizer_path: Option<String>,
    pub prompt: String,
    pub steps: usize,
    /// The texts given as temperature; the last that is a number counts.
    pub temps: Vec<String>,
    pub seed: u64,
    pub precision: Precision,
    pub chat: bool,
}

/// `r` is what the parameters come to. A model file that ends in `.gguf` has its
/// tokenizer inside, so that the prompt comes right behind it.
pub open spec fn is_run(v: RunView, r: RunArgs) -> bool {
    let model = arg_or(v.positional, 0, "models/stories15M.bin"@);
    let gguf = ends_in(model, ".gguf"@);
    &&& r.model_path@ == model
    &&& gguf ==> r.tokenizer_path is None && r.prompt@ == arg_or(
        v.positional,
        1,
        "Once upon a time"@,
    )
    &&& !gguf ==> (r.tokenizer_path matches Some(t) && t@ == arg_or(
        v.positional,
        1,
        "models/tokenizer.bin"@,
    )) && r.prompt@ == arg_or(v.positional, 2, "Once upon a time"@)
    &&& r.steps == v.steps
    &&& arg_texts(r.temps@) == v.temps
    &&& r.seed == v.seed
    &&& r.precision == (if v.q8 {
        Precision::Q8
    } else {
        Precision::F32
    })
    &&& r.chat == v.chat
}

/// A number behind an option, or `default`.
fn value_or(args: &Vec<String>, i: usize, max: u64, default: u64) -> (n: u64)
    requires
        default <= max,
    ensures
        n == number_or(arg_at(arg_texts(args@), i as int), max as nat, default as nat),
        n <= max,
{
    if i < args.len() {
        match parse_natural(args[i].as_str(), max) {
            Some(n) => n,
            None => default,
        }
    } else {
        default
    }
}

/// Reads the arguments of `run`.
pub fn run_args(args: &Vec<String>) -> (r: RunArgs)
    ensures
        is_run(read_from(run_defaults(), arg_texts(args@), 0), r),
{
    let ghost texts = arg_texts(args@);
    let mut positional: Vec<String> = Vec::new();
    let mut steps: usize = 200;
    let mut temps: Vec<String> = Vec::new();
    let mut seed: u64 = 20260712;
    let mut q8: bool = false;
    let mut chat: bool = false;
    let mut i: usize = 0;
    proof {
        assert(arg_texts(positional@) =~= Seq::empty());
        assert(arg_texts(temps@) =~= Seq::empty());
    }
    while i < args.len()
        invariant
            texts == arg_texts(args@),
            read_from(run_defaults(), texts, 0) == read_from(
                RunView {
                    positional: arg_texts(positional@),
                    steps: steps as nat,
                    temps: arg_texts(temps@),
                    seed: seed as nat,
                    q8,
                    chat,
                },
                texts,
                i as int,
            ),
        decreases args.len() - i,
    {
        let a = args[i].as_str();
        let ghost at = i as int;
        proof {
            assert(texts[i as int] == a@);
        }
        if same_text(a, "--steps") {
            steps = value_or(args, i + 1, usize::MAX as u64, steps as u64) as usize;
            i = skip_two(i, args.len());
        } else if same_text(a, "--temp") {
            if i + 1 < args.len() {
                let ghost before = temps@;
                temps.push(owned(args[i + 1].as_str()));
                proof {
                    assert(arg_texts(temps@) =~= arg_texts(before).push(texts[i + 1]));
                }
            }
            i = skip_two(i, args.len());
        } else if same_text(a, "--seed") {
            seed = value_or(args, i + 1, u64::MAX, seed);
            i = skip_two(i, args.len());
        } else if same_text(a, "--q8") {
            q8 = true;
            i = i + 1;
        } else if same_text(a, "--chat") {
            chat = true;
            i = i + 1;
        } else {
            let ghost before = positional@;
            positional.push(owned(a));
            proof {
                assert(arg_texts(positional@) =~= arg_texts(before).push(a@));
            }
            i = i + 1;
        }
        proof {
            let v = RunView {
                positional: arg_texts(positional@),
                steps: steps as nat,
                temps: arg_texts(temps@),
                seed: seed as nat,
                q8,
                chat,
            };
            if at + 1 == texts.len() {
                lemma_read_past_end(v, texts, at + 1);
                lemma_read_past_end(v, texts, at + 2);
            }
        }
    }
    let model_path = argument_or(&positional, 0, "models/stories15M.bin");
    let gguf: bool = ends_with(model_path.as_str(), ".gguf");
    let tokenizer_path = if gguf {
        None
    } else {
        Some(argument_or(&positional, 1, "models/tokenizer.bin"))
    };
    let at: usize = if gguf {
        1
    } else {
        2
    };
    let prompt = argument_or(&positional, at, "Once upon a time");
    let precision = if q8 {
        Precision::Q8
    } else {
        Precision::F32
    };
    RunArgs { model_path, tokenizer_path, prompt, steps, temps, seed, precision, chat }
}

/// Two arguments on, or at the end. Past the end there is nothing to read.
fn skip_two(i: usize, n: usize) -> (j: usize)
    requires
        i < n,
    ensures
        j <= n,
        j > i,
        i + 2 <= n ==> j == i + 2,
        i + 2 > n ==> j == n,
{
    if n - i >= 2 {
        i + 2
    } else {
        n
    }
}

/// A user's prompt in the ChatML template that instruct models expect.
pub open spec fn chat_text(prompt: Seq<char>) -> Seq<char> {
    "<|im_start|>system\nYou are a helpful assistant.<|im_end|>\n<|im_start|>user\n"@ + prompt
        + "<|im_end|>\n<|im_start|>assistant\n"@
}

/// Wraps a prompt in the ChatML template.
pub fn chat_prompt(prompt: &str) -> (s: String)
    ensures
        s@ == chat_text(prompt@),
{
    let mut s = owned(
        "<|im_start|>system\nYou are a helpful assistant.<|im_end|>\n<|im_start|>user\n",
    );
    s.push_str(prompt);
    s.push_str("<|im_end|>\n<|im_start|>assistant\n");
    s
}

/// Whether a piece is shown: a chat hides its template.
pub fn shows(chat: bool, prompt: bool) -> (b: bool)
    ensures
        b == !(chat && prompt),
{
    !(chat && prompt)
}

/// Sizes of a benchmark: inputs, outputs and repetitions.
#[derive(Debug, Clone, Copy, PartialEq, Eq, Structural)]
pub struct BenchArgs {
    pub k: usize,
    pub n_rows: usize,
    pub iters: usize,
}

/// Reads the arguments of `bench`, each of them optional.
pub fn bench_args(args: &Vec<String>) -> (b: BenchArgs)
    ensures
        b.k == number_or(arg_at(arg_texts(args@), 0), usize::MAX as nat, 2048),
        b.n_rows == number_or(arg_at(arg_texts(args@), 1), usize::MAX as nat, 2048),
        b.iters == number_or(arg_at(arg_texts(args@), 2), usize::MAX as nat, 200),
{
    let max: u64 = usize::MAX as u64;
    BenchArgs {
        k: value_or(args, 0, max, 2048) as usize,
        n_rows: value_or(args, 1, max, 2048) as usize,
        iters: value_or(args, 2, max, 200) as usize,
    }
}

/// A model and a prompt.
#[derive(Debug)]
pub struct ChatArgs {
    pub model_path: String,
    pub prompt: String,
}

/// Reads the arguments of `chat`, each of them optional.
pub fn chat_args(args: &Vec<String>) -> (c: ChatArgs)
    ensures
        c.model_path@ == arg_or(arg_texts(args@), 0, "mock://tiny-model"@),
        c.prompt@ == arg_or(arg_texts(args@), 1, "ping"@),
{
    ChatArgs {
        model_path: argument_or(args, 0, "mock://tiny-model"),
        prompt: argument_or(args, 1, "ping"),
    }
}

} // verus!
