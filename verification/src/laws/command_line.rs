//! Laws of the command line.
use crate::cli::{
    all_digits, chat_text, digits_value, is_command, is_run, natural_of, read_from, run_defaults,
    unsigned_part, Command, RunArgs, RunView,
};
use crate::model::config::Precision;
use crate::text::{decimal, digit};
use vstd::prelude::*;

verus! {

proof fn lemma_decimal_digits(n: nat)
    ensures
        decimal(n).len() > 0,
        all_digits(decimal(n)),
        digits_value(decimal(n)) == n,
        decimal(n)[0] != '+',
    decreases n,
{
    let d = digit((n % 10) as int);
    assert(d as int == 48 + n % 10);
    assert('0' <= d && d <= '9');
    if n >= 10 {
        lemma_decimal_digits(n / 10);
        assert(decimal(n).drop_last() =~= decimal(n / 10));
        assert(decimal(n).last() == d);
    } else {
        reveal_with_fuel(digits_value, 2);
        assert(decimal(n) =~= seq![d]);
        assert(decimal(n).drop_last() =~= Seq::<char>::empty());
        assert(decimal(n).last() == d);
        assert(decimal(n)[0] == d);
    }
}

/// A number is read back from its decimal digits, with or without a plus before them, if it
/// is not too large.
pub proof fn law_numbers_are_read_back(n: nat, max: nat)
    ensures
        natural_of(decimal(n), max) == (if n <= max {
            Some(n)
        } else {
            None
        }),
        natural_of(seq!['+'] + decimal(n), max) == (if n <= max {
            Some(n)
        } else {
            None
        }),
{
    lemma_decimal_digits(n);
    assert((seq!['+'] + decimal(n)).skip(1) =~= decimal(n));
}

/// A text with anything but digits behind its first character is no number, nor is an empty
/// one, a sign alone or one that starts with anything but a digit or a plus.
pub proof fn law_other_texts_are_no_numbers(s: Seq<char>, max: nat, i: int)
    ensures
        s.len() == 0 ==> natural_of(s, max) is None,
        s == seq!['+'] ==> natural_of(s, max) is None,
        0 < i < s.len() && !('0' <= s[i] && s[i] <= '9') ==> natural_of(s, max) is None,
        s.len() > 0 && s[0] != '+' && !('0' <= s[0] && s[0] <= '9') ==> natural_of(s, max) is None,
{
    let d = unsigned_part(s);
    if 0 < i < s.len() && !('0' <= s[i] && s[i] <= '9') {
        if s[0] == '+' {
            assert(d[i - 1] == s[i]);
        } else {
            assert(d[i] == s[i]);
        }
    }
}

/// Every command has its word, and any other word is none.
pub proof fn law_commands(word: Seq<char>, c: Command)
    requires
        is_command(word, c),
    ensures
        word == "demo"@ ==> c is Demo,
        word == "bench"@ ==> c is Bench,
        word == "teambench"@ ==> c is TeamBench,
        word == "chat"@ ==> c is Chat,
        word == "run"@ ==> c is Run,
        word != "demo"@ && word != "bench"@ && word != "teambench"@ && word != "chat"@ && word
            != "run"@ ==> (c matches Command::Unknown(w) && w@ == word),
{
    reveal_strlit("demo");
    reveal_strlit("bench");
    reveal_strlit("teambench");
    reveal_strlit("chat");
    reveal_strlit("run");
    assert("demo"@[0] == 'd' && "bench"@[0] == 'b' && "teambench"@[0] == 't' && "chat"@[0] == 'c'
        && "run"@[0] == 'r');
}

/// An option with a value takes the next argument with it.
#[verifier::spinoff_prover]
pub proof fn law_options_with_a_value(v: RunView, args: Seq<Seq<char>>, i: int, n: nat)
    requires
        0 <= i,
        i + 1 < args.len(),
    ensures
        args[i] == "--steps"@ && args[i + 1] == decimal(n) && n <= usize::MAX ==> read_from(
            v,
            args,
            i,
        ) == read_from((RunView { steps: n, ..v }), args, i + 2),
        args[i] == "--seed"@ && args[i + 1] == decimal(n) && n <= u64::MAX ==> read_from(v, args, i)
            == read_from((RunView { seed: n, ..v }), args, i + 2),
        args[i] == "--temp"@ ==> read_from(v, args, i) == read_from(
            (RunView { temps: v.temps.push(args[i + 1]), ..v }),
            args,
            i + 2,
        ),
{
    lemma_options();
    lemma_decimal_digits(n);
}

/// An option whose value is no number keeps what was set before.
pub proof fn law_options_with_a_bad_value(v: RunView, args: Seq<Seq<char>>, i: int)
    requires
        0 <= i < args.len(),
    ensures
        args[i] == "--steps"@ && (i + 1 == args.len() || natural_of(
            args[i + 1],
            usize::MAX as nat,
        ) is None) ==> read_from(v, args, i) == read_from(v, args, i + 2),
        args[i] == "--seed"@ && (i + 1 == args.len() || natural_of(
            args[i + 1],
            u64::MAX as nat,
        ) is None) ==> read_from(v, args, i) == read_from(v, args, i + 2),
        args[i] == "--temp"@ && i + 1 == args.len() ==> read_from(v, args, i) == read_from(
            v,
            args,
            i + 2,
        ),
{
    lemma_options();
}

/// Switches stand alone; what is no option is kept in its order.
pub proof fn law_switches_and_other_arguments(v: RunView, args: Seq<Seq<char>>, i: int)
    requires
        0 <= i < args.len(),
    ensures
        args[i] == "--q8"@ ==> read_from(v, args, i) == read_from(
            (RunView { q8: true, ..v }),
            args,
            i + 1,
        ),
        args[i] == "--chat"@ ==> read_from(v, args, i) == read_from(
            (RunView { chat: true, ..v }),
            args,
            i + 1,
        ),
        args[i].len() == 0 || args[i][0] != '-' ==> read_from(v, args, i) == read_from(
            (RunView { positional: v.positional.push(args[i]), ..v }),
            args,
            i + 1,
        ),
{
    lemma_options();
}

proof fn lemma_options()
    ensures
        "--steps"@.len() == 7 && "--temp"@.len() == 6 && "--seed"@.len() == 6 && "--q8"@.len() == 4
            && "--chat"@.len() == 6,
        "--temp"@[2] == 't' && "--seed"@[2] == 's' && "--chat"@[2] == 'c',
        "--steps"@[0] == '-' && "--temp"@[0] == '-' && "--seed"@[0] == '-' && "--q8"@[0] == '-'
            && "--chat"@[0] == '-',
{
    reveal_strlit("--steps");
    reveal_strlit("--temp");
    reveal_strlit("--seed");
    reveal_strlit("--q8");
    reveal_strlit("--chat");
}

/// At the end of the arguments stands what was read; it starts from 200 steps and no
/// options.
pub proof fn law_reading_ends(v: RunView, args: Seq<Seq<char>>)
    ensures
        read_from(v, args, args.len() as int) == v,
        run_defaults().steps == 200,
        run_defaults().seed == 20260712,
        !run_defaults().q8 && !run_defaults().chat,
        run_defaults().positional.len() == 0 && run_defaults().temps.len() == 0,
{
}

/// A run's arguments are the model, the vocabulary and the prompt; a model whose name ends
/// in `.gguf` brings its vocabulary along.
#[verifier::spinoff_prover]
pub proof fn law_run_arguments(v: RunView, r: RunArgs, model: Seq<char>)
    requires
        is_run(v, r),
        v.positional.len() > 0 ==> model == v.positional[0],
        v.positional.len() == 0 ==> model == "models/stories15M.bin"@,
    ensures
        r.model_path@ == model,
        r.steps == v.steps,
        r.seed == v.seed,
        r.chat == v.chat,
        r.precision == (if v.q8 {
            Precision::Q8
        } else {
            Precision::F32
        }),
        r.temps@.len() == v.temps.len(),
        forall|i: int| 0 <= i < v.temps.len() ==> (#[trigger] r.temps@[i])@ == v.temps[i],
        model.len() >= 5 && model.subrange(model.len() - 5, model.len() as int) == seq![
            '.',
            'g',
            'g',
            'u',
            'f',
        ] ==> r.tokenizer_path is None && (v.positional.len() > 1 ==> r.prompt@ == v.positional[1])
            && (v.positional.len() <= 1 ==> r.prompt@ == "Once upon a time"@),
        model.len() < 5 || model.subrange(model.len() - 5, model.len() as int) != seq![
            '.',
            'g',
            'g',
            'u',
            'f',
        ] ==> r.tokenizer_path is Some && (v.positional.len() > 1 ==> (r.tokenizer_path->0)@
            == v.positional[1]) && (v.positional.len() <= 1 ==> (r.tokenizer_path->0)@
            == "models/tokenizer.bin"@) && (v.positional.len() > 2 ==> r.prompt@ == v.positional[2])
            && (v.positional.len() <= 2 ==> r.prompt@ == "Once upon a time"@),
{
    reveal_strlit(".gguf");
    assert(".gguf"@ =~= seq!['.', 'g', 'g', 'u', 'f']);
    if model.len() >= 5 {
        assert(model.skip(model.len() - 5) =~= model.subrange(model.len() - 5, model.len() as int));
    }
    let texts = crate::cli::arg_texts(r.temps@);
    assert(texts.len() == r.temps@.len());
    assert forall|i: int| 0 <= i < v.temps.len() implies (#[trigger] r.temps@[i])@ == v.temps[i] by {
        assert(texts[i] == r.temps@[i]@);
    }
}

/// A chat prompt wraps the user's words in the turns of a conversation.
pub proof fn law_chat_prompt(prompt: Seq<char>)
    ensures
        chat_text(prompt)
            == "<|im_start|>system\nYou are a helpful assistant.<|im_end|>\n<|im_start|>user\n"@
            + prompt + "<|im_end|>\n<|im_start|>assistant\n"@,
{
}

} // verus!
