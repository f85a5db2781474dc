use prana::cli::{
    argument_or, bench_args, chat_args, chat_prompt, command, ends_with, parse_natural, run_args, shows, BenchArgs,
    Command,
};
use prana::model::Precision;

fn args(list: &[&str]) -> Vec<String> {
    list.iter().map(|s| s.to_string()).collect()
}

#[test]
fn the_first_word_is_the_command() {
    assert!(matches!(command(&args(&[])), Command::Demo));
    assert!(matches!(command(&args(&["demo"])), Command::Demo));
    assert!(matches!(command(&args(&["bench", "7"])), Command::Bench));
    assert!(matches!(command(&args(&["teambench"])), Command::TeamBench));
    assert!(matches!(command(&args(&["chat"])), Command::Chat));
    assert!(matches!(command(&args(&["run"])), Command::Run));
    match command(&args(&["Run"])) {
        Command::Unknown(w) => assert_eq!(w, "Run"),
        _ => panic!("commands are lower case"),
    }
}

#[test]
fn numbers_are_read_as_the_standard_library_reads_them() {
    for s in ["", "0", "7", "+7", "-7", "+", "007", " 7", "7 ", "18446744073709551615", "18446744073709551616", "1e3"] {
        assert_eq!(parse_natural(s, u64::MAX), s.parse::<u64>().ok(), "{s:?}");
    }
    assert_eq!(parse_natural("255", 255), Some(255));
    assert_eq!(parse_natural("256", 255), None);
}

#[test]
fn run_has_defaults() {
    let r = run_args(&args(&[]));
    assert_eq!(r.model_path, "models/stories15M.bin");
    assert_eq!(r.tokenizer_path, Some("models/tokenizer.bin".to_string()));
    assert_eq!(r.prompt, "Once upon a time");
    assert_eq!((r.steps, r.seed), (200, 20260712));
    assert!(r.temps.is_empty());
    assert_eq!(r.precision, Precision::F32);
    assert!(!r.chat);
}

#[test]
fn run_takes_options_anywhere() {
    let r = run_args(&args(&["--q8", "m.bin", "--steps", "12", "t.bin", "--temp", "0", "hello", "--chat", "--seed", "5"]));
    assert_eq!(r.model_path, "m.bin");
    assert_eq!(r.tokenizer_path, Some("t.bin".to_string()));
    assert_eq!(r.prompt, "hello");
    assert_eq!((r.steps, r.seed), (12, 5));
    assert_eq!(r.temps, vec!["0"]);
    assert_eq!(r.precision, Precision::Q8);
    assert!(r.chat);
}

#[test]
fn a_gguf_file_has_its_tokenizer() {
    let r = run_args(&args(&["m.gguf", "hello"]));
    assert_eq!(r.tokenizer_path, None);
    assert_eq!(r.prompt, "hello");
}

#[test]
fn values_that_are_no_numbers_are_passed_over() {
    let r = run_args(&args(&["--steps", "many", "--steps", "--q8", "--temp", "warm", "--temp"]));
    assert_eq!(r.steps, 200);
    assert_eq!(r.precision, Precision::F32);
    assert_eq!(r.temps, vec!["warm"]);
}

#[test]
fn chat_wraps_the_prompt_and_hides_it() {
    assert_eq!(
        chat_prompt("hi"),
        "<|im_start|>system\nYou are a helpful assistant.<|im_end|>\n<|im_start|>user\nhi<|im_end|>\n<|im_start|>assistant\n"
    );
    assert!(!shows(true, true));
    assert!(shows(true, false) && shows(false, true) && shows(false, false));
}

#[test]
fn bench_and_chat_have_defaults() {
    assert_eq!(bench_args(&args(&[])), BenchArgs { k: 2048, n_rows: 2048, iters: 200 });
    assert_eq!(bench_args(&args(&["896", "x", "20"])), BenchArgs { k: 896, n_rows: 2048, iters: 20 });
    let c = chat_args(&args(&["model"]));
    assert_eq!((c.model_path.as_str(), c.prompt.as_str()), ("model", "ping"));
    assert_eq!(chat_args(&args(&[])).model_path, "mock://tiny-model");
}

#[test]
fn suffixes_and_missing_arguments() {
    assert!(ends_with("a.gguf", ".gguf"));
    assert!(ends_with("x", ""));
    assert!(!ends_with("gguf", ".gguf"));
    assert_eq!(argument_or(&args(&["a"]), 0, "b"), "a");
    assert_eq!(argument_or(&args(&["a"]), 1, "b"), "b");
}
