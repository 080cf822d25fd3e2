use r7z::cli::{
    decide_overwrite, parse_overwrite_answer, wildcard_match, CliError, CollisionAction, OverwriteAnswer,
    OverwriteMode, OverwriteUi,
};
use r7z::switches::{apply_method_spec, usage, USAGE, parse_level, parse_on_off_value, parse_size_with_label, parse_solid, parse_switch, Cli, CliParseState};
use r7z::{ArchiveOptions, Codec, CompressionLevel, HeaderMode, LzmaAlgorithm, MatchFinder, SolidMode};
use std::collections::VecDeque;

#[test]
fn parse_overwrite_answers_matches_p7zip_prompt_words() {
    for input in ["y", "yes", "YES"] {
        assert_eq!(parse_overwrite_answer(input), Some(OverwriteAnswer::Yes));
    }
    for input in ["", "n", "no"] {
        assert_eq!(parse_overwrite_answer(input), Some(OverwriteAnswer::No));
    }
    for input in ["a", "all"] {
        assert_eq!(parse_overwrite_answer(input), Some(OverwriteAnswer::All));
    }
    for input in ["s", "skip", "skip all"] {
        assert_eq!(parse_overwrite_answer(input), Some(OverwriteAnswer::SkipAll));
    }
    for input in ["q", "quit"] {
        assert_eq!(parse_overwrite_answer(input), Some(OverwriteAnswer::Quit));
    }
    assert_eq!(parse_overwrite_answer("maybe"), None);
}

#[test]
fn parse_overwrite_answer_ignores_surrounding_whitespace() {
    assert_eq!(parse_overwrite_answer("  Yes\n"), Some(OverwriteAnswer::Yes));
    assert_eq!(parse_overwrite_answer("\tQ "), Some(OverwriteAnswer::Quit));
    assert_eq!(parse_overwrite_answer("\n"), Some(OverwriteAnswer::No));
    assert_eq!(parse_overwrite_answer("skip  all"), None);
}

struct FakeOverwriteUi {
    interactive: bool,
    answers: VecDeque<OverwriteAnswer>,
    prompts: Vec<String>,
    warned: Vec<String>,
}

impl FakeOverwriteUi {
    fn interactive(answers: impl IntoIterator<Item = OverwriteAnswer>) -> Self {
        Self { interactive: true, answers: answers.into_iter().collect(), prompts: Vec::new(), warned: Vec::new() }
    }

    fn noninteractive(answers: impl IntoIterator<Item = OverwriteAnswer>) -> Self {
        Self { interactive: false, answers: answers.into_iter().collect(), prompts: Vec::new(), warned: Vec::new() }
    }
}

impl OverwriteUi for FakeOverwriteUi {
    fn is_interactive(&self) -> bool {
        self.interactive
    }

    fn prompt_overwrite(&mut self, path: &str) -> Result<OverwriteAnswer, CliError> {
        self.prompts.push(path.to_string());
        self.answers
            .pop_front()
            .ok_or_else(|| CliError::Usage("fake overwrite UI ran out of answers".to_string()))
    }

    fn warn_skip_existing(&mut self, path: &str) -> Result<(), CliError> {
        self.warned.push(path.to_string());
        Ok(())
    }
}

#[test]
fn overwrite_policy_noninteractive_ask_skips_with_warning() {
    let mut ui = FakeOverwriteUi::noninteractive([]);
    let mut mode = OverwriteMode::Ask;
    let action = decide_overwrite(&mut mode, false, &mut ui, "exists.txt").unwrap();
    assert_eq!(action, CollisionAction::Skip { warning: true });
    assert_eq!(mode, OverwriteMode::Ask);
    assert_eq!(ui.warned, vec!["exists.txt"]);
    assert!(ui.prompts.is_empty());
}

#[test]
fn overwrite_policy_assume_yes_overwrites_without_prompt() {
    let mut ui = FakeOverwriteUi::noninteractive([]);
    let mut mode = OverwriteMode::Ask;
    let action = decide_overwrite(&mut mode, true, &mut ui, "exists.txt").unwrap();
    assert_eq!(action, CollisionAction::Overwrite);
    assert_eq!(mode, OverwriteMode::Ask);
    assert!(ui.warned.is_empty());
    assert!(ui.prompts.is_empty());
}

#[test]
fn overwrite_policy_all_switches_later_collisions_to_overwrite() {
    let mut ui = FakeOverwriteUi::interactive([OverwriteAnswer::All]);
    let mut mode = OverwriteMode::Ask;
    let first = decide_overwrite(&mut mode, false, &mut ui, "first.txt").unwrap();
    let second = decide_overwrite(&mut mode, false, &mut ui, "second.txt").unwrap();
    assert_eq!(first, CollisionAction::Overwrite);
    assert_eq!(second, CollisionAction::Overwrite);
    assert_eq!(mode, OverwriteMode::Overwrite);
    assert_eq!(ui.prompts, vec!["first.txt"]);
    assert!(ui.warned.is_empty());
}

#[test]
fn overwrite_policy_skip_all_switches_later_collisions_to_silent_skip() {
    let mut ui = FakeOverwriteUi::interactive([OverwriteAnswer::SkipAll]);
    let mut mode = OverwriteMode::Ask;
    let first = decide_overwrite(&mut mode, false, &mut ui, "first.txt").unwrap();
    let second = decide_overwrite(&mut mode, false, &mut ui, "second.txt").unwrap();
    assert_eq!(first, CollisionAction::Skip { warning: true });
    assert_eq!(second, CollisionAction::Skip { warning: false });
    assert_eq!(mode, OverwriteMode::SkipExisting);
    assert_eq!(ui.prompts, vec!["first.txt"]);
    assert_eq!(ui.warned, vec!["first.txt"]);
}

#[test]
fn overwrite_policy_quit_stops_without_warning_side_effect() {
    let mut ui = FakeOverwriteUi::interactive([OverwriteAnswer::Quit]);
    let mut mode = OverwriteMode::Ask;
    let action = decide_overwrite(&mut mode, false, &mut ui, "exists.txt").unwrap();
    assert_eq!(action, CollisionAction::Quit);
    assert_eq!(mode, OverwriteMode::Ask);
    assert_eq!(ui.prompts, vec!["exists.txt"]);
    assert!(ui.warned.is_empty());
}

#[test]
fn wildcard_patterns_select_names() {
    assert!(wildcard_match("*.txt", "notes.txt"));
    assert!(!wildcard_match("*.txt", "notes.txt.bak"));
    assert!(wildcard_match("dir/?.rs", "dir/a.rs"));
    assert!(!wildcard_match("dir/?.rs", "dir/ab.rs"));
    assert!(wildcard_match("*", ""));
    assert!(wildcard_match("", ""));
    assert!(!wildcard_match("", "a"));
    assert!(wildcard_match("a*b*c", "aXXbYYc"));
    assert!(!wildcard_match("a*b*c", "aXXbYY"));
}

#[test]
fn sizes_take_binary_suffixes() {
    assert_eq!(parse_size_with_label("10", "x").unwrap(), 10);
    assert_eq!(parse_size_with_label("2k", "x").unwrap(), 2048);
    assert_eq!(parse_size_with_label("3M", "x").unwrap(), 3 * 1024 * 1024);
    assert_eq!(parse_size_with_label("1g", "x").unwrap(), 1 << 30);
    assert_eq!(parse_size_with_label("+5", "x").unwrap(), 5);
    assert!(parse_size_with_label("0", "x").is_err());
    assert!(parse_size_with_label("", "x").is_err());
    assert!(parse_size_with_label("k", "x").is_err());
    assert!(parse_size_with_label("12q", "x").is_err());
    assert!(parse_size_with_label("18446744073709551615k", "x").is_err());
    assert_eq!(parse_size_with_label("18446744073709551615", "x").unwrap(), u64::MAX);
}

#[test]
fn levels_solid_modes_and_flags() {
    assert_eq!(parse_level("mx").unwrap(), CompressionLevel::Normal);
    assert_eq!(parse_level("mx9").unwrap(), CompressionLevel::Ultra);
    assert_eq!(parse_level("mx=0").unwrap(), CompressionLevel::Store);
    assert_eq!(parse_level("mxmx1").unwrap(), CompressionLevel::Fastest);
    assert!(parse_level("mx4").is_err());
    assert_eq!(parse_solid("ms").unwrap(), SolidMode::Solid);
    assert_eq!(parse_solid("ms=off").unwrap(), SolidMode::NonSolid);
    assert_eq!(parse_solid("ms=10f").unwrap(), SolidMode::Limit { max_files: Some(10), max_bytes: None });
    assert_eq!(parse_solid("ms=4M").unwrap(), SolidMode::Limit { max_files: None, max_bytes: Some(4 << 20) });
    assert!(parse_solid("ms=0f").is_err());
    assert!(parse_on_off_value("mhe", "mhe").unwrap());
    assert!(!parse_on_off_value("mhe=OFF", "mhe").unwrap());
    assert!(parse_on_off_value("mhe=maybe", "mhe").is_err());
}

#[test]
fn switches_update_the_parse_state() {
    let mut state = CliParseState::default();
    parse_switch("slt", &mut state).unwrap();
    assert!(state.technical);
    parse_switch("ooutdir", &mut state).unwrap();
    assert_eq!(state.output_dir, "outdir");
    parse_switch("psecret", &mut state).unwrap();
    assert_eq!(state.password.as_deref(), Some("secret"));
    parse_switch("v1k", &mut state).unwrap();
    assert_eq!(state.volume_sizes, vec![1024]);
    parse_switch("mx=7", &mut state).unwrap();
    assert_eq!(state.options.compression.level, CompressionLevel::Maximum);
    parse_switch("md=64k", &mut state).unwrap();
    assert_eq!(state.options.compression.dictionary_size, Some(65536));
    parse_switch("mf=BCJ", &mut state).unwrap();
    assert_eq!(state.options.codec, Codec::Lzma2Bcj);
    parse_switch("aoa", &mut state).unwrap();
    assert_eq!(state.overwrite_mode, OverwriteMode::Overwrite);
    assert!(parse_switch("mlc=9", &mut state).is_err());
    assert!(parse_switch("zzz", &mut state).is_err());
    assert!(parse_switch("o", &mut state).is_err());
}

#[test]
fn command_lines_parse() {
    let args: Vec<String> = ["a", "-mx0", "-ppw", "out.7z", "f1", "f2"].iter().map(|s| s.to_string()).collect();
    let cli = Cli::parse(args).unwrap();
    assert_eq!(cli.archive, "out.7z");
    assert_eq!(cli.operands, vec!["f1".to_string(), "f2".to_string()]);
    assert_eq!(cli.options.codec, Codec::Copy);
    assert_eq!(cli.options.encryption.as_ref().map(|e| e.password.as_str()), Some("pw"));
    assert!(Cli::parse(vec!["z".to_string()]).is_err());
    assert!(Cli::parse(vec!["--help".to_string()]).is_err());
    assert!(Cli::parse(vec!["l".to_string()]).is_err());
    assert!(Cli::parse(vec!["a".to_string(), "-mhe=on".to_string(), "x.7z".to_string()]).is_err());
}

#[test]
fn method_spec_sets_codec_and_options_in_order() {
    let mut options = ArchiveOptions::default();
    assert!(apply_method_spec("lzma:d=1m:fb=64:mf=BT4:mc=32:mt=on:lc=2:lp=2", &mut options).is_ok());
    assert_eq!(options.codec, Codec::Lzma);
    assert_eq!(options.compression.dictionary_size, Some(1 << 20));
    assert_eq!(options.compression.fast_bytes, Some(64));
    assert_eq!(options.compression.match_finder, Some(MatchFinder::Bt4));
    assert_eq!(options.compression.match_cycles, Some(32));
    assert_eq!(options.compression.literal_context_bits, Some(2));
    assert_eq!(options.compression.literal_position_bits, Some(2));
    let mut options = ArchiveOptions::default();
    assert!(apply_method_spec("COPY", &mut options).is_ok());
    assert_eq!(options.codec, Codec::Copy);
}

#[test]
fn method_spec_refuses_bad_options() {
    for spec in ["lzma:lc=4:lp=1", "lzma2:fb", "lzma2:x=1", "lzma2:", "lzma2:lc=9", "lzma2:d=0", "lzma2:mt=0x", "nothing"] {
        let mut options = ArchiveOptions::default();
        assert!(matches!(apply_method_spec(spec, &mut options), Err(CliError::Usage(_))), "{spec}");
    }
}

#[test]
fn usage_text_is_the_summary() {
    assert_eq!(usage(), USAGE);
    assert!(usage().starts_with("usage: r7z "));
}

#[test]
fn encoder_value_switches_set_one_setting_each() {
    let mut state = CliParseState::default();
    for switch in ["mc=1m", "ma1", "mlc=2", "mlp=2", "mmf=BT4", "mmc=7", "mpb=1", "md=64k", "mfb273", "mx=9", "bd", "bb2", "mmt=4"] {
        assert!(parse_switch(switch, &mut state).is_ok(), "{switch}");
    }
    let c = &state.options.compression;
    assert_eq!(c.lzma2_chunk_size, Some(1 << 20));
    assert_eq!(c.lzma_algorithm, Some(LzmaAlgorithm::Normal));
    assert_eq!(c.literal_context_bits, Some(2));
    assert_eq!(c.literal_position_bits, Some(2));
    assert_eq!(c.match_finder, Some(MatchFinder::Bt4));
    assert_eq!(c.match_cycles, Some(7));
    assert_eq!(c.position_bits, Some(1));
    assert_eq!(c.dictionary_size, Some(64 * 1024));
    assert_eq!(c.fast_bytes, Some(273));
    assert_eq!(c.level, CompressionLevel::Ultra);
}

#[test]
fn refused_switches_are_usage_errors() {
    for switch in ["mlc=5", "mc", "ma=2", "mpb=5", "mmf=zz", "mmc=2147483648", "md=8g", "mfb=x", "bb4", "mhe=maybe", "v0", "o", "zz"] {
        let mut state = CliParseState::default();
        assert!(matches!(parse_switch(switch, &mut state), Err(CliError::Usage(_))), "{switch}");
    }
}

#[test]
fn method_and_header_switches_update_the_options() {
    let mut state = CliParseState::default();
    parse_switch("m0=copy", &mut state).unwrap();
    assert_eq!(state.options.codec, Codec::Copy);
    assert!(state.method_was_explicit);
    parse_switch("mhe=on", &mut state).unwrap();
    let encryption = state.options.encryption.as_ref().unwrap();
    assert!(encryption.encrypt_header);
    assert_eq!(encryption.password, "");
    assert_eq!(state.options.header_mode, HeaderMode::Encoded);
}
