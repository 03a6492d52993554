//! Which commands of a workflow run the tests in a profile that traps arithmetic overflow, and
//! which profiles of a manifest switch the traps off.
//!
//! The scanners are part of the tests: a workflow's text is read as YAML, its scripts as shell
//! command lines.
use saphyr::{LoadableYamlNode, Yaml};

fn command_lines(script: &str) -> Vec<&str> {
    script
        .lines()
        .map(str::trim_start)
        .map(|line| match comment_start(line) {
            Some(at) => &line[..at],
            None => line,
        })
        .map(str::trim)
        .filter(|line| !line.is_empty())
        .collect()
}

fn comment_start(line: &str) -> Option<usize> {
    let mut quote: Option<char> = None;
    let mut at_word_start = true;
    let mut chars = line.char_indices();
    while let Some((index, c)) = chars.next() {
        if let Some(q) = quote {
            if c == '\\' && q == '"' {
                chars.next();
                at_word_start = false;
                continue;
            }
            if c == q {
                quote = None;
            }
            at_word_start = false;
            continue;
        }
        match c {
            '\\' => {
                chars.next();
                at_word_start = false;
            }
            '#' if at_word_start => return Some(index),
            '\'' | '"' => {
                quote = Some(c);
                at_word_start = false;
            }
            ';' | '&' | '|' | '(' | ')' => at_word_start = true,
            c if c.is_whitespace() => at_word_start = true,
            _ => at_word_start = false,
        }
    }
    None
}

fn disables_errexit(line: &str) -> bool {
    shell_commands(line)
        .iter()
        .any(|(words, _)| set_disables_errexit(words))
}

fn set_disables_errexit(words: &[String]) -> bool {
    let mut words = words.iter().map(String::as_str);
    if words.next() != Some("set") {
        return false;
    }
    let mut expecting_option_name = false;
    for word in words {
        if expecting_option_name {
            if word == "errexit" {
                return true;
            }
            expecting_option_name = false;
            continue;
        }
        if word == "+o" {
            expecting_option_name = true;
            continue;
        }
        if let Some(flags) = word.strip_prefix('+') {
            if flags.contains('e') {
                return true;
            }
        }
    }
    false
}

#[derive(Clone, Copy, PartialEq, Eq, Debug)]
enum Sep {
    End,
    And,
    Or,
    Semi,
    Pipe,
    Amp,
    Substituted,
}

fn shell_commands(line: &str) -> Vec<(Vec<String>, Sep)> {
    let chars: Vec<char> = line.chars().collect();
    let mut out: Vec<(Vec<String>, Sep)> = Vec::new();
    let mut words: Vec<String> = Vec::new();
    let mut word = String::new();
    let mut started = false;
    let mut quote: Option<char> = None;
    let mut i = 0;
    let mut substitution: Vec<bool> = Vec::new();
    let mut host: Vec<(Vec<String>, String, bool)> = Vec::new();

    while i < chars.len() {
        let c = chars[i];
        if let Some(q) = quote {
            if c == '\\' && (q == '"' || q == '`') && i + 1 < chars.len() {
                i += 2;
                continue;
            }
            if c == q {
                quote = None;
            }
            i += 1;
            continue;
        }
        match c {
            '\\' if i + 1 < chars.len() => {
                word.push(chars[i + 1]);
                started = true;
                i += 2;
            }
            '\'' | '"' | '`' => {
                quote = Some(c);
                started = true;
                i += 1;
            }
            '&' | '|' | ';' | '(' | ')' => {
                if c == '&' && started && (word.ends_with('>') || word.ends_with('<')) {
                    word.push(c);
                    i += 1;
                    continue;
                }
                let opens_a_substitution =
                    c == '(' && (word.ends_with('$') || word.ends_with('<') || word.ends_with('>'));
                if opens_a_substitution {
                    host.push((
                        std::mem::take(&mut words),
                        std::mem::take(&mut word),
                        started,
                    ));
                    started = false;
                    substitution.push(true);
                    i += 1;
                    continue;
                }
                if c == ')' && substitution.last() == Some(&true) {
                    if started {
                        words.push(std::mem::take(&mut word));
                        started = false;
                    }
                    if !words.is_empty() {
                        out.push((std::mem::take(&mut words), Sep::Substituted));
                    }
                    substitution.pop();
                    if let Some((host_words, host_word, host_started)) = host.pop() {
                        words = host_words;
                        word = host_word;
                        started = host_started;
                    }
                    i += 1;
                    continue;
                }
                let doubled = i + 1 < chars.len() && chars[i + 1] == c;
                let sep = match (c, doubled) {
                    ('&', true) => Sep::And,
                    ('&', false) => Sep::Amp,
                    ('|', true) => Sep::Or,
                    ('|', false) => Sep::Pipe,
                    _ => Sep::Semi,
                };
                let closing_a_substitution = c == ')' && substitution.last() == Some(&true);
                let sep = if closing_a_substitution {
                    Sep::Substituted
                } else if substitution.iter().any(|is_substitution| *is_substitution) {
                    Sep::Substituted
                } else {
                    sep
                };
                if started {
                    words.push(std::mem::take(&mut word));
                    started = false;
                }
                if !words.is_empty() {
                    out.push((std::mem::take(&mut words), sep));
                }
                match c {
                    '(' => substitution.push(opens_a_substitution),
                    ')' => {
                        substitution.pop();
                    }
                    _ => {}
                }
                i += if doubled && c != ';' { 2 } else { 1 };
            }
            c if c.is_whitespace() => {
                if started {
                    words.push(std::mem::take(&mut word));
                    started = false;
                }
                i += 1;
            }
            _ => {
                word.push(c);
                started = true;
                i += 1;
            }
        }
    }
    if started {
        words.push(word);
    }
    if !words.is_empty() {
        let sep = if substitution.iter().any(|is_substitution| *is_substitution) {
            Sep::Substituted
        } else {
            Sep::End
        };
        out.push((words, sep));
    }
    out
}

fn cargo_test_arguments(words: &[String]) -> Option<Vec<&str>> {
    let mut words = words
        .iter()
        .map(String::as_str)
        .skip_while(|w| *w == "env" || (!w.starts_with('-') && w.contains('=')));
    let program = words.next()?;
    if program != "cargo" && !program.ends_with("/cargo") {
        return None;
    }
    let mut rest = words.skip_while(|w| w.starts_with('+'));
    if rest.next()? != "test" {
        return None;
    }
    let mut arguments = Vec::new();
    let mut argument_is_a_redirection_target = false;
    for word in rest {
        if argument_is_a_redirection_target {
            argument_is_a_redirection_target = false;
            continue;
        }
        if word.contains('>') || word.contains('<') {
            argument_is_a_redirection_target = word.ends_with('>') || word.ends_with('<');
            continue;
        }
        arguments.push(word);
    }
    Some(arguments)
}

const OPTIONS_TAKING_A_VALUE: [&str; 18] = [
    "-p",
    "--package",
    "--exclude",
    "-F",
    "--features",
    "--target",
    "--target-dir",
    "--manifest-path",
    "--profile",
    "--test",
    "--bin",
    "--example",
    "--bench",
    "-j",
    "--jobs",
    "--message-format",
    "--color",
    "--config",
];

const HARNESS_OPTIONS_TAKING_A_VALUE: [&str; 6] = [
    "--test-threads",
    "--logfile",
    "--color",
    "--format",
    "--shuffle-seed",
    "-Z",
];

fn harness_arguments_narrow_the_run(arguments: &[&str]) -> bool {
    let mut expecting_a_value = false;
    for argument in arguments.iter().skip_while(|a| **a != "--").skip(1) {
        if expecting_a_value {
            expecting_a_value = false;
            continue;
        }
        if ["--skip", "--ignored"]
            .iter()
            .any(|o| *argument == *o || argument.starts_with(&format!("{o}=")))
        {
            return true;
        }
        if HARNESS_OPTIONS_TAKING_A_VALUE.contains(argument) {
            expecting_a_value = true;
            continue;
        }
        if !argument.starts_with('-') {
            return true;
        }
    }
    false
}

fn omits_the_library_unit_tests(arguments: &[&str]) -> bool {
    if harness_arguments_narrow_the_run(arguments) {
        return true;
    }
    let cargo_arguments = arguments.iter().take_while(|a| **a != "--");
    let mut expecting_a_value = false;
    for argument in cargo_arguments {
        if expecting_a_value {
            expecting_a_value = false;
            continue;
        }
        if OPTIONS_TAKING_A_VALUE.contains(argument) {
            expecting_a_value = true;
        }
        let selects_elsewhere = [
            "--test",
            "--doc",
            "--no-run",
            "--bin",
            "--example",
            "--bench",
        ]
        .iter()
        .any(|o| *argument == *o || argument.starts_with(&format!("{o}=")))
            || ["--bins", "--examples", "--benches"].contains(argument);
        if selects_elsewhere {
            return true;
        }
        if !argument.starts_with('-') {
            return true;
        }
    }
    false
}

fn status_is_read(
    commands: &[(Vec<String>, Sep)],
    index: usize,
    is_last_command_line: bool,
) -> bool {
    match commands[index].1 {
        Sep::Semi => true,
        Sep::End => true,
        Sep::Or | Sep::Pipe | Sep::Amp | Sep::Substituted => false,
        Sep::And => {
            let mut end = index;
            while matches!(commands[end].1, Sep::And | Sep::Substituted) && end + 1 < commands.len()
            {
                end += 1;
            }
            is_last_command_line && end + 1 == commands.len() && matches!(commands[end].1, Sep::End)
        }
    }
}

fn runs_with_overflow_checks(script: &str) -> Vec<String> {
    let lines = command_lines(script);
    if lines.iter().any(|line| disables_errexit(line)) {
        return Vec::new();
    }
    let mut out = Vec::new();
    let last_line = lines.len().saturating_sub(1);
    for (line_index, line) in lines.iter().enumerate() {
        if line.contains("--release") || line.contains("--profile") {
            continue;
        }
        if line.contains("CARGO_PROFILE_") {
            continue;
        }
        let commands = shell_commands(line);
        for (index, (words, _)) in commands.iter().enumerate() {
            let Some(arguments) = cargo_test_arguments(words) else {
                continue;
            };
            if omits_the_library_unit_tests(&arguments) {
                continue;
            }
            if !status_is_read(&commands, index, line_index == last_line) {
                continue;
            }
            out.push(line.to_string());
            break;
        }
    }
    out
}

#[derive(Debug)]
struct Step {
    keys: Vec<String>,
    run: String,
    env: Vec<String>,
}

#[derive(Debug)]
struct Job {
    keys: Vec<String>,
    steps: Vec<Step>,
}

#[derive(Debug)]
struct Workflow {
    triggers: Vec<String>,
    jobs: Vec<Job>,
}

fn field<'a, 'b>(node: &'a Yaml<'b>, name: &str) -> Option<&'a Yaml<'b>> {
    node.as_mapping()?
        .iter()
        .find(|(key, _)| key.as_str() == Some(name))
        .map(|(_, value)| value)
}

fn scalar_text(node: &Yaml) -> Option<String> {
    if let Some(text) = node.as_str() {
        return Some(text.to_string());
    }
    if let Some(i) = node.as_integer() {
        return Some(i.to_string());
    }
    node.as_bool().map(|b| b.to_string())
}

fn keys_of(node: &Yaml) -> Vec<String> {
    node.as_mapping()
        .map(|mapping| {
            mapping
                .iter()
                .filter_map(|(key, _)| key.as_str().map(str::to_string))
                .collect()
        })
        .unwrap_or_default()
}

fn parse_workflow(text: &str) -> Workflow {
    let documents = Yaml::load_from_str(text).unwrap_or_else(|e| {
        panic!(
            "workflow is not valid YAML: {e}. This guard reads the workflow \
             rather than scanning its text, so a file it cannot parse is a \
             failure and never a pass."
        )
    });
    let Some(document) = documents.first() else {
        return Workflow {
            triggers: Vec::new(),
            jobs: Vec::new(),
        };
    };

    let triggers = match field(document, "on") {
        Some(on) if on.as_mapping().is_some() => keys_of(on),
        Some(on) if on.as_sequence().is_some() => on
            .as_sequence()
            .into_iter()
            .flatten()
            .filter_map(|item| item.as_str().map(str::to_string))
            .collect(),
        Some(on) => on.as_str().map(str::to_string).into_iter().collect(),
        None => Vec::new(),
    };

    let mut jobs = Vec::new();
    if let Some(mapping) = field(document, "jobs").and_then(Yaml::as_mapping) {
        for (_, body) in mapping.iter() {
            let steps = field(body, "steps")
                .and_then(Yaml::as_sequence)
                .into_iter()
                .flatten()
                .map(|step| Step {
                    keys: keys_of(step),
                    env: field(step, "env")
                        .and_then(Yaml::as_mapping)
                        .map(|m| {
                            m.iter()
                                .filter_map(|(k, v)| {
                                    Some(format!("{}={}", k.as_str()?, scalar_text(v)?))
                                })
                                .collect()
                        })
                        .unwrap_or_default(),
                    run: field(step, "run")
                        .and_then(Yaml::as_str)
                        .unwrap_or_default()
                        .to_string(),
                })
                .collect();
            jobs.push(Job {
                keys: keys_of(body),
                steps,
            });
        }
    }

    Workflow { triggers, jobs }
}

fn runs_on_pull_request(wf: &Workflow) -> bool {
    wf.triggers.iter().any(|t| t == "pull_request")
}

const NON_GATING_KEYS: [&str; 2] = ["if", "continue-on-error"];

fn collect_steps(workflow: &str, gating: bool) -> Vec<Step> {
    let wf = parse_workflow(workflow);
    if gating && !runs_on_pull_request(&wf) {
        return Vec::new();
    }
    let carries_a_non_gating_key =
        |keys: &[String]| keys.iter().any(|k| NON_GATING_KEYS.contains(&k.as_str()));

    let mut out = Vec::new();
    for job in wf.jobs {
        if gating && carries_a_non_gating_key(&job.keys) {
            continue;
        }
        for step in job.steps {
            if gating && carries_a_non_gating_key(&step.keys) {
                continue;
            }
            out.push(step);
        }
    }
    out
}

fn scan_steps(workflow: &str, gating: bool, select: fn(&str) -> Vec<String>) -> Vec<String> {
    collect_steps(workflow, gating)
        .iter()
        .flat_map(|step| select(&step.run))
        .collect()
}

fn step_declares_the_handshake(step: &Step) -> bool {
    command_lines(&step.run).iter().any(|line| {
        shell_commands(line)
            .iter()
            .any(|(words, _)| assigns_the_handshake(words))
    }) || step.env.iter().any(|entry| entry == HANDSHAKE)
}

const HANDSHAKE: &str = "EXPECT_OVERFLOW_CHECKS=1";

fn assigns_the_handshake(words: &[String]) -> bool {
    let mut words = words.iter().map(String::as_str).peekable();
    if let Some(first) = words.peek() {
        let exports = *first == "export"
            || ((*first == "declare" || *first == "typeset")
                && words.clone().any(|word| word == "-x"));
        if exports {
            return words.any(|word| word == HANDSHAKE);
        }
    }
    let mut saw = false;
    let mut rest = words.peekable();
    while let Some(word) = rest.peek() {
        if *word == "env" {
            rest.next();
            continue;
        }
        if !is_shell_assignment(word) {
            break;
        }
        if *word == HANDSHAKE {
            saw = true;
        }
        rest.next();
    }
    saw && rest.peek().is_some()
}

fn is_shell_assignment(word: &str) -> bool {
    match word.split_once('=') {
        Some((name, _)) => {
            !name.is_empty()
                && name.chars().all(|c| c.is_ascii_alphanumeric() || c == '_')
                && !name.starts_with(|c: char| c.is_ascii_digit())
        }
        None => false,
    }
}

fn gating_runs_with_overflow_checks(workflow: &str) -> Vec<String> {
    scan_steps(workflow, true, runs_with_overflow_checks)
}

fn gating_runs_that_prove_the_build_traps(workflow: &str) -> Vec<String> {
    collect_steps(workflow, true)
        .into_iter()
        .filter(step_declares_the_handshake)
        .flat_map(|step| runs_with_overflow_checks(&step.run))
        .collect()
}

fn debug_runs_that_prove_the_build_traps(script: &str) -> Vec<String> {
    runs_with_overflow_checks(script)
        .into_iter()
        .filter(|command| {
            shell_commands(command)
                .iter()
                .any(|(words, _)| assigns_the_handshake(words))
        })
        .collect()
}

fn profiles_disabling_overflow_checks(manifest: &str) -> Vec<String> {
    fn normalise(path: &str) -> String {
        path.split('.')
            .map(|segment| {
                segment
                    .trim()
                    .trim_matches(|c| c == '"' || c == '\'')
                    .trim()
            })
            .collect::<Vec<_>>()
            .join(".")
    }

    const DISABLED: [&str; 2] = [
        "profile.dev.overflow-checks",
        "profile.test.overflow-checks",
    ];

    let mut section = String::new();
    let mut found = Vec::new();
    for raw in manifest.lines() {
        let line = raw.split('#').next().unwrap_or(raw).trim();
        if line.starts_with('[') {
            section = normalise(line.trim_matches(|c| c == '[' || c == ']'));
            continue;
        }
        let Some((key, value)) = line.split_once('=') else {
            continue;
        };
        if value.trim() != "false" {
            continue;
        }
        let key = normalise(key);
        let path = if section.is_empty() {
            key
        } else {
            format!("{section}.{key}")
        };
        if DISABLED.contains(&path.as_str()) {
            found.push(path);
        }
    }
    found
}

fn selects_away_from_the_library(line: &str) -> bool {
    shell_commands(line)
        .iter()
        .filter_map(|(words, _)| cargo_test_arguments(words))
        .any(|arguments| omits_the_library_unit_tests(&arguments))
}

#[test]
fn an_echoed_command_is_not_a_run() {
    for line in [
        "echo \"EXPECT_OVERFLOW_CHECKS=1 cargo test --locked --lib\"",
        "echo 'cargo test --locked --all-targets'",
        "echo cargo test --locked --lib",
        "printf '%s\\n' \"cargo test --locked --lib\"",
        "echo \"running: cargo test\" && cargo build --locked",
    ] {
        assert_eq!(
            runs_with_overflow_checks(line),
            Vec::<String>::new(),
            "{line} prints the command; it does not run it"
        );
    }
}

#[test]
fn the_spellings_that_do_invoke_cargo_test_still_count() {
    for line in [
        "cargo test --locked --all-targets",
        "EXPECT_OVERFLOW_CHECKS=1 cargo test --locked --lib",
        "cd .. && cargo test --locked --lib",
        "cargo test --locked --lib 2>&1",
        "cargo test --locked --lib > test.log",
        "cargo +stable test --locked --lib",
        "env EXPECT_OVERFLOW_CHECKS=1 cargo test --locked --lib",
    ] {
        assert_eq!(
            runs_with_overflow_checks(line).len(),
            1,
            "{line} runs the suite in debug and must be counted"
        );
    }
}

#[test]
fn a_debug_run_quoted_in_a_shell_comment_does_not_count() {
    let block = "\
set -euo pipefail
# Measured on this branch:
#     cargo test --locked --release --lib   ->  EXIT=0
#     EXPECT_OVERFLOW_CHECKS=1 cargo test --locked --lib   ->  EXIT=101
cargo test --locked --release
";
    assert_eq!(
        runs_with_overflow_checks(block),
        Vec::<String>::new(),
        "a debug command quoted inside a comment is documentation, not a run"
    );
}

#[test]
fn a_real_debug_run_counts() {
    let block = "\
cargo test --locked --release
EXPECT_OVERFLOW_CHECKS=1 cargo test --locked --lib
";
    assert_eq!(
        runs_with_overflow_checks(block),
        vec!["EXPECT_OVERFLOW_CHECKS=1 cargo test --locked --lib".to_string()],
    );
}

#[test]
fn a_trailing_comment_does_not_promote_a_release_run() {
    let inline = "cargo test --locked --release  # not cargo test --lib\n";
    assert_eq!(
        runs_with_overflow_checks(inline),
        Vec::<String>::new(),
        "the command is --release; the comment after it is not a second run"
    );
}

#[test]
fn a_hash_that_does_not_begin_a_word_is_not_a_comment() {
    for line in [
        "cargo test --locked --features a#b --all-targets",
        "cargo test --locked --all-targets && echo \"done #1\"",
    ] {
        assert_eq!(
            runs_with_overflow_checks(line).len(),
            1,
            "{line:?} has no comment on it: the `#` is inside a word or a quoted span"
        );
    }
}

#[test]
fn a_quoted_hash_before_the_run_does_not_cut_the_line_short() {
    for line in [
        "echo \"step # 1\"; cargo test --locked --all-targets",
        "echo 'step # 1' && cargo test --locked --all-targets",
        "printf '%s\\n' \"# not a comment\"; cargo test --locked --lib",
    ] {
        assert_eq!(
            runs_with_overflow_checks(line).len(),
            1,
            "{line:?} runs the suite: the `#` is inside quotes and ends nothing"
        );
    }
}

#[test]
fn a_trailing_comment_naming_release_does_not_disqualify_a_debug_run() {
    let line = "cargo test --locked --lib  # deliberately not --release\n";
    assert_eq!(
        runs_with_overflow_checks(line),
        vec!["cargo test --locked --lib".to_string()],
        "the command is a debug run; --release appears only in its comment"
    );
}

#[test]
fn a_profile_named_another_way_does_not_count() {
    let lines = [
        "cargo test --locked --profile release-with-debug --lib",
        "CARGO_PROFILE_TEST_OVERFLOW_CHECKS=false cargo test --locked --lib",
        "CARGO_PROFILE_DEV_OVERFLOW_CHECKS=false cargo test --locked --lib",
    ];
    for line in lines {
        assert_eq!(
            runs_with_overflow_checks(line),
            Vec::<String>::new(),
            "{line} does not compile the overflow checks"
        );
    }
    assert_eq!(
        lines.len(),
        3,
        "the loop above must have examined every shape"
    );
}

#[test]
fn a_cargo_build_step_is_not_a_test_run() {
    let validate_job = "\
cargo build --locked --release
./target/release/some-tool --check /tmp/image
";
    assert_eq!(
        runs_with_overflow_checks(validate_job),
        Vec::<String>::new(),
        "building a binary is not running a test suite"
    );
}

#[test]
fn a_run_whose_status_is_discarded_does_not_count() {
    for line in [
        "cargo test --locked --all-targets || true",
        "cargo test --locked --all-targets || echo 'ignored'",
        "cargo test --locked --all-targets | tee test.log",
        "cargo test --locked --all-targets &",
        "set +e\ncargo test --locked --all-targets\n",
        "set +o errexit\ncargo test --locked --all-targets\n",
        "set +ex\ncargo test --locked --all-targets\n",
        "set +o errexit; cargo test --locked --all-targets\n",
        "set +o errexit&& cargo test --locked --all-targets\n",
        "set +o errexit\ncargo test --locked --all-targets | tee log\n",
    ] {
        assert_eq!(
            runs_with_overflow_checks(line),
            Vec::<String>::new(),
            "{line:?} runs the suite and throws the answer away"
        );
    }
}

#[test]
fn an_and_chain_ending_in_an_or_arm_does_not_count() {
    for line in [
        "cargo test --locked --all-targets && echo ok || echo failed",
        "cargo test --locked --lib && echo a && echo b || true",
        "cargo test --locked --all-targets && echo $(date) || echo failed",
        "cargo test --locked --lib 2>&1 && echo ok || true",
    ] {
        assert_eq!(
            runs_with_overflow_checks(line),
            Vec::<String>::new(),
            "{line:?} ends in a recovery arm, so the list exits 0 and the \
                 failure is never read"
        );
    }
}

#[test]
fn an_escaped_backtick_keeps_the_substitution_open() {
    for line in [
        "echo `echo a\\` ; cargo test --locked --lib`",
        "echo `cargo test --locked --lib`",
        "OUT=`cargo test --locked --lib`",
    ] {
        assert_eq!(
            runs_with_overflow_checks(line),
            Vec::<String>::new(),
            "{line}: the backtick span swallows the status, so nothing in it is a gate"
        );
    }

    let line = "echo `date` ; cargo test --locked --lib";
    assert_eq!(
        runs_with_overflow_checks(line),
        vec![line.to_string()],
        "{line}: the substitution closes and the cargo test after it is top-level"
    );
}

#[test]
fn a_run_inside_a_command_substitution_does_not_count() {
    for line in [
        "echo $(cargo test --locked --lib)",
        "echo $(cargo test --locked --all-targets) && echo done",
        "diff <(cargo test --locked --all-targets) expected.txt",
        "echo `cargo test --locked --lib`",
    ] {
        assert_eq!(
            runs_with_overflow_checks(line),
            Vec::<String>::new(),
            "{line:?} substitutes the command's OUTPUT; nothing reads its status"
        );
    }
}

#[test]
fn an_escaped_quote_does_not_end_a_printed_command() {
    for line in [
        "echo \"a \\\" && cargo test --locked --lib\"",
        "echo \"quote: \\\" ; cargo test --locked --all-targets\"",
        "echo \\; cargo test --locked --lib",
    ] {
        assert_eq!(
            runs_with_overflow_checks(line),
            Vec::<String>::new(),
            "{line:?} is one string handed to echo; the shell runs no tests"
        );
    }
}

#[test]
fn a_backslash_decides_where_a_comment_can_start() {
    let rejected = "echo \\\" # x; cargo test --locked --lib";
    assert_eq!(
        runs_with_overflow_checks(rejected),
        Vec::<String>::new(),
        "{rejected:?}: the `\\\"` is a literal quote, so `#` opens a comment and \
             the shell runs no tests"
    );
    let accepted = "echo \"a \\\" # b\"; cargo test --locked --lib";
    assert_eq!(
        runs_with_overflow_checks(accepted).len(),
        1,
        "{accepted:?}: the `#` is inside the string, and the run after the `;` \
             is real -- cutting the line here refuses a correct workflow"
    );
}

#[test]
fn an_and_chain_that_is_not_the_last_thing_the_step_does_does_not_count() {
    for line in [
        "cargo test --locked --all-targets && echo done\necho more\n",
        "cargo test --locked --all-targets && echo done; echo more",
        "cargo test --locked --all-targets && echo ok\ncargo build --locked\n",
    ] {
        assert_eq!(
            runs_with_overflow_checks(line),
            Vec::<String>::new(),
            "{line:?}: errexit exempts the left of `&&`, and something runs after \
                 the chain, so the step exits on that instead"
        );
    }
}

#[test]
fn a_run_whose_failure_still_ends_the_step_counts() {
    for line in [
        "cargo test --locked --all-targets",
        "cargo test --locked --all-targets && echo ok",
        "cd .. && cargo test --locked --all-targets && echo ok",
        "set -euo pipefail\ncargo test --locked --all-targets && echo ok\n",
        "(cargo test --locked --all-targets)",
        "cargo test --locked --all-targets && echo $(date)",
        "cargo test --locked --all-targets && echo `date`",
        "cargo test --locked --all-targets && diff <(echo a) <(echo b)",
        "echo \"he said \\\"hi\\\"\" && cargo test --locked --all-targets",
        "cargo test --locked --all-targets && echo \"done \\\" quoted\"",
        "cargo test --locked --all-targets 2>&1",
        "cargo test --locked --all-targets; echo done",
        "cargo test --locked --all-targets ; true",
        "set -euo pipefail\ncargo test --locked --all-targets\n",
        "set -o errexit; cargo test --locked --all-targets\n",
        "echo \"set +o errexit\"\ncargo test --locked --all-targets\n",
    ] {
        assert_eq!(
            runs_with_overflow_checks(line).len(),
            1,
            "{line:?} fails the step when the suite fails"
        );
    }
}

#[test]
fn a_selection_that_leaves_the_library_unit_tests_out_does_not_count() {
    for line in [
        "cargo test --locked --doc",
        "cargo test --locked --no-run",
        "cargo test --locked --bins",
        "cargo test --locked --examples",
        "cargo test --locked --bin some_tool",
        "cargo test --locked --example inspect",
        "cargo test --locked some_filter",
        "EXPECT_OVERFLOW_CHECKS=1 cargo test --locked --features qemu-validation qemu",
    ] {
        assert!(
            selects_away_from_the_library(line),
            "{line} selects something other than the library unit tests"
        );
        assert_eq!(
            runs_with_overflow_checks(line),
            Vec::<String>::new(),
            "{line} does not build and run the library unit tests"
        );
    }
}

#[test]
fn both_spellings_of_a_narrowing_harness_option_disqualify() {
    for line in [
        "cargo test --locked --lib -- --skip foo",
        "cargo test --locked --lib -- --skip=foo",
        "cargo test --locked --lib -- --ignored",
        "EXPECT_OVERFLOW_CHECKS=1 cargo test --locked --all-targets -- --skip=overflow",
    ] {
        assert_eq!(
            runs_with_overflow_checks(line),
            Vec::<String>::new(),
            "{line}: the harness runs fewer tests than the library, so the probe may \
                 not run and this cannot be the run that counts"
        );
    }
}

#[test]
fn harness_options_that_do_not_narrow_still_count() {
    for line in [
        "cargo test --locked --lib -- --test-threads=1",
        "cargo test --locked --lib -- --test-threads 1",
        "cargo test --locked --lib -- --nocapture",
        "cargo test --locked --lib -- --include-ignored",
        "cargo test --locked --lib -- --color=always",
        "cargo test --locked --lib -- --format=terse",
    ] {
        assert_eq!(
            runs_with_overflow_checks(line),
            vec![line.to_string()],
            "{line} reports differently and runs the whole library, so it still gates"
        );
    }
}

#[test]
fn a_harness_argument_that_narrows_the_run_does_not_count() {
    for line in [
        "cargo test --locked --all-targets -- --ignored",
        "cargo test --locked --lib -- --skip overflow",
        "cargo test --locked --all-targets -- some_filter",
        "cargo test --locked --lib -- --test-threads=1 --ignored",
        "cargo test --locked --lib -- --test-threads 1 some_filter",
        "cargo test --locked --all-targets -- --color never --skip overflow",
    ] {
        assert!(
            selects_away_from_the_library(line),
            "{line} runs fewer tests than the library holds"
        );
        assert_eq!(
            runs_with_overflow_checks(line),
            Vec::<String>::new(),
            "{line} may leave the overflow probe unrun"
        );
    }
}

#[test]
fn an_equals_spelled_single_target_does_not_count_either() {
    for line in [
        "cargo test --locked --features qemu-validation --test=qemu_validation",
        "EXPECT_OVERFLOW_CHECKS=1 cargo test --locked --test=some_oracle",
        "cargo test --locked --test=\"qemu_validation\"",
    ] {
        assert_eq!(
            runs_with_overflow_checks(line),
            Vec::<String>::new(),
            "{line} builds one integration target and no library unit tests"
        );
        assert!(
            selects_away_from_the_library(line),
            "{line} names a single integration target"
        );
    }
}

#[test]
fn options_that_only_look_like_test_do_not_disqualify_a_run() {
    for line in [
        "cargo test --locked --tests",
        "cargo test --locked --all-targets",
        "cargo test --locked --lib -- --test-threads=1",
        "cargo test --locked --all-targets -- --nocapture",
        "cargo test --locked --lib -- --include-ignored",
        "cargo test --locked --all-targets -- --format=terse --color=never",
        "cargo test --locked --lib -- --test-threads 1",
        "cargo test --locked --all-targets -- --format terse --color never",
        "cargo test --locked --lib -- --logfile results.txt",
    ] {
        assert!(
            !selects_away_from_the_library(line),
            "{line} does not restrict the run to one integration target"
        );
        assert_eq!(
            runs_with_overflow_checks(line).len(),
            1,
            "{line} builds the library unit tests and must be counted"
        );
    }
}

#[test]
fn a_single_integration_target_does_not_count() {
    for line in [
        "cargo test --locked --features qemu-validation --test qemu_validation",
        "EXPECT_OVERFLOW_CHECKS=1 cargo test --locked --test some_oracle",
    ] {
        assert_eq!(
            runs_with_overflow_checks(line),
            Vec::<String>::new(),
            "{line} builds one integration target and no library unit tests"
        );
    }
}

#[test]
fn a_tests_flag_run_counts_which_is_what_the_trailing_space_protects() {
    assert_eq!(
        runs_with_overflow_checks("cargo test --locked --tests"),
        vec!["cargo test --locked --tests".to_string()],
    );
    assert_eq!(
        runs_with_overflow_checks("cargo test --locked --all-targets").len(),
        1,
        "`--all-targets` builds the library too"
    );
}

#[test]
fn a_debug_run_carrying_the_handshake_counts() {
    let script = "EXPECT_OVERFLOW_CHECKS=1 cargo test --locked --lib\n";
    assert_eq!(
        debug_runs_that_prove_the_build_traps(script),
        vec!["EXPECT_OVERFLOW_CHECKS=1 cargo test --locked --lib".to_string()],
    );
}

#[test]
fn a_debug_run_without_the_handshake_does_not_count() {
    let script = "cargo test --locked --lib\n";
    assert_eq!(
        debug_runs_that_prove_the_build_traps(script),
        Vec::<String>::new(),
        "the step is there but nothing checks the build it produced"
    );
}

#[test]
fn the_handshake_on_a_release_run_does_not_count() {
    let script = "EXPECT_OVERFLOW_CHECKS=1 cargo test --locked --release\n";
    assert_eq!(
        debug_runs_that_prove_the_build_traps(script),
        Vec::<String>::new(),
    );
}

#[test]
fn the_handshake_quoted_in_a_comment_does_not_count() {
    let script = "#     EXPECT_OVERFLOW_CHECKS=1 cargo test --locked --lib\n";
    assert_eq!(
        debug_runs_that_prove_the_build_traps(script),
        Vec::<String>::new(),
    );
}

#[test]
fn the_handshake_merely_printed_beside_a_real_run_does_not_count() {
    let script = "echo \"EXPECT_OVERFLOW_CHECKS=1\" && cargo test --locked --lib\n";
    assert_eq!(
        runs_with_overflow_checks(script).len(),
        1,
        "the control: this line really does run the suite and end the step"
    );
    assert_eq!(
        debug_runs_that_prove_the_build_traps(script),
        Vec::<String>::new(),
        "printing the variable does not put it in the run's environment"
    );
}

#[test]
fn the_test_profile_disabling_the_checks_is_caught() {
    let manifest = "\
[profile.release]
lto = true

[profile.test]
overflow-checks = false
";
    assert_eq!(
        profiles_disabling_overflow_checks(manifest),
        vec!["profile.test.overflow-checks".to_string()],
    );
}

#[test]
fn the_dev_profile_disabling_the_checks_is_caught() {
    let manifest = "[profile.dev]\nopt-level = 1\noverflow-checks   =   false\n";
    assert_eq!(
        profiles_disabling_overflow_checks(manifest),
        vec!["profile.dev.overflow-checks".to_string()],
    );
}

#[test]
fn the_release_profile_disabling_the_checks_is_not_flagged() {
    let manifest = "[profile.release]\noverflow-checks = false\n";
    assert_eq!(
        profiles_disabling_overflow_checks(manifest),
        Vec::<String>::new(),
    );
}

#[test]
fn a_commented_out_setting_is_not_a_setting() {
    let manifest = "[profile.test]\n# overflow-checks = false\nopt-level = 1\n";
    assert_eq!(
        profiles_disabling_overflow_checks(manifest),
        Vec::<String>::new(),
    );
}

#[test]
fn a_disabling_line_with_a_trailing_comment_is_still_caught() {
    let manifest = "[profile.test]\noverflow-checks = false  # speeds the suite up\n";
    assert_eq!(
        profiles_disabling_overflow_checks(manifest),
        vec!["profile.test.overflow-checks".to_string()],
    );
}

#[test]
fn another_setting_being_false_is_not_this_one() {
    let manifest = "[profile.test]\ndebug-assertions = false\nopt-level = 1\n";
    assert_eq!(
        profiles_disabling_overflow_checks(manifest),
        Vec::<String>::new(),
    );
}

#[test]
fn a_double_quoted_key_is_the_same_key() {
    let manifest = "[profile.test]\n\"overflow-checks\" = false\n";
    assert_eq!(
        profiles_disabling_overflow_checks(manifest),
        vec!["profile.test.overflow-checks".to_string()],
    );
}

#[test]
fn a_literal_quoted_key_is_the_same_key() {
    let manifest = "[profile.dev]\n'overflow-checks' = false\n";
    assert_eq!(
        profiles_disabling_overflow_checks(manifest),
        vec!["profile.dev.overflow-checks".to_string()],
    );
}

#[test]
fn a_dotted_key_putting_the_profile_on_the_key_side_is_caught() {
    let manifest = "[profile]\ntest.overflow-checks = false\n";
    assert_eq!(
        profiles_disabling_overflow_checks(manifest),
        vec!["profile.test.overflow-checks".to_string()],
    );
}

#[test]
fn a_top_level_dotted_key_is_caught() {
    let manifest = "profile.test.overflow-checks = false\n";
    assert_eq!(
        profiles_disabling_overflow_checks(manifest),
        vec!["profile.test.overflow-checks".to_string()],
    );
}

#[test]
fn a_quoted_section_is_the_same_section() {
    let manifest = "[\"profile\".'test']\noverflow-checks = false\n";
    assert_eq!(
        profiles_disabling_overflow_checks(manifest),
        vec!["profile.test.overflow-checks".to_string()],
    );
}

#[test]
fn the_release_profile_is_exempt_in_the_dotted_spelling_too() {
    let manifest = "[profile]\nrelease.overflow-checks = false\n";
    assert_eq!(
        profiles_disabling_overflow_checks(manifest),
        Vec::<String>::new(),
    );
}

#[test]
fn enabling_the_checks_explicitly_is_not_flagged() {
    let manifest = "[profile.test]\noverflow-checks = true\n";
    assert_eq!(
        profiles_disabling_overflow_checks(manifest),
        Vec::<String>::new(),
    );
}

#[test]
fn a_handshake_in_a_shell_comment_does_not_arm_a_step() {
    for block in [
        "      - run: |\n          # EXPECT_OVERFLOW_CHECKS=1 -- see ci_profile.rs\n          cargo test --locked --lib\n",
        "      - run: |\n          cargo test --locked --lib  # EXPECT_OVERFLOW_CHECKS=1 is set in CI\n",
    ] {
        let yaml = GATING.replace(
            "      - run: EXPECT_OVERFLOW_CHECKS=1 cargo test --locked --lib\n",
            block,
        );
        assert!(
            gating_runs_that_prove_the_build_traps(&yaml).is_empty(),
            "the variable is named in a comment, so the process never receives \
                 it and the runtime probe asserts nothing: {block:?}"
        );
    }
}

#[test]
fn a_handshake_glued_to_a_terminator_does_not_arm_a_step() {
    for block in [
        "      - run: |\n          cargo test --locked --lib;# EXPECT_OVERFLOW_CHECKS=1 is set in CI\n",
        "      - run: |\n          (cargo test --locked --lib)# EXPECT_OVERFLOW_CHECKS=1 is set in CI\n",
        "      - run: |\n          cargo test --locked --lib && echo ok&&# EXPECT_OVERFLOW_CHECKS=1 is set in CI\n",
    ] {
        let yaml = GATING.replace(
            "      - run: EXPECT_OVERFLOW_CHECKS=1 cargo test --locked --lib\n",
            block,
        );
        assert!(
            gating_runs_that_prove_the_build_traps(&yaml).is_empty(),
            "the variable is named in a comment, so the process never receives \
                 it and the runtime probe asserts nothing: {block:?}"
        );
    }
}

#[test]
fn a_handshake_that_is_only_printed_does_not_arm_a_step() {
    for block in [
        "      - run: |\n          echo \"EXPECT_OVERFLOW_CHECKS=1\"\n          cargo test --locked --lib\n",
        "      - run: |\n          echo EXPECT_OVERFLOW_CHECKS=1\n          cargo test --locked --lib\n",
        "      - run: |\n          echo \"setting EXPECT_OVERFLOW_CHECKS=1 for the run below\"\n          cargo test --locked --lib\n",
        "      - run: |\n          echo \"EXPECT_OVERFLOW_CHECKS=1\" && cargo test --locked --lib\n",
    ] {
        let yaml = GATING.replace(
            "      - run: EXPECT_OVERFLOW_CHECKS=1 cargo test --locked --lib\n",
            block,
        );
        assert!(
            gating_runs_that_prove_the_build_traps(&yaml).is_empty(),
            "printing the variable does not put it in the environment, so the \
                 runtime probe asserts nothing: {block:?}"
        );
    }
}

#[test]
fn a_standalone_assignment_does_not_arm_the_step() {
    let bare = [
        "on:\n  pull_request:\n",
        "jobs:\n  test:\n    runs-on: ubuntu-latest\n    steps:\n",
        "      - run: |\n",
        "          EXPECT_OVERFLOW_CHECKS=1\n",
        "          cargo test --locked --lib\n",
    ]
    .concat();
    assert_eq!(
        gating_runs_that_prove_the_build_traps(&bare),
        Vec::<String>::new(),
        "the assignment is on its own line, so the cargo test runs without it"
    );

    let prefix = [
        "on:\n  pull_request:\n",
        "jobs:\n  test:\n    runs-on: ubuntu-latest\n    steps:\n",
        "      - run: |\n",
        "          EXPECT_OVERFLOW_CHECKS=1 cargo test --locked --lib\n",
    ]
    .concat();
    assert_eq!(
        gating_runs_that_prove_the_build_traps(&prefix).len(),
        1,
        "a prefix assignment is exported to the command it prefixes"
    );
}

#[test]
fn only_a_legal_identifier_makes_an_assignment_prefix() {
    let w = |line: &str| -> Vec<String> {
        shell_commands(line)
            .into_iter()
            .next()
            .map(|(words, _)| words)
            .unwrap_or_default()
    };
    assert!(
        !assigns_the_handshake(&w("1abc=x EXPECT_OVERFLOW_CHECKS=1 cargo test")),
        "`1abc=x` is a command name, so the handshake is its argument"
    );
    assert!(
        assigns_the_handshake(&w("a=b=c EXPECT_OVERFLOW_CHECKS=1 cargo test")),
        "`a=b=c` assigns `b=c` to `a`, so the prefix is still a prefix"
    );
}

#[test]
fn an_assignment_that_does_not_export_does_not_arm_a_step() {
    for block in [
        "      - run: |\n          declare EXPECT_OVERFLOW_CHECKS=1\n          cargo test --locked --lib\n",
        "      - run: |\n          typeset EXPECT_OVERFLOW_CHECKS=1\n          cargo test --locked --lib\n",
        "      - run: |\n          readonly EXPECT_OVERFLOW_CHECKS=1\n          cargo test --locked --lib\n",
    ] {
        let yaml = GATING.replace(
            "      - run: EXPECT_OVERFLOW_CHECKS=1 cargo test --locked --lib\n",
            block,
        );
        assert!(
            gating_runs_that_prove_the_build_traps(&yaml).is_empty(),
            "this builtin sets a shell variable the child never sees, so the \
                 runtime probe asserts nothing: {block:?}"
        );
    }
}

#[test]
fn both_real_spellings_of_the_handshake_still_arm_a_step() {
    for block in [
        "      - run: EXPECT_OVERFLOW_CHECKS=1 cargo test --locked --lib\n",
        "      - run: cargo test --locked --lib\n        env:\n          EXPECT_OVERFLOW_CHECKS: \"1\"\n",
        "      - run: |\n          # the guard is armed below, not here\n          EXPECT_OVERFLOW_CHECKS=1 cargo test --locked --lib\n",
        "      - run: |\n          export EXPECT_OVERFLOW_CHECKS=1\n          cargo test --locked --lib\n",
        "      - run: env EXPECT_OVERFLOW_CHECKS=1 cargo test --locked --lib\n",
        "      - run: |\n          declare -x EXPECT_OVERFLOW_CHECKS=1\n          cargo test --locked --lib\n",
        "      - run: |\n          typeset -x EXPECT_OVERFLOW_CHECKS=1\n          cargo test --locked --lib\n",
    ] {
        let yaml = GATING.replace(
            "      - run: EXPECT_OVERFLOW_CHECKS=1 cargo test --locked --lib\n",
            block,
        );
        assert_eq!(
            gating_runs_that_prove_the_build_traps(&yaml).len(),
            1,
            "this step really does ask the build to prove it traps: {block:?}"
        );
    }
}

const GATING: &str = "\
on:
  pull_request:
    branches: [main]
jobs:
  test:
    steps:
      - run: EXPECT_OVERFLOW_CHECKS=1 cargo test --locked --lib
";

#[test]
fn the_control_shape_gates() {
    assert_eq!(
        gating_runs_that_prove_the_build_traps(GATING).len(),
        1,
        "the control must be counted, or every test below passes for the wrong reason"
    );
}

#[test]
fn a_step_carrying_if_does_not_gate() {
    for condition in [
        "if: false",
        "if: ${{ false }}",
        "if: github.event_name == 'push'",
        "if: ${{ env.SOMETHING == 'yes' }}",
    ] {
        let yaml = GATING.replace(
            "      - run: EXPECT_OVERFLOW_CHECKS=1 cargo test --locked --lib\n",
            &format!(
                "      - run: EXPECT_OVERFLOW_CHECKS=1 cargo test --locked --lib\n        {condition}\n"
            ),
        );
        assert!(
            gating_runs_that_prove_the_build_traps(&yaml).is_empty(),
            "a step carrying `{condition}` may or may not run, so it cannot be what \
                 makes a pull request able to see an overflow. Rejected on the key's presence \
                 rather than by evaluating it -- the spellings are open-ended."
        );
    }
}

#[test]
fn a_step_carrying_continue_on_error_does_not_gate() {
    let yaml = GATING.replace(
        "      - run: EXPECT_OVERFLOW_CHECKS=1 cargo test --locked --lib\n",
        "      - run: EXPECT_OVERFLOW_CHECKS=1 cargo test --locked --lib\n        continue-on-error: true\n",
    );
    assert!(
        gating_runs_that_prove_the_build_traps(&yaml).is_empty(),
        "the step runs and its failure is discarded, which is the project's own named \
             defect: a step that runs and whose result nothing reads"
    );
}

#[test]
fn a_job_carrying_if_does_not_gate() {
    let yaml = GATING.replace("  test:\n", "  test:\n    if: false\n");
    assert!(
        gating_runs_that_prove_the_build_traps(&yaml).is_empty(),
        "the same reasoning one level up: a job that may not run cannot gate"
    );
}

#[test]
fn a_job_carrying_continue_on_error_does_not_gate() {
    let yaml = GATING.replace("  test:\n", "  test:\n    continue-on-error: true\n");
    assert!(
        gating_runs_that_prove_the_build_traps(&yaml).is_empty(),
        "a job whose failure is discarded cannot gate, however sound its steps"
    );
}

#[test]
fn a_workflow_that_no_longer_runs_on_pull_request_does_not_gate() {
    let yaml = GATING.replace(
        "  pull_request:\n    branches: [main]\n",
        "  push:\n    branches: [main]\n",
    );
    assert!(
        gating_runs_that_prove_the_build_traps(&yaml).is_empty(),
        "scoping the scan to ci.yml assumes ci.yml is what runs on a pull request; if its \
             triggers stop including pull_request, the step gates nothing no matter how it looks"
    );
}

#[test]
fn a_run_block_is_read_whole() {
    let yaml = "\
on:
  pull_request:
    branches: [main]
jobs:
  test:
    steps:
      - name: a block
        run: |
          set -euo pipefail
          EXPECT_OVERFLOW_CHECKS=1 cargo test --locked --lib
";
    assert_eq!(
        gating_runs_that_prove_the_build_traps(yaml).len(),
        1,
        "a command inside a `run: |` block must be seen; the kernel-gate loops live in \
             blocks like this one"
    );
}

#[test]
fn a_quoted_key_is_the_same_key() {
    for spelling in [
        "\"if\": false",
        "'if': false",
        "\"continue-on-error\": true",
        "'continue-on-error': true",
    ] {
        let yaml = GATING.replace(
            "      - run: EXPECT_OVERFLOW_CHECKS=1 cargo test --locked --lib\n",
            &format!(
                "      - run: EXPECT_OVERFLOW_CHECKS=1 cargo test --locked --lib\n        {spelling}\n"
            ),
        );
        assert!(
            gating_runs_that_prove_the_build_traps(&yaml).is_empty(),
            "`{spelling}` is the same key as its bare spelling; quoting it must not \
                 make a skipped step count as the thing gating the merge"
        );
    }
}

#[test]
fn a_quoted_key_on_the_job_is_the_same_key() {
    for spelling in ["\"if\": false", "\"continue-on-error\": true"] {
        let yaml = GATING.replace("  test:\n", &format!("  test:\n    {spelling}\n"));
        assert!(
            gating_runs_that_prove_the_build_traps(&yaml).is_empty(),
            "`{spelling}` on the job is the same key as its bare spelling"
        );
    }
}

#[test]
fn a_commented_out_pull_request_trigger_does_not_gate() {
    let commented_with_another_trigger_left = GATING.replace(
        "  pull_request:\n    branches: [main]\n",
        "  # pull_request:\n  #   branches: [main]\n  push:\n    branches: [main]\n",
    );
    let only_a_comment_naming_it = GATING.replace(
        "  pull_request:\n    branches: [main]\n",
        "  # pull_request disabled while we investigate flaky runners\n  push:\n    branches: [main]\n",
    );
    for yaml in [
        &commented_with_another_trigger_left,
        &only_a_comment_naming_it,
    ] {
        assert!(
            gating_runs_that_prove_the_build_traps(yaml).is_empty(),
            "a trigger named only in a comment is not a trigger; the parser drops \
                 comments before anything compares a name, so there is no `#` to strip \
                 and none to forget:\n{yaml}"
        );
    }
}

#[test]
fn a_trigger_that_merely_begins_with_pull_request_does_not_gate() {
    let yaml = GATING.replace(
        "  pull_request:\n    branches: [main]\n",
        "  pull_request_review:\n    types: [submitted]\n",
    );
    assert!(
        gating_runs_that_prove_the_build_traps(&yaml).is_empty(),
        "pull_request_review is not pull_request; a substring match cannot tell \
             them apart and this comparison must"
    );
}

#[test]
fn pull_request_target_does_not_gate() {
    let yaml = GATING.replace(
        "  pull_request:\n    branches: [main]\n",
        "  pull_request_target:\n    branches: [main]\n",
    );
    assert!(
        gating_runs_that_prove_the_build_traps(&yaml).is_empty(),
        "pull_request_target runs with the base repository's token and secrets \
             and checks out the base ref; it is not proof that the merge is gated"
    );
}

#[test]
fn a_sequence_of_triggers_is_read() {
    for spelling in [
        "on: [push, pull_request]\n",
        "on:\n  - push\n  - pull_request\n",
    ] {
        let yaml = GATING.replace("on:\n  pull_request:\n    branches: [main]\n", spelling);
        assert_eq!(
            gating_runs_that_prove_the_build_traps(&yaml).len(),
            1,
            "this workflow triggers on a pull request as surely as the mapping \
                 spelling does:\n{yaml}"
        );
    }
}

#[test]
fn every_block_scalar_style_is_read_whole() {
    for style in ["|", "|-", "|+", ">", ">-", "|2"] {
        let yaml = GATING.replace(
            "      - run: EXPECT_OVERFLOW_CHECKS=1 cargo test --locked --lib\n",
            &format!(
                "      - name: a block\n        run: {style}\n          EXPECT_OVERFLOW_CHECKS=1 cargo test --locked --lib\n"
            ),
        );
        assert_eq!(
            gating_runs_that_prove_the_build_traps(&yaml).len(),
            1,
            "`run: {style}` is a legal block scalar carrying the gating command; \
                 failing here is the guard refusing a correct workflow:\n{yaml}"
        );
    }
}

#[test]
fn a_debug_run_quoted_in_a_yaml_comment_does_not_gate() {
    let yaml = "\
on:
  pull_request:
    branches: [main]
jobs:
  test:
    steps:
      # Do not remove this as a duplicate of the runs above it:
      #     - run: EXPECT_OVERFLOW_CHECKS=1 cargo test --locked --lib
      - run: cargo test --locked --release
";
    assert!(
        gating_runs_that_prove_the_build_traps(yaml).is_empty(),
        "the gating command appears only inside a comment, and the step that \
             remains is a release run"
    );
}

#[test]
#[should_panic(expected = "not valid YAML")]
fn a_workflow_that_does_not_parse_is_a_failure() {
    parse_workflow("jobs:\n  test:\n   - broken: [unclosed\n");
}

#[test]
fn a_workflow_carrying_both_triggers_still_gates() {
    let yaml = GATING.replace(
        "  pull_request:\n    branches: [main]\n",
        "  pull_request:\n    branches: [main]\n  pull_request_target:\n    branches: [main]\n",
    );
    assert_ne!(yaml, GATING, "the mutation must actually apply");
    assert_eq!(
        gating_runs_that_prove_the_build_traps(&yaml).len(),
        1,
        "the workflow still triggers on pull_request, so it still gates; refusing it \
             because pull_request_target is also present would be the over-correction"
    );
}

#[test]
fn the_handshake_declared_in_an_env_mapping_counts() {
    for value in ["\"1\"", "1", "'1'"] {
        let yaml = GATING.replace(
            "      - run: EXPECT_OVERFLOW_CHECKS=1 cargo test --locked --lib\n",
            &format!(
                "      - run: cargo test --locked --lib\n        env:\n          EXPECT_OVERFLOW_CHECKS: {value}\n"
            ),
        );
        assert_eq!(
            gating_runs_that_prove_the_build_traps(&yaml).len(),
            1,
            "`EXPECT_OVERFLOW_CHECKS: {value}` in an env mapping is the same \
                 instruction to Actions as the inline prefix, and on a Windows \
                 matrix it is the only one that works:\n{yaml}"
        );
    }
}

#[test]
fn the_handshake_in_an_env_mapping_does_not_count_on_a_release_run() {
    let yaml = GATING.replace(
        "      - run: EXPECT_OVERFLOW_CHECKS=1 cargo test --locked --lib\n",
        "      - run: cargo test --locked --release --lib\n        env:\n          EXPECT_OVERFLOW_CHECKS: \"1\"\n",
    );
    assert!(
        gating_runs_that_prove_the_build_traps(&yaml).is_empty(),
        "a release run cannot prove the build traps, however it is labelled"
    );
}

#[test]
fn a_step_carrying_an_env_mapping_still_gates() {
    let yaml = GATING.replace(
        "      - run: EXPECT_OVERFLOW_CHECKS=1 cargo test --locked --lib\n",
        "      - run: EXPECT_OVERFLOW_CHECKS=1 cargo test --locked --lib\n        env:\n          SOMETHING_ELSE: \"1\"\n",
    );
    assert_eq!(
        gating_runs_that_prove_the_build_traps(&yaml).len(),
        1,
        "`env:` says nothing about whether the step's result is read"
    );
}
