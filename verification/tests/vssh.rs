use sysprogs::vssh::{classify, externalize, input_handler, CommandParameters, ShellAction};

fn params(commands: &[&str]) -> CommandParameters {
    CommandParameters {
        background: false,
        input_file: " ".to_string(),
        output_file: " ".to_string(),
        pipelined_commands: commands.iter().map(|s| s.to_string()).collect(),
    }
}

#[test]
fn words_of_a_command() {
    assert_eq!(externalize(&"  ls  -l /tmp ".to_string()), vec!["ls", "-l", "/tmp"]);
    assert!(externalize(&"   ".to_string()).is_empty());
}

#[test]
fn input_redirection_names_the_file_after_lt() {
    let c = input_handler(params(&["sort < data.txt ", " uniq"]));
    assert_eq!(c.input_file, "data.txt");
    assert_eq!(c.output_file, " ");
    assert_eq!(c.pipelined_commands, vec!["sort ".to_string(), " uniq".to_string()]);
}

#[test]
fn output_redirection_names_the_file_after_gt() {
    let c = input_handler(params(&["cat a", " wc > out.txt"]));
    assert_eq!(c.input_file, " ");
    assert_eq!(c.output_file, "out.txt");
    assert_eq!(c.pipelined_commands, vec!["cat a".to_string(), " wc ".to_string()]);
}

#[test]
fn both_redirections_on_one_command() {
    let c = input_handler(params(&["tr a b < in.txt > out.txt"]));
    assert_eq!(c.input_file, "in.txt");
    assert_eq!(c.output_file, "out.txt");
    assert_eq!(c.pipelined_commands, vec!["tr a b ".to_string()]);
}

#[test]
fn no_redirection() {
    let c = input_handler(params(&["ls"]));
    assert_eq!(c.input_file, " ");
    assert_eq!(c.output_file, " ");
    assert_eq!(c.pipelined_commands, vec!["ls".to_string()]);
}

#[test]
fn what_the_shell_does_with_a_line() {
    assert!(matches!(classify(&String::new()), Some(ShellAction::Nothing)));
    assert!(matches!(classify(&"exit".to_string()), Some(ShellAction::Exit)));
    assert!(matches!(classify(&"exit ".to_string()), Some(ShellAction::Exit)));
    match classify(&"cd /tmp".to_string()) {
        Some(ShellAction::ChangeDir(d)) => assert_eq!(d, "/tmp"),
        _ => panic!("expected a change of directory"),
    }
    assert!(classify(&"cd".to_string()).is_none());
    assert!(classify(&"   ".to_string()).is_none());
    match classify(&"ls -l | wc".to_string()) {
        Some(ShellAction::Run(c)) => {
            assert_eq!(c.pipelined_commands, vec!["ls -l ".to_string(), " wc".to_string()]);
            assert_eq!(c.input_file, " ");
            assert_eq!(c.output_file, " ");
            assert!(!c.background);
        }
        _ => panic!("expected a pipeline"),
    }
    match classify(&"sleep 5 | cat &  ".to_string()) {
        Some(ShellAction::Run(c)) => {
            assert!(!c.background);
            assert_eq!(c.pipelined_commands, vec!["sleep 5 ".to_string(), " cat &  ".to_string()]);
        }
        _ => panic!("expected a pipeline"),
    }
}

#[test]
fn a_final_ampersand_runs_the_line_in_the_background() {
    let c = input_handler(params(&["sleep 10 &"]));
    assert!(c.background);
    assert_eq!(c.pipelined_commands, vec!["sleep 10 ".to_string()]);

    let c = input_handler(params(&["sleep 5 ", " cat &  "]));
    assert!(c.background);
    assert_eq!(c.pipelined_commands, vec!["sleep 5 ".to_string(), " cat ".to_string()]);

    let c = input_handler(params(&["sort < in.txt > out.txt &"]));
    assert!(c.background);
    assert_eq!(c.input_file, "in.txt");
    assert_eq!(c.output_file, "out.txt");
    assert_eq!(c.pipelined_commands, vec!["sort ".to_string()]);

    let c = input_handler(params(&["echo a&b"]));
    assert!(!c.background);
    assert_eq!(c.pipelined_commands, vec!["echo a&b".to_string()]);
}
