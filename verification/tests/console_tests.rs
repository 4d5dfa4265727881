use aevum::console::{parse_replay_command, ReplayCommand};

#[test]
fn replay_commands() {
    assert_eq!(parse_replay_command("n\n"), ReplayCommand::Next);
    assert_eq!(parse_replay_command("  next  "), ReplayCommand::Next);
    assert_eq!(parse_replay_command("p"), ReplayCommand::Previous);
    assert_eq!(parse_replay_command("prev\r\n"), ReplayCommand::Previous);
    assert_eq!(parse_replay_command("previous"), ReplayCommand::Previous);
    assert_eq!(parse_replay_command("q"), ReplayCommand::Quit);
    assert_eq!(parse_replay_command("quit"), ReplayCommand::Quit);
    assert_eq!(parse_replay_command("exit"), ReplayCommand::Quit);
    assert_eq!(parse_replay_command("\t\n"), ReplayCommand::Empty);
    assert_eq!(parse_replay_command(""), ReplayCommand::Empty);
    assert_eq!(parse_replay_command("nx"), ReplayCommand::Unknown);
    assert_eq!(parse_replay_command("g"), ReplayCommand::Unknown);
    assert_eq!(parse_replay_command("goto"), ReplayCommand::Unknown);
}

#[test]
fn replay_goto_commands() {
    assert_eq!(parse_replay_command("g 5"), ReplayCommand::Goto(5));
    assert_eq!(parse_replay_command("goto 42\n"), ReplayCommand::Goto(42));
    assert_eq!(parse_replay_command("g   +7"), ReplayCommand::Goto(7));
    assert_eq!(parse_replay_command("g 18446744073709551615"), ReplayCommand::Goto(u64::MAX));
    assert_eq!(parse_replay_command("g 18446744073709551616"), ReplayCommand::Ignored);
    assert_eq!(parse_replay_command("g -1"), ReplayCommand::Ignored);
    assert_eq!(parse_replay_command("g +"), ReplayCommand::Ignored);
    assert_eq!(parse_replay_command("g 1 2"), ReplayCommand::Ignored);
    assert_eq!(parse_replay_command("g x"), ReplayCommand::Ignored);
    assert_eq!(parse_replay_command("goto\u{3000}9"), ReplayCommand::Unknown);
    assert_eq!(parse_replay_command("g 9\u{3000}"), ReplayCommand::Goto(9));
}

/// The command a line stands for, as the prompt loop matched it on the trimmed line.
fn reference(line: &str) -> ReplayCommand {
    let input = line.trim();
    match input {
        "n" | "next" => ReplayCommand::Next,
        "p" | "prev" | "previous" => ReplayCommand::Previous,
        "q" | "quit" | "exit" => ReplayCommand::Quit,
        _ if input.starts_with("g ") || input.starts_with("goto ") => {
            let parts: Vec<&str> = input.split_whitespace().collect();
            if parts.len() == 2 {
                if let Ok(step) = parts[1].parse::<u64>() {
                    return ReplayCommand::Goto(step);
                }
            }
            ReplayCommand::Ignored
        }
        "" => ReplayCommand::Empty,
        _ => ReplayCommand::Unknown,
    }
}

#[test]
fn replay_commands_agree_with_std_parsing() {
    let samples = [
        "n", " p ", "g 12", "goto  +0012", "g\t3", "g 3\u{a0}4", "goto 99999999999999999999", "exit\n", "q q", "g ++1",
        "g 0", "\u{2003}next\u{2003}", "g 1\u{85}",
    ];
    for s in samples {
        assert_eq!(parse_replay_command(s), reference(s), "{:?}", s);
    }
}
