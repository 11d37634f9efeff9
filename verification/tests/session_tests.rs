use std::rc::Rc;

use termprompt::command::{Command, CommandArg, CommandHandler, CommandRegistry, HandlerRef};
use termprompt::session::{KeyInput, PromptConfig, PromptSession};

struct EchoHandler;

impl CommandHandler for EchoHandler {
    fn run(&self, args: Vec<(String, String)>) -> String {
        let mut parts: Vec<String> = Vec::new();
        for (k, v) in args {
            parts.push(format!("{}={}", k, v));
        }
        parts.join(",")
    }
}

fn handler() -> Option<HandlerRef> {
    Some(Rc::new(Box::new(EchoHandler) as Box<dyn CommandHandler>))
}

fn plain(name: &str) -> Command {
    Command {
        name: name.to_string(),
        args: vec![],
        subcommands: vec![],
        handler: handler(),
    }
}

fn registry(names: &[&str]) -> CommandRegistry {
    let mut reg = CommandRegistry::new();
    for n in names {
        reg.register_command(plain(n));
    }
    reg
}

fn session(names: &[&str]) -> PromptSession {
    PromptSession::new(PromptConfig::new("> ", registry(names)))
}

fn type_line(s: &mut PromptSession, line: &str) {
    for c in line.chars() {
        s.handle_key(KeyInput::Char(c));
    }
}

fn buffer(s: &PromptSession) -> String {
    s.input.iter().collect()
}

#[test]
fn typing_updates_buffer_cursor_and_suggestions() {
    let mut s = session(&["give", "grab"]);
    s.handle_key(KeyInput::Char('g'));
    s.handle_key(KeyInput::Char('i'));
    assert_eq!(buffer(&s), "gi");
    assert_eq!(s.cursor_pos, 2);
    assert_eq!(s.suggestions, vec!["give".to_string()]);
    assert_eq!(s.selected_suggestion, Some(0));
}

#[test]
fn character_inserts_at_cursor() {
    let mut s = session(&["give"]);
    type_line(&mut s, "gv");
    s.handle_key(KeyInput::Left);
    s.handle_key(KeyInput::Char('i'));
    assert_eq!(buffer(&s), "giv");
    assert_eq!(s.cursor_pos, 2);
}

#[test]
fn backspace_deletes_before_cursor_and_clamps_at_zero() {
    let mut s = session(&["give"]);
    type_line(&mut s, "gi");
    s.handle_key(KeyInput::Backspace);
    assert_eq!(buffer(&s), "g");
    assert_eq!(s.cursor_pos, 1);
    s.handle_key(KeyInput::Backspace);
    s.handle_key(KeyInput::Backspace);
    assert_eq!(buffer(&s), "");
    assert_eq!(s.cursor_pos, 0);
}

#[test]
fn arrows_clamp_to_buffer_bounds() {
    let mut s = session(&["give"]);
    type_line(&mut s, "gi");
    s.handle_key(KeyInput::Right);
    assert_eq!(s.cursor_pos, 2);
    s.handle_key(KeyInput::Left);
    s.handle_key(KeyInput::Left);
    s.handle_key(KeyInput::Left);
    assert_eq!(s.cursor_pos, 0);
}

#[test]
fn suggestion_navigation_stays_inside_visible_range() {
    let mut s = session(&["aa", "ab", "ac", "ad", "ae", "af", "ag"]);
    // Empty buffer: all seven names suggested, panel shows five.
    assert_eq!(s.suggestions.len(), 0);
    s.handle_key(KeyInput::Char('a'));
    s.handle_key(KeyInput::Backspace);
    assert_eq!(s.suggestions.len(), 7);
    assert_eq!(s.selected_suggestion, Some(0));
    for _ in 0..10 {
        s.handle_key(KeyInput::Down);
        let sel = s.selected_suggestion.unwrap();
        assert!(sel < 5);
    }
    assert_eq!(s.selected_suggestion, Some(4));
    for _ in 0..10 {
        s.handle_key(KeyInput::Up);
        let sel = s.selected_suggestion.unwrap();
        assert!(sel < 5);
    }
    assert_eq!(s.selected_suggestion, Some(0));
}

#[test]
fn tab_with_single_token_replaces_whole_buffer() {
    let mut s = session(&["give", "grab"]);
    type_line(&mut s, "giv");
    assert_eq!(s.suggestions, vec!["give".to_string()]);
    assert_eq!(s.selected_suggestion, Some(0));
    s.handle_key(KeyInput::Tab);
    assert_eq!(buffer(&s), "give");
    assert_eq!(s.cursor_pos, 4);
}

#[test]
fn tab_with_many_tokens_replaces_after_last_space() {
    let mut reg = CommandRegistry::new();
    reg.register_command(Command {
        name: "give".to_string(),
        args: vec![],
        subcommands: vec![plain("sword")],
        handler: None,
    });
    let mut s = PromptSession::new(PromptConfig::new("> ", reg));
    type_line(&mut s, "give sw");
    assert_eq!(s.suggestions, vec!["give sword".to_string()]);
    s.handle_key(KeyInput::Tab);
    // Only the text after the last space is replaced by the suggestion;
    // the space itself stays.
    assert_eq!(buffer(&s), "give give sword");
    assert_eq!(s.cursor_pos, 15);
}

#[test]
fn enter_runs_command_pushes_history_and_clears() {
    let mut s = session(&["give"]);
    type_line(&mut s, "give");
    let out = s.handle_key(KeyInput::Enter);
    assert_eq!(out, Some(String::new()));
    assert_eq!(buffer(&s), "");
    assert_eq!(s.cursor_pos, 0);
    assert_eq!(s.history_index, None);
    let hist: Vec<String> = s.config.history.clone();
    assert_eq!(hist, vec!["give".to_string()]);
}

#[test]
fn enter_on_empty_buffer_does_nothing() {
    let mut s = session(&["give"]);
    let out = s.handle_key(KeyInput::Enter);
    assert_eq!(out, None);
    assert!(s.running);
    assert!(s.config.history.is_empty());
}

#[test]
fn enter_on_exit_stops_the_session_without_history() {
    let mut s = session(&["give"]);
    type_line(&mut s, "  exit ");
    let out = s.handle_key(KeyInput::Enter);
    assert_eq!(out, None);
    assert!(!s.running);
    assert!(s.config.history.is_empty());
    assert_eq!(buffer(&s), "  exit ");
}

#[test]
fn history_keeps_at_most_the_cap_evicting_oldest_first() {
    let reg = registry(&["give"]);
    let config = PromptConfig::new("> ", reg).with_max_history(2);
    let mut s = PromptSession::new(config);
    for line in ["one", "two", "three"] {
        type_line(&mut s, line);
        s.handle_key(KeyInput::Enter);
    }
    let hist: Vec<String> = s.config.history.clone();
    assert_eq!(hist, vec!["two".to_string(), "three".to_string()]);
}

#[test]
fn history_browsing_replaces_buffer_and_clamps() {
    let mut s = session(&["give"]);
    for line in ["zzz one", "zzz two"] {
        type_line(&mut s, line);
        s.handle_key(KeyInput::Enter);
    }
    // No suggestions for "q", so up/down browse history.
    type_line(&mut s, "q");
    assert!(s.suggestions.is_empty());
    s.handle_key(KeyInput::Up);
    assert_eq!(buffer(&s), "zzz two");
    assert_eq!(s.cursor_pos, 7);
    s.handle_key(KeyInput::Up);
    assert_eq!(buffer(&s), "zzz one");
    s.handle_key(KeyInput::Up);
    assert_eq!(buffer(&s), "zzz one");
    s.handle_key(KeyInput::Down);
    assert_eq!(buffer(&s), "zzz two");
    s.handle_key(KeyInput::Down);
    assert_eq!(buffer(&s), "zzz two");
}

#[test]
fn config_builders_set_their_fields() {
    let reg = registry(&["give"]);
    let config = PromptConfig::new("> ", reg)
        .with_history(vec!["old".to_string()])
        .with_max_history(7)
        .with_max_suggestions(3);
    assert_eq!(config.history, vec!["old".to_string()]);
    assert_eq!(config.max_history, 7);
    assert_eq!(config.max_suggestions, 3);
    assert_eq!(config.prompt, "> ");
}

#[test]
fn max_suggestions_bounds_down_navigation() {
    let reg = registry(&["aa", "ab", "ac"]);
    let config = PromptConfig::new("> ", reg).with_max_suggestions(2);
    let mut s = PromptSession::new(config);
    s.handle_key(KeyInput::Char('a'));
    assert_eq!(s.suggestions.len(), 3);
    for _ in 0..5 {
        s.handle_key(KeyInput::Down);
    }
    assert_eq!(s.selected_suggestion, Some(1));
}

#[test]
fn centered_padding_and_cursor_column() {
    assert_eq!(termprompt::session::centered_padding(10, 80), 35);
    assert_eq!(termprompt::session::centered_padding(80, 80), 0);
    assert_eq!(termprompt::session::centered_padding(81, 80), 0);
    assert_eq!(termprompt::session::cursor_column(35, 2, 4), 41);
}
