use oombak::command_line::{append_decimal, CommandLine, HandleResult, KeyInput, State};
use oombak::render::Message;
use oombak::sim::{Request, Response};

fn type_line(c: &mut CommandLine, line: &str) {
    for ch in line.chars() {
        c.handle_key_event(KeyInput::Text(ch.to_string()));
    }
}

#[test]
fn colon_opens_the_line_and_text_extends_it() {
    let mut c = CommandLine::new();
    assert!(c.state == State::NotActive);
    c.handle_key_event(KeyInput::Text("x".to_string()));
    assert_eq!(c.text, "");
    type_line(&mut c, ":run 5");
    assert!(c.state == State::Active);
    assert_eq!(c.text, ":run 5");
}

#[test]
fn backspace_keeps_the_prompt() {
    let mut c = CommandLine::new();
    type_line(&mut c, ":ab");
    c.handle_key_event(KeyInput::Backspace);
    assert_eq!(c.text, ":a");
    c.handle_key_event(KeyInput::Backspace);
    c.handle_key_event(KeyInput::Backspace);
    assert_eq!(c.text, ":");
}

#[test]
fn enter_runs_the_line_and_releases_focus() {
    let mut c = CommandLine::new();
    type_line(&mut c, ":run 5");
    let (res, req) = c.handle_key_event(KeyInput::Enter);
    assert!(res == HandleResult::ReleaseFocus);
    assert!(matches!(req, Some(Request::Run(5))));
    assert!(c.state == State::NotActive);
    assert_eq!(c.result_history.last(), Some(&Ok("executed: run 5".to_string())));
}

#[test]
fn syntax_error_goes_to_history() {
    let mut c = CommandLine::new();
    type_line(&mut c, ":jump");
    let (_, req) = c.handle_key_event(KeyInput::Enter);
    assert!(req.is_none());
    assert!(matches!(c.result_history.last(), Some(Err(_))));
}

#[test]
fn empty_line_does_nothing() {
    let mut c = CommandLine::new();
    type_line(&mut c, ":");
    let (_, req) = c.handle_key_event(KeyInput::Enter);
    assert!(req.is_none());
    assert!(c.result_history.is_empty());
}

#[test]
fn escape_closes_without_running() {
    let mut c = CommandLine::new();
    type_line(&mut c, ":run 1");
    let (res, req) = c.handle_key_event(KeyInput::Esc);
    assert!(res == HandleResult::ReleaseFocus);
    assert!(req.is_none());
    assert!(c.result_history.is_empty());
}

#[test]
fn responses_join_the_history() {
    let mut c = CommandLine::new();
    c.on_receive_response(&Response::RunResult(Ok(120)));
    c.on_receive_response(&Response::SetSignalResult(Err("unknown signal x".to_string())));
    c.on_receive_response(&Response::ModifyProbedPointsResult(Ok(())));
    c.on_receive_response(&Response::ModifyProbedPointsResult(Err("bad".to_string())));
    assert_eq!(
        c.result_history,
        vec![
            Ok("run: current time = 120".to_string()),
            Err("set: unknown signal x".to_string()),
            Err("modify probe points: bad".to_string()),
        ]
    );
}

#[test]
fn decimal_text_of_numbers() {
    let mut s = String::from("t=");
    append_decimal(&mut s, 0);
    assert_eq!(s, "t=0");
    let mut s = String::new();
    append_decimal(&mut s, u64::MAX);
    assert_eq!(s, "18446744073709551615");
}

#[test]
fn only_quit_stops_the_renderer() {
    assert!(Message::Quit.is_quit());
    assert!(!Message::Render.is_quit());
}
