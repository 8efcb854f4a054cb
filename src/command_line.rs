//! The command line: a small editing state machine whose submitted lines go
//! through the interpreter and become requests, and a history of results
//! that also records every response it hears of.

use crate::bits::bits_of;
use crate::interpreter::{interpret, meaning, meaning_of, tokens, Command, Meaning};
use crate::sim::{Request, Response};
use vstd::prelude::*;

verus! {

/// Whether the line is being edited.
#[derive(Clone, Copy, Debug, PartialEq, Eq, Structural)]
pub enum State {
    Active,
    NotActive,
}

/// A key as the command line reads it; `Text` carries the typed character.
pub enum KeyInput {
    Esc,
    Enter,
    Backspace,
    Text(String),
    Other,
}

/// What became of an event: handled here, handled with focus given back,
/// or not for this component.
#[derive(Clone, Copy, Debug, PartialEq, Eq, Structural)]
pub enum HandleResult {
    Handled,
    ReleaseFocus,
    NotHandled,
}

/// The line being typed, the results shown so far (newest last), and the
/// editing state.
pub struct CommandLine {
    pub text: String,
    pub result_history: Vec<Result<String, String>>,
    pub state: State,
}

/// The decimal digits of `v`.
pub open spec fn decimal_text(v: nat) -> Seq<char>
    decreases v,
{
    if v < 10 {
        seq![digit_char(v)]
    } else {
        decimal_text(v / 10).push(digit_char(v % 10))
    }
}

/// The digit for `d` below ten.
pub open spec fn digit_char(d: nat) -> char {
    if d == 0 { '0' } else if d == 1 { '1' } else if d == 2 { '2' } else if d == 3 { '3' } else if d == 4 { '4' }
    else if d == 5 { '5' } else if d == 6 { '6' } else if d == 7 { '7' } else if d == 8 { '8' } else { '9' }
}

fn digit_str(d: u64) -> (r: &'static str)
    requires
        d < 10,
    ensures
        r@ == seq![digit_char(d as nat)],
{
    proof {
        reveal_strlit("0");
        reveal_strlit("1");
        reveal_strlit("2");
        reveal_strlit("3");
        reveal_strlit("4");
        reveal_strlit("5");
        reveal_strlit("6");
        reveal_strlit("7");
        reveal_strlit("8");
        reveal_strlit("9");
    }
    if d == 0 { "0" } else if d == 1 { "1" } else if d == 2 { "2" } else if d == 3 { "3" } else if d == 4 { "4" }
    else if d == 5 { "5" } else if d == 6 { "6" } else if d == 7 { "7" } else if d == 8 { "8" } else { "9" }
}

/// Appends the decimal digits of `v` to `out`.
pub fn append_decimal(out: &mut String, v: u64)
    ensures
        final(out)@ == old(out)@ + decimal_text(v as nat),
    decreases v,
{
    if v >= 10 {
        append_decimal(out, v / 10);
    }
    out.append(digit_str(v % 10));
    proof {
        if v >= 10 {
            assert(final(out)@ =~= old(out)@ + decimal_text(v as nat));
        }
    }
}

/// `prefix` followed by `rest`.
fn joined(prefix: &str, rest: &str) -> (r: String)
    ensures
        r@ == prefix@ + rest@,
{
    let mut m = prefix.to_owned();
    m.append(rest);
    m
}

/// The line after its leading prompt character.
pub open spec fn command_text(text: Seq<char>) -> Seq<char> {
    if text.len() == 0 {
        text
    } else {
        text.drop_first()
    }
}

/// The request that a parsed command asks for (none for `Noop`).
pub open spec fn request_meaning(r: Request) -> Option<Meaning> {
    match r {
        Request::Run(d) => Some(Meaning::Run(d as nat)),
        Request::Load(p) => Some(Meaning::Load(p@)),
        Request::SetSignal(n, b) => Some(Meaning::SetSignal(n@, bits_of(b))),
        _ => None,
    }
}

/// The history line that `response` adds, if any.
pub open spec fn response_line(response: Response) -> Option<Result<Seq<char>, Seq<char>>> {
    match response {
        Response::RunResult(Ok(t)) => Some(Ok("run: current time = "@ + decimal_text(t as nat))),
        Response::SetSignalResult(Ok(_)) => Some(Ok("set: success"@)),
        Response::LoadResult(Ok(_)) => Some(Ok("load: success"@)),
        Response::RunResult(Err(e)) => Some(Err("run: "@ + e@)),
        Response::SetSignalResult(Err(e)) => Some(Err("set: "@ + e@)),
        Response::LoadResult(Err(e)) => Some(Err("load: "@ + e@)),
        Response::ModifyProbedPointsResult(Err(e)) => Some(Err("modify probe points: "@ + e@)),
        Response::ModifyProbedPointsResult(Ok(_)) => None,
    }
}

/// What a history entry reads.
pub open spec fn entry_view(e: Result<String, String>) -> Result<Seq<char>, Seq<char>> {
    match e {
        Ok(s) => Ok(s@),
        Err(s) => Err(s@),
    }
}

impl CommandLine {
    /// An idle command line with an empty history.
    pub fn new() -> (r: CommandLine)
        ensures
            r.text@.len() == 0,
            r.result_history@.len() == 0,
            r.state == State::NotActive,
    {
        CommandLine { text: String::new(), result_history: Vec::new(), state: State::NotActive }
    }

    /// Runs the line typed so far (after its prompt): a syntax error joins
    /// the history; a command other than `Noop` becomes the returned request,
    /// and an "executed" line joins the history.
    pub fn execute_command(&mut self) -> (r: Option<Request>)
        ensures
            final(self).text == old(self).text,
            final(self).state == old(self).state,
            match meaning(tokens(command_text(old(self).text@))) {
                None => {
                    &&& r is None
                    &&& final(self).result_history@.len() == old(self).result_history@.len() + 1
                    &&& final(self).result_history@.drop_last() == old(self).result_history@
                    &&& final(self).result_history@.last() is Err
                },
                Some(Meaning::Noop) => r is None && final(self).result_history == old(self).result_history,
                Some(m) => {
                    &&& r matches Some(req) && request_meaning(req) == Some(m)
                    &&& final(self).result_history@.len() == old(self).result_history@.len() + 1
                    &&& final(self).result_history@.drop_last() == old(self).result_history@
                    &&& entry_view(final(self).result_history@.last()) == Ok::<Seq<char>, Seq<char>>(
                        "executed: "@ + command_text(old(self).text@),
                    )
                },
            },
    {
        let n = self.text.as_str().unicode_len();
        let command_string = if n == 0 {
            self.text.as_str()
        } else {
            self.text.as_str().substring_char(1, n)
        };
        proof {
            if n > 0 {
                assert(command_string@ =~= command_text(self.text@));
            }
        }
        match interpret(command_string) {
            Ok(command) => {
                let request = match command {
                    Command::Run(x) => Request::Run(x),
                    Command::Load(x) => Request::Load(x),
                    Command::SetSignal(sig_name, value) => Request::SetSignal(sig_name, value),
                    Command::Noop => {
                        return None;
                    },
                };
                let line = joined("executed: ", command_string);
                self.result_history.push(Ok(line));
                proof {
                    assert(self.result_history@.drop_last() =~= old(self).result_history@);
                }
                Some(request)
            },
            Err(message) => {
                self.result_history.push(Err(message));
                proof {
                    assert(self.result_history@.drop_last() =~= old(self).result_history@);
                }
                None
            },
        }
    }

    /// Reacts to a key: `:` opens the line, typed text extends it while it
    /// is open, backspace removes the last character but never the prompt,
    /// escape closes it, and enter closes it and runs it (the request, if
    /// any, is returned).
    pub fn handle_key_event(&mut self, key: KeyInput) -> (r: (HandleResult, Option<Request>))
        ensures
            match key {
                KeyInput::Esc => {
                    &&& r.0 == HandleResult::ReleaseFocus
                    &&& r.1 is None
                    &&& final(self).state == State::NotActive
                    &&& final(self).text == old(self).text
                    &&& final(self).result_history == old(self).result_history
                },
                KeyInput::Enter => {
                    &&& r.0 == HandleResult::ReleaseFocus
                    &&& final(self).state == State::NotActive
                    &&& final(self).text == old(self).text
                    &&& match meaning(tokens(command_text(old(self).text@))) {
                        None => {
                            &&& r.1 is None
                            &&& final(self).result_history@.len() == old(self).result_history@.len() + 1
                            &&& final(self).result_history@.drop_last() == old(self).result_history@
                            &&& final(self).result_history@.last() is Err
                        },
                        Some(Meaning::Noop) => r.1 is None && final(self).result_history == old(self).result_history,
                        Some(m) => {
                            &&& r.1 matches Some(req) && request_meaning(req) == Some(m)
                            &&& final(self).result_history@.len() == old(self).result_history@.len() + 1
                            &&& final(self).result_history@.drop_last() == old(self).result_history@
                            &&& entry_view(final(self).result_history@.last()) == Ok::<Seq<char>, Seq<char>>(
                                "executed: "@ + command_text(old(self).text@),
                            )
                        },
                    }
                },
                KeyInput::Text(t) => {
                    &&& r.0 == HandleResult::Handled
                    &&& r.1 is None
                    &&& final(self).result_history == old(self).result_history
                    &&& if t@ == ":"@ {
                        final(self).state == State::Active && final(self).text@ == ":"@
                    } else if old(self).state == State::Active {
                        final(self).state == State::Active && final(self).text@ == old(self).text@ + t@
                    } else {
                        final(self).state == old(self).state && final(self).text == old(self).text
                    }
                },
                KeyInput::Backspace => {
                    &&& r.0 == HandleResult::Handled
                    &&& r.1 is None
                    &&& final(self).result_history == old(self).result_history
                    &&& final(self).state == old(self).state
                    &&& if old(self).state == State::Active && old(self).text@.len() > 1 {
                        final(self).text@ == old(self).text@.drop_last()
                    } else {
                        final(self).text == old(self).text
                    }
                },
                KeyInput::Other => {
                    &&& r.0 == HandleResult::Handled
                    &&& r.1 is None
                    &&& final(self).state == old(self).state
                    &&& final(self).text == old(self).text
                    &&& final(self).result_history == old(self).result_history
                },
            },
    {
        match key {
            KeyInput::Esc => {
                self.state = State::NotActive;
                (HandleResult::ReleaseFocus, None)
            },
            KeyInput::Enter => {
                self.state = State::NotActive;
                let request = self.execute_command();
                (HandleResult::ReleaseFocus, request)
            },
            KeyInput::Text(t) => {
                if crate::paths::same_text(t.as_str(), ":") {
                    self.state = State::Active;
                    self.text = ":".to_owned();
                } else if self.state == State::Active {
                    self.text.append(t.as_str());
                }
                (HandleResult::Handled, None)
            },
            KeyInput::Backspace => {
                let n = self.text.as_str().unicode_len();
                if self.state == State::Active && n > 1 {
                    let kept = self.text.as_str().substring_char(0, n - 1).to_owned();
                    self.text = kept;
                }
                (HandleResult::Handled, None)
            },
            KeyInput::Other => (HandleResult::Handled, None),
        }
    }

    /// Records what `response` reports: a line for each outcome but a
    /// successful probe change.
    pub fn on_receive_response(&mut self, response: &Response)
        ensures
            final(self).text == old(self).text,
            final(self).state == old(self).state,
            match response_line(*response) {
                Some(line) => {
                    &&& final(self).result_history@.len() == old(self).result_history@.len() + 1
                    &&& final(self).result_history@.drop_last() == old(self).result_history@
                    &&& entry_view(final(self).result_history@.last()) == line
                },
                None => final(self).result_history == old(self).result_history,
            },
    {
        let entry = match response {
            Response::RunResult(Ok(curr_time)) => {
                let mut m = "run: current time = ".to_owned();
                append_decimal(&mut m, *curr_time);
                Ok(m)
            },
            Response::SetSignalResult(Ok(_)) => Ok("set: success".to_owned()),
            Response::LoadResult(Ok(_)) => Ok("load: success".to_owned()),
            Response::RunResult(Err(e)) => Err(joined("run: ", e.as_str())),
            Response::SetSignalResult(Err(e)) => Err(joined("set: ", e.as_str())),
            Response::LoadResult(Err(e)) => Err(joined("load: ", e.as_str())),
            Response::ModifyProbedPointsResult(Err(e)) => Err(joined("modify probe points: ", e.as_str())),
            Response::ModifyProbedPointsResult(Ok(_)) => {
                return;
            },
        };
        self.result_history.push(entry);
        proof {
            assert(self.result_history@.drop_last() =~= old(self).result_history@);
        }
    }
}

} // verus!
