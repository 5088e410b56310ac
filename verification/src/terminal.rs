//! The terminal of a container.

use vstd::prelude::*;
use vstd::string::*;

use crate::model;

verus! {

/// What the terminal panel offers.
#[derive(Debug, Clone, Copy, PartialEq, Eq, Structural)]
pub enum TerminalMode {
    Interactive,
    /// The host takes no actions.
    ReadOnly,
    NotRunning,
}

/// What the terminal panel offers: a session needs a container that runs, on a
/// host that takes actions.
pub fn terminal_mode(state: model::ContainerState, read_only: bool) -> (r: TerminalMode)
    ensures
        r == (if read_only {
            TerminalMode::ReadOnly
        } else if state == model::ContainerState::Running {
            TerminalMode::Interactive
        } else {
            TerminalMode::NotRunning
        }),
{
    if read_only {
        TerminalMode::ReadOnly
    } else {
        match state {
            model::ContainerState::Running => TerminalMode::Interactive,
            _ => TerminalMode::NotRunning,
        }
    }
}

/// A frame from the browser.
#[derive(Debug, Clone, Copy)]
pub enum ClientFrame {
    /// Bytes typed.
    Binary,
    /// A text frame: the columns and rows of a new size, if it states one.
    Text(Option<(u16, u16)>),
    /// The browser is leaving.
    Close,
    /// Keep-alive traffic.
    Other,
}

/// What to do with a frame.
#[derive(Debug, Clone, Copy, PartialEq, Eq, Structural)]
pub enum ClientStep {
    /// Pass the bytes on to the session.
    Feed,
    /// Resize the session to this many columns and rows.
    Resize(u16, u16),
    /// Nothing.
    Skip,
    /// End the session.
    End,
}

/// What to do with a frame from the browser. A text frame that states no size
/// is passed over.
pub fn client_step(frame: ClientFrame) -> (r: ClientStep)
    ensures
        r == (match frame {
            ClientFrame::Binary => ClientStep::Feed,
            ClientFrame::Text(Some((cols, rows))) => ClientStep::Resize(cols, rows),
            ClientFrame::Text(None) => ClientStep::Skip,
            ClientFrame::Close => ClientStep::End,
            ClientFrame::Other => ClientStep::Skip,
        }),
{
    match frame {
        ClientFrame::Binary => ClientStep::Feed,
        ClientFrame::Text(Some((cols, rows))) => ClientStep::Resize(cols, rows),
        ClientFrame::Text(None) => ClientStep::Skip,
        ClientFrame::Close => ClientStep::End,
        ClientFrame::Other => ClientStep::Skip,
    }
}

/// The text that a terminal shows when its session does not start.
pub fn terminal_failure(reason: &str) -> (r: String)
    ensures
        r@ == "\r\n\u{1b}[31mfailed to start terminal: "@ + reason@ + "\u{1b}[0m\r\n"@,
{
    let mut out = "\r\n\u{1b}[31mfailed to start terminal: ".to_owned();
    out.append(reason);
    out.append("\u{1b}[0m\r\n");
    out
}

} // verus!
