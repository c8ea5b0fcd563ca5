//! The commands a second start of the program sends to the running one.
use vstd::prelude::*;

verus! {

/// A request to the running program: show the main window, or open an intercept window for a
/// URL.
#[derive(Debug, Clone, PartialEq, Eq)]
pub enum IpcCommand {
    ShowMain,
    OpenIntercept { url: String },
}

/// The command a start of the program asks for: an intercept window where it was given a URL,
/// else the main window.
pub fn command_for_launch(initial_url: &Option<String>) -> (r: IpcCommand)
    ensures
        match initial_url {
            Some(u) => r matches IpcCommand::OpenIntercept { url } && url@ == u@,
            None => r matches IpcCommand::ShowMain,
        },
{
    match initial_url {
        Some(u) => IpcCommand::OpenIntercept { url: u.clone() },
        None => IpcCommand::ShowMain,
    }
}

} // verus!
