//! The framing of the local socket: one request per line in, one response per line out.

use crate::api;
use crate::database::Snapshot;
use crate::index;
use crate::json;
use crate::text;
use vstd::prelude::*;

verus! {

/// How long a client may be silent.
pub const READ_TIMEOUT_SECS: u64 = 60;

/// How long a write may block.
pub const WRITE_TIMEOUT_SECS: u64 = 10;

/// The request on a line, without the end of the line; a blank line holds none.
pub fn request_in(line: &str) -> (r: Option<&str>)
    ensures
        match r {
            Some(request) => request@ == text::without_line_end(line@) && request@.len() > 0,
            None => text::without_line_end(line@).len() == 0,
        },
{
    let request = text::strip_line_end(line);
    if request.is_empty() {
        None
    } else {
        Some(request)
    }
}

/// What is written back for a line of input: nothing for a blank one, or else one line.
/// `log` is the log that `snapshot` describes.
pub fn respond(snapshot: &Snapshot, log: &[u8], line: &str) -> (r: Option<String>)
    requires
        index::strictly_sorted(snapshot.entries()),
    ensures
        ({
            let request = text::without_line_end(line@);
            match r {
                Some(output) => {
                    let answer = api::answer(*snapshot, log@, request);
                    &&& request.len() > 0
                    &&& output@ == json::json_text(answer) + "\n"@
                    &&& json::is_line_of(json::json_text(answer), answer)
                },
                None => request.len() == 0,
            }
        }),
{
    match request_in(line) {
        Some(request) => Some(api::handle_line(snapshot, log, request).concat("\n")),
        None => None,
    }
}

/// How to come by the socket.
#[derive(Debug, Clone, Copy, PartialEq, Eq, Structural)]
pub enum BindPlan {
    /// Another instance is running: leave its socket alone.
    InUse,
    /// A file is left over from an instance that is gone: remove it, and bind.
    ReplaceStale,
    /// Bind.
    Bind,
}

/// How to come by the socket, given whether somebody answers on it, and whether its
/// file exists.
pub fn bind(answered: bool, file_exists: bool) -> (r: BindPlan)
    ensures
        r == if answered {
            BindPlan::InUse
        } else if file_exists {
            BindPlan::ReplaceStale
        } else {
            BindPlan::Bind
        },
{
    if answered {
        BindPlan::InUse
    } else if file_exists {
        BindPlan::ReplaceStale
    } else {
        BindPlan::Bind
    }
}

/// What is said where another instance is running.
pub fn in_use_message(path: &str) -> (r: String)
    ensures
        r@ == "another APDB instance is already listening on "@ + path@,
{
    "another APDB instance is already listening on ".to_owned().concat(path)
}

} // verus!
