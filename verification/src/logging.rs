//! Log targets, and the form of the kernel's log lines.

use vstd::prelude::*;
use vstd::string::StrSliceExecFns;

verus! {

/// The targets under which the node logs.
pub struct Category;

impl Category {
    pub const KERNEL: &'static str = "kernel";

    pub const NET: &'static str = "net";

    pub const WALLET: &'static str = "wallet";

    pub const IPC: &'static str = "ipc";

    pub const NODE: &'static str = "node";
}

/// A line without its line end: a line feed, with the carriage return before it if there
/// is one.
pub open spec fn without_line_end(line: Seq<char>) -> Seq<char> {
    let n = line.len();
    if n >= 2 && line[n - 2] == '\r' && line[n - 1] == '\n' {
        line.take(n - 2)
    } else if n >= 1 && line[n - 1] == '\n' {
        line.take(n - 1)
    } else {
        line
    }
}

/// A line of the kernel's log as it is passed on.
pub fn kernel_line(message: &str) -> (r: &str)
    ensures
        r@ == without_line_end(message@),
{
    let n: usize = message.unicode_len();
    if n >= 2 && message.get_char(n - 2) == '\r' && message.get_char(n - 1) == '\n' {
        return message.substring_char(0, n - 2);
    }
    if n >= 1 && message.get_char(n - 1) == '\n' {
        return message.substring_char(0, n - 1);
    }
    message
}

/// How far the chain has caught up when a new tip is announced.
#[derive(Clone, Copy, Debug, PartialEq, Eq, Structural)]
pub enum SyncState {
    InitDownload,
    PostInit,
    InitReindex,
}

/// Whether a new tip is worth more than a debug message: while the chain is catching up
/// there are too many of them.
pub fn tip_is_news(state: SyncState) -> (r: bool)
    ensures
        r == (state == SyncState::PostInit),
{
    match state {
        SyncState::InitDownload => false,
        SyncState::PostInit => true,
        SyncState::InitReindex => false,
    }
}

/// One line end is taken away, and nothing else: a line feed, with one carriage return where
/// one stands before it.
pub proof fn one_line_end_is_taken_away(text: Seq<char>)
    ensures
        without_line_end(text + seq!['\r', '\n']) == text,
        text.len() == 0 || text.last() != '\r' ==> without_line_end(text.push('\n')) == text,
        text.len() == 0 || text.last() != '\n' ==> without_line_end(text) == text,
{
    assert(without_line_end(text + seq!['\r', '\n']) =~= text);
    assert(text.push('\n').take(text.len() as int) =~= text);
}

} // verus!
