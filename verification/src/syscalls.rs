//! How an invocation ends when the actor asks for it.

use crate::error::{decimal, text_and_number, text_and_text};
use vstd::prelude::*;

verus! {

/// The exit code of success.
pub const EXIT_OK: u32 = 0;

/// The exit code of an actor that aborted with a code that it may not use.
pub const SYS_ILLEGAL_EXIT_CODE: u32 = 9;

/// The lowest exit code that an actor may abort with.
pub const FIRST_USER_EXIT_CODE: u32 = 16;

/// Whether an actor may exit with the code: with success, or with a code
/// that is not kept for the system.
pub open spec fn may_exit_with(code: u32) -> bool {
    code == EXIT_OK || code >= FIRST_USER_EXIT_CODE
}

/// The message that an actor gave with its exit, as it was read from the
/// memory of the actor.
#[derive(Debug)]
pub enum ExitMessage {
    /// The actor gave no message.
    Absent,
    /// The message.
    Text(String),
    /// The message could not be read, and why.
    Unreadable(String),
}

/// The end of an invocation.
#[derive(Debug)]
pub enum Abort {
    /// The actor exited with a code, a message and a block to return.
    Exit(u32, String, u32),
}

/// What an exit gives: the code that the actor asked for where it may use
/// it, with the block and with its message, or with a message that says
/// that it gave none or why its message could not be read; and else the
/// code for an illegal exit code, with the block and with a message that
/// names the code that was asked for.
pub open spec fn exit_post(code: u32, blk: u32, message: ExitMessage, r: Abort) -> bool {
    r matches Abort::Exit(with, text, block) && {
        &&& block == blk
        &&& with == if may_exit_with(code) {
            code
        } else {
            SYS_ILLEGAL_EXIT_CODE
        }
        &&& may_exit_with(code) ==> match message {
            ExitMessage::Absent => text@ == "actor aborted"@,
            ExitMessage::Text(given) => text == given,
            ExitMessage::Unreadable(why) => text@ == "failed to extract error message: "@ + why@,
        }
        &&& !may_exit_with(code) ==> text@ == "actor aborted with code "@ + decimal(code as nat)
    }
}

/// Ends the invocation with the given exit code. An actor may not exit with
/// a code that is kept for the system.
pub fn exit(code: u32, blk: u32, message: ExitMessage) -> (r: Abort)
    ensures
        exit_post(code, blk, message, r),
{
    if code != EXIT_OK && code < FIRST_USER_EXIT_CODE {
        return Abort::Exit(
            SYS_ILLEGAL_EXIT_CODE,
            text_and_number("actor aborted with code ", code as u64),
            blk,
        );
    }
    let text = match message {
        ExitMessage::Absent => "actor aborted".to_owned(),
        ExitMessage::Text(given) => given,
        ExitMessage::Unreadable(why) => text_and_text(
            "failed to extract error message: ",
            why.as_str(),
        ),
    };
    Abort::Exit(code, text, blk)
}

} // verus!
