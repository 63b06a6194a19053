//! The symlink under which the PTY client can be found.
use crate::text::{append_decimal, decimal};
use vstd::prelude::*;
use vstd::string::*;

verus! {

/// What is found where the symlink belongs.
#[derive(Clone, Copy, PartialEq, Eq, Structural)]
pub enum LinkState {
    /// Nothing that can be looked at.
    Missing,
    /// A symlink, left over from before.
    Symlink,
    /// Something else.
    Other,
}

/// What to do about it.
#[derive(Clone, Copy, PartialEq, Eq, Structural)]
pub enum LinkAction {
    /// Create the symlink.
    Create,
    /// Remove what is there, then create the symlink.
    Replace,
    /// Touch nothing and give up.
    Refuse,
}

/// Only a stale symlink is replaced: nothing else is ever deleted.
pub fn plan_link(found: LinkState) -> (r: LinkAction)
    ensures
        r == match found {
            LinkState::Missing => LinkAction::Create,
            LinkState::Symlink => LinkAction::Replace,
            LinkState::Other => LinkAction::Refuse,
        },
{
    match found {
        LinkState::Missing => LinkAction::Create,
        LinkState::Symlink => LinkAction::Replace,
        LinkState::Other => LinkAction::Refuse,
    }
}

/// The message for a refusal to put the symlink at `path`.
pub fn refusal(path: &str) -> (r: String)
    ensures
        r@ == path@ + " exists and is not a symlink"@,
{
    let mut text = path.to_owned();
    text.append(" exists and is not a symlink");
    text
}

/// The path under which the target of this process's file descriptor `fd` can be
/// read.
pub fn descriptor_path(fd: u32) -> (r: String)
    ensures
        r@ == "/proc/self/fd/"@ + decimal(fd as nat),
{
    let mut text = "/proc/self/fd/".to_owned();
    append_decimal(&mut text, fd as u64);
    text
}

} // verus!
