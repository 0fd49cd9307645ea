//! What is said when the process may not read other applications.
//!
//! Without the permission, reads give plausible emptiness rather than an error,
//! so a source has to say so before it starts.

use crate::strings::append;
use vstd::prelude::*;

verus! {

/// What is said over a remote shell, where granting the program does not help.
pub const OVER_SSH: &'static str = "no Accessibility permission, and this is an SSH session.\n\
     macOS attributes the grant to a responsible GUI application, and a \
     process tree rooted in sshd has none — so granting this binary will \
     not help.\n\
     Either add /usr/libexec/sshd-keygen-wrapper under System Settings > \
     Privacy & Security > Accessibility and reconnect (this grants every \
     later SSH session the same access), or run from a terminal \
     application on the Mac itself with that terminal granted.";

/// What is said before the program's path.
pub const BEFORE_PATH: &'static str = "no Accessibility permission: add ";

/// What stands for a path that is not known.
pub const UNKNOWN_PATH: &'static str = "this binary";

/// What is said after the program's path.
pub const AFTER_PATH: &'static str = " under System Settings > Privacy \
     & Security > Accessibility.\n\
     The grant is keyed on the binary's code signature, so an unsigned or \
     ad-hoc-signed binary loses it on every rebuild. For development, grant \
     it to the terminal application and run under `cargo run` instead, which \
     inherits the grant.";

/// The message, for the situation the process is in.
pub open spec fn untrusted_text(over_ssh: bool, path: Option<Seq<char>>) -> Seq<char> {
    if over_ssh {
        OVER_SSH@
    } else {
        BEFORE_PATH@ + (match path {
            Some(path) => path,
            None => UNKNOWN_PATH@,
        }) + AFTER_PATH@
    }
}

/// Spells out how to grant the permission: whether this is a remote shell decides
/// what helps, and `path` is the running program's.
pub fn untrusted_message(over_ssh: bool, path: Option<&str>) -> (message: String)
    ensures
        message@ == untrusted_text(
            over_ssh,
            match path {
                Some(path) => Some(path@),
                None => None,
            },
        ),
{
    let mut message: String = String::new();
    if over_ssh {
        append(&mut message, OVER_SSH);
        assert(message@ =~= OVER_SSH@);
        return message;
    }
    append(&mut message, BEFORE_PATH);
    match path {
        Some(path) => append(&mut message, path),
        None => append(&mut message, UNKNOWN_PATH),
    }
    append(&mut message, AFTER_PATH);
    assert(message@ =~= untrusted_text(
        over_ssh,
        match path {
            Some(path) => Some(path@),
            None => None,
        },
    ));
    message
}

/// The message names the program to grant, whatever its path, and says the same around
/// it. Over a remote shell the path makes no difference.
pub proof fn law_the_program_is_named(path: Seq<char>, other: Seq<char>)
    ensures
        ({
            let text = untrusted_text(false, Some(path));
            let at = BEFORE_PATH@.len() as int;
            &&& text.subrange(at, at + path.len()) == path
            &&& text.take(at) == untrusted_text(false, Some(other)).take(at)
            &&& text.skip(at + path.len()) == untrusted_text(false, Some(other)).skip(
                at + other.len(),
            )
        }),
        untrusted_text(true, Some(path)) == untrusted_text(true, Some(other)),
        untrusted_text(true, Some(path)) == untrusted_text(true, None),
{
    let at = BEFORE_PATH@.len() as int;
    let (text, more) = (untrusted_text(false, Some(path)), untrusted_text(false, Some(other)));
    assert(text.subrange(at, at + path.len()) =~= path);
    assert(text.take(at) =~= BEFORE_PATH@);
    assert(more.take(at) =~= BEFORE_PATH@);
    assert(text.skip(at + path.len()) =~= AFTER_PATH@);
    assert(more.skip(at + other.len()) =~= AFTER_PATH@);
}

} // verus!
