//! The invoking user and their login shell, from the system's user database.

use std::path::PathBuf;
use vstd::prelude::*;

verus! {

/// A user of the system, as the `users` crate holds it. Nothing of what it
/// holds is visible here.
#[verifier::external_type_specification]
#[verifier::external_body]
pub struct ExUser(users::User);

/// A path of the file system, carried through unread.
#[verifier::external_type_specification]
#[verifier::external_body]
pub struct ExPathBuf(std::path::PathBuf);

/// `users::get_current_uid`: the id of the user who runs the process. Nothing
/// is claimed of it.
pub assume_specification[ users::get_current_uid ]() -> (uid: users::uid_t);

/// `users::get_user_by_uid`: the entry of the user database for `uid`, if it
/// has one. Nothing is claimed of it: what comes back depends on the database.
pub assume_specification[ users::get_user_by_uid ](uid: users::uid_t) -> (user: Option<
    users::User,
>);

/// `users::os::unix::UserExt::shell`: the path of the user's login shell,
/// copied out of the entry. Nothing is claimed of it.
#[verifier::external_body]
fn shell_of(user: &users::User) -> (shell: PathBuf) {
    users::os::unix::UserExt::shell(user).to_path_buf()
}

/// The id of the user who runs the process, and the login shell that the
/// user database gives for it; `None` where the database does not know the
/// user.
pub(crate) fn current_login_shell() -> (found: (u32, Option<PathBuf>)) {
    let uid = users::get_current_uid();
    let shell = match users::get_user_by_uid(uid) {
        Some(user) => Some(shell_of(&user)),
        None => None,
    };
    (uid, shell)
}

} // verus!
