//! Values that the `libc` crate defines for the Linux x86_64 target and that
//! the decisions of this crate depend on.
use vstd::prelude::*;

verus! {

/// `O_RDONLY` of the `libc` crate: open for reading only.
#[verifier::external_body]
pub(crate) fn o_rdonly() -> (r: libc::c_int)
    ensures
        r == o_rdonly_value(),
{
    libc::O_RDONLY
}

/// `O_DIRECTORY` of the `libc` crate for Linux x86_64: fail unless the path
/// names a directory.
#[verifier::external_body]
pub(crate) fn o_directory() -> (r: libc::c_int)
    ensures
        r == o_directory_value(),
{
    libc::O_DIRECTORY
}

/// `O_NOFOLLOW` of the `libc` crate for Linux x86_64: fail when the last
/// component of the path is a symbolic link.
#[verifier::external_body]
pub(crate) fn o_nofollow() -> (r: libc::c_int)
    ensures
        r == o_nofollow_value(),
{
    libc::O_NOFOLLOW
}

/// `AT_SYMLINK_NOFOLLOW` of the `libc` crate: report on a symbolic link
/// itself, not on what it points to.
#[verifier::external_body]
pub(crate) fn at_symlink_nofollow() -> (r: libc::c_int)
    ensures
        r == at_symlink_nofollow_value(),
{
    libc::AT_SYMLINK_NOFOLLOW
}

/// `ENOENT` of the `libc` crate: no such file or directory.
#[verifier::external_body]
pub(crate) fn enoent() -> (r: libc::c_int)
    ensures
        r == enoent_value(),
{
    libc::ENOENT
}

/// `ELOOP` of the `libc` crate for Linux x86_64: too many levels of
/// symbolic links.
#[verifier::external_body]
pub(crate) fn eloop() -> (r: libc::c_int)
    ensures
        r == eloop_value(),
{
    libc::ELOOP
}

/// The value of `O_RDONLY`.
pub open spec fn o_rdonly_value() -> libc::c_int {
    0
}

/// The value of `O_DIRECTORY`.
pub open spec fn o_directory_value() -> libc::c_int {
    0x10000
}

/// The value of `O_NOFOLLOW`.
pub open spec fn o_nofollow_value() -> libc::c_int {
    0x20000
}

/// The value of `AT_SYMLINK_NOFOLLOW`.
pub open spec fn at_symlink_nofollow_value() -> libc::c_int {
    0x100
}

/// The value of `ENOENT`.
pub open spec fn enoent_value() -> libc::c_int {
    2
}

/// The value of `ELOOP`.
pub open spec fn eloop_value() -> libc::c_int {
    40
}

} // verus!
