use vstd::prelude::*;

verus! {

/// Bit mask of the file-type field of a mode word.
pub const S_IFMT: libc::mode_t = 0o170000;

/// Value of the file-type field for a directory.
pub const S_IFDIR: libc::mode_t = 0o040000;

/// Whether a mode word describes a directory: its file-type field holds the
/// directory value.
pub open spec fn is_dir_mode(mode: libc::mode_t) -> bool {
    mode & S_IFMT == S_IFDIR
}

/// Tells whether `mode` (as found in `st_mode`) is the mode of a directory.
pub fn s_isdir(mode: libc::mode_t) -> (r: bool)
    ensures
        r == is_dir_mode(mode),
{
    mode & S_IFMT == S_IFDIR
}

/// Whether a mode word is a directory's depends on its file-type field
/// alone: the permission and special bits outside it do not matter.
pub proof fn lemma_only_type_bits(mode: libc::mode_t, other: libc::mode_t)
    requires
        other & S_IFMT == 0,
    ensures
        is_dir_mode(mode) == is_dir_mode(mode & S_IFMT),
        is_dir_mode(mode | other) == is_dir_mode(mode),
        is_dir_mode(mode & !other) == is_dir_mode(mode),
{
    assert(mode & 0o170000u32 == (mode & 0o170000u32) & 0o170000u32) by (bit_vector);
    assert(other & 0o170000u32 == 0 ==> (mode | other) & 0o170000u32 == mode & 0o170000u32)
        by (bit_vector);
    assert(other & 0o170000u32 == 0 ==> (mode & !other) & 0o170000u32 == mode & 0o170000u32)
        by (bit_vector);
}

} // verus!
