//! Per-entry policy of the produced archive: permission bits derived from the
//! content and the name of a file, and entry names built from path components.

use vstd::prelude::*;

verus! {

/// Permission bits of directories and of executable files.
pub const MODE_EXECUTABLE: u32 = 0o755;

/// Permission bits of every other file.
pub const MODE_REGULAR: u32 = 0o644;

/// The first four bytes of `b`, read as a big-endian integer.
pub open spec fn be_word(b: Seq<u8>) -> int
    recommends
        b.len() >= 4,
{
    b[0] as int * 0x1000000 + b[1] as int * 0x10000 + b[2] as int * 0x100 + b[3] as int
}

/// The magic numbers of native executable images: 32-bit and 64-bit images in
/// both byte orders, and multi-architecture images in both byte orders.
pub open spec fn is_executable_magic(m: int) -> bool {
    m == 0xFEEDFACE || m == 0xFEEDFACF || m == 0xCAFEBABE || m == 0xBEBAFECA
        || m == 0xCEFAEDFE || m == 0xCFFAEDFE
}

/// Whether a byte prefix opens a native executable image.
pub open spec fn spec_is_macho(b: Seq<u8>) -> bool {
    b.len() >= 4 && is_executable_magic(be_word(b))
}

/// Whether the file name `name` has the extension `ext` (given with its dot):
/// the name ends with it and something stands before it.
pub open spec fn has_extension(name: Seq<char>, ext: Seq<char>) -> bool {
    name.len() > ext.len() && name.subrange(name.len() - ext.len(), name.len() as int) == ext
}

/// The extension of dynamic libraries.
pub open spec fn dylib_ext() -> Seq<char> {
    seq!['.', 'd', 'y', 'l', 'i', 'b']
}

/// The permission bits that a file of the payload is stored with.
pub open spec fn spec_file_mode(name: Seq<char>, bytes: Seq<u8>) -> u32 {
    if spec_is_macho(bytes) || has_extension(name, dylib_ext()) {
        MODE_EXECUTABLE
    } else {
        MODE_REGULAR
    }
}

/// Tells whether `bytes` starts with the magic number of a native executable image.
pub fn is_macho(bytes: &[u8]) -> (r: bool)
    ensures
        r == spec_is_macho(bytes@),
{
    if bytes.len() < 4 {
        return false;
    }
    let magic: u32 = (bytes[0] as u32) * 0x1000000 + (bytes[1] as u32) * 0x10000 + (bytes[2] as u32)
        * 0x100 + (bytes[3] as u32);
    assert(magic as int == be_word(bytes@));
    magic == 0xFEEDFACE || magic == 0xFEEDFACF || magic == 0xCAFEBABE || magic == 0xBEBAFECA
        || magic == 0xCEFAEDFE || magic == 0xCFFAEDFE
}

/// Tells whether `s` ends with `suffix`.
pub fn ends_with_str(s: &str, suffix: &str) -> (r: bool)
    ensures
        r == (s@.len() >= suffix@.len() && s@.subrange(s@.len() - suffix@.len(), s@.len() as int)
            == suffix@),
{
    let n = s.unicode_len();
    let m = suffix.unicode_len();
    if n < m {
        return false;
    }
    let mut i: usize = 0;
    while i < m
        invariant
            n == s@.len(),
            m == suffix@.len(),
            m <= n,
            i <= m,
            forall|k: int| 0 <= k < i ==> s@[n - m + k] == suffix@[k],
        decreases m - i,
    {
        if s.get_char(n - m + i) != suffix.get_char(i) {
            assert(s@.subrange(n - m, n as int)[i as int] != suffix@[i as int]);
            return false;
        }
        i = i + 1;
    }
    assert(s@.subrange(n - m, n as int) =~= suffix@);
    true
}

/// The permission bits for a file of the payload named `file_name` holding
/// `file_bytes`: executable images and dynamic libraries get `0o755`, every
/// other file `0o644`.
pub fn unix_permissions_for_payload_file(file_name: &str, file_bytes: &[u8]) -> (r: u32)
    ensures
        r == spec_file_mode(file_name@, file_bytes@),
        r == MODE_EXECUTABLE || r == MODE_REGULAR,
{
    if is_macho(file_bytes) {
        return MODE_EXECUTABLE;
    }
    let ext = ".dylib";
    proof {
        reveal_strlit(".dylib");
        assert(ext@ =~= dylib_ext());
    }
    if file_name.unicode_len() > 6 && ends_with_str(file_name, ext) {
        return MODE_EXECUTABLE;
    }
    MODE_REGULAR
}

/// The views of a list of strings.
pub open spec fn views(v: Seq<String>) -> Seq<Seq<char>> {
    v.map_values(|c: String| c@)
}

/// Path components joined with `/` between neighbours.
pub open spec fn join_slash(c: Seq<Seq<char>>) -> Seq<char>
    decreases c.len(),
{
    if c.len() == 0 {
        Seq::empty()
    } else if c.len() == 1 {
        c[0]
    } else {
        join_slash(c.drop_last()) + seq!['/'] + c.last()
    }
}

/// The archive entry name of a path given by its components: the components
/// joined with `/`, and for a directory a trailing `/` unless the name is
/// empty or already ends with one.
pub open spec fn spec_entry_name(c: Seq<Seq<char>>, is_dir: bool) -> Seq<char> {
    let s = join_slash(c);
    if is_dir && s.len() > 0 && s.last() != '/' {
        s + seq!['/']
    } else {
        s
    }
}

/// Builds the archive entry name of a relative path given by its components.
pub fn zip_name_from_relative_path(components: &Vec<String>, is_dir: bool) -> (r: String)
    ensures
        r@ == spec_entry_name(views(components@), is_dir),
{
    let sep = "/";
    proof {
        reveal_strlit("/");
    }
    let mut s = String::new();
    let mut i: usize = 0;
    while i < components.len()
        invariant
            i <= components.len(),
            sep@ == seq!['/'],
            s@ == join_slash(views(components@.subrange(0, i as int))),
        decreases components.len() - i,
    {
        let ghost prev = views(components@.subrange(0, i as int));
        let ghost next = views(components@.subrange(0, i + 1));
        assert(next.drop_last() =~= prev);
        if i > 0 {
            s.append(sep);
        } else {
            assert(prev.len() == 0);
        }
        s.append(components[i].as_str());
        i = i + 1;
    }
    assert(components@.subrange(0, components.len() as int) =~= components@);
    if is_dir {
        let n = s.as_str().unicode_len();
        if n > 0 && s.as_str().get_char(n - 1) != '/' {
            s.append(sep);
        }
    }
    s
}

} // verus!
