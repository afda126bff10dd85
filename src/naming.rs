//! Naming rules: the output archive's file name and the watcher's filter on
//! the names of changed files, both compared without regard to ASCII case.

use vstd::prelude::*;

verus! {

/// The code of `c` with ASCII upper-case letters mapped to lower case.
pub open spec fn lower_code(c: char) -> u32 {
    if 'A' <= c && c <= 'Z' {
        (c as u32 + 32) as u32
    } else {
        c as u32
    }
}

/// Whether `s` starts with `p`, ignoring ASCII case.
pub open spec fn starts_with_ci(s: Seq<char>, p: Seq<char>) -> bool {
    s.len() >= p.len() && forall|k: int| 0 <= k < p.len() ==> lower_code(#[trigger] s[k]) == lower_code(p[k])
}

/// Whether `s` ends with `p`, ignoring ASCII case.
pub open spec fn ends_with_ci(s: Seq<char>, p: Seq<char>) -> bool {
    s.len() >= p.len() && forall|k: int|
        0 <= k < p.len() ==> lower_code(#[trigger] s[s.len() - p.len() + k]) == lower_code(p[k])
}

/// The extension that the output archive's name carries.
pub open spec fn ipa_ext() -> Seq<char> {
    seq!['.', 'i', 'p', 'a']
}

/// The extension of the archives that the watcher picks up.
pub open spec fn zip_ext() -> Seq<char> {
    seq!['.', 'z', 'i', 'p']
}

/// The name prefix of the archives that the watcher picks up.
pub open spec fn runner_prefix() -> Seq<char> {
    seq!['r', 'u', 'n', 'n', 'e', 'r', '.', 'a', 'p', 'p']
}

/// Whether `s` holds a path separator, `/` or `\`.
pub open spec fn has_separator(s: Seq<char>) -> bool {
    exists|k: int| 0 <= k < s.len() && (s[k] == '/' || s[k] == '\\')
}

/// Whether `s` can name the output archive: non-empty, ending with `.ipa` in
/// any case, and a bare file name without separators.
pub open spec fn is_valid_output_name(s: Seq<char>) -> bool {
    s.len() > 0 && ends_with_ci(s, ipa_ext()) && !has_separator(s)
}

/// Whether a changed file is one the watcher repackages: a file whose name
/// starts with `runner.app` and ends with `.zip`, in any case.
pub open spec fn spec_is_candidate(file_name: Seq<char>, is_file: bool) -> bool {
    is_file && starts_with_ci(file_name, runner_prefix()) && ends_with_ci(file_name, zip_ext())
}

fn lower_of_char(c: char) -> (r: u32)
    ensures
        r == lower_code(c),
{
    if 'A' <= c && c <= 'Z' {
        c as u32 + 32
    } else {
        c as u32
    }
}

/// Tells whether `s` starts with `p`, ignoring ASCII case.
pub fn starts_with_ignore_case(s: &str, p: &str) -> (r: bool)
    ensures
        r == starts_with_ci(s@, p@),
{
    let n = s.unicode_len();
    let m = p.unicode_len();
    if n < m {
        return false;
    }
    let mut i: usize = 0;
    while i < m
        invariant
            n == s@.len(),
            m == p@.len(),
            m <= n,
            i <= m,
            forall|k: int| 0 <= k < i ==> lower_code(#[trigger] s@[k]) == lower_code(p@[k]),
        decreases m - i,
    {
        if lower_of_char(s.get_char(i)) != lower_of_char(p.get_char(i)) {
            return false;
        }
        i = i + 1;
    }
    true
}

/// Tells whether `s` ends with `p`, ignoring ASCII case.
pub fn ends_with_ignore_case(s: &str, p: &str) -> (r: bool)
    ensures
        r == ends_with_ci(s@, p@),
{
    let n = s.unicode_len();
    let m = p.unicode_len();
    if n < m {
        return false;
    }
    let mut i: usize = 0;
    while i < m
        invariant
            n == s@.len(),
            m == p@.len(),
            m <= n,
            i <= m,
            forall|k: int| 0 <= k < i ==> lower_code(#[trigger] s@[n - m + k]) == lower_code(p@[k]),
        decreases m - i,
    {
        if lower_of_char(s.get_char(n - m + i)) != lower_of_char(p.get_char(i)) {
            return false;
        }
        i = i + 1;
    }
    true
}

/// Tells whether `s` holds a `/` or a `\`.
pub fn contains_separator(s: &str) -> (r: bool)
    ensures
        r == has_separator(s@),
{
    let n = s.unicode_len();
    let mut i: usize = 0;
    while i < n
        invariant
            n == s@.len(),
            i <= n,
            forall|k: int| 0 <= k < i ==> s@[k] != '/' && s@[k] != '\\',
        decreases n - i,
    {
        let c = s.get_char(i);
        if c == '/' || c == '\\' {
            return true;
        }
        i = i + 1;
    }
    false
}

/// Tells whether `name` (already trimmed) can name the output archive.
pub fn is_valid_ipa_name(name: &str) -> (r: bool)
    ensures
        r == is_valid_output_name(name@),
{
    let ext = ".ipa";
    proof {
        reveal_strlit(".ipa");
        assert(ext@ =~= ipa_ext());
    }
    name.unicode_len() > 0 && ends_with_ignore_case(name, ext) && !contains_separator(name)
}

/// Tells whether a changed file should be repackaged: it is a file, and its
/// name starts with `runner.app` and ends with `.zip`, in any ASCII case.
pub fn is_candidate_runner_zip(file_name: &str, is_file: bool) -> (r: bool)
    ensures
        r == spec_is_candidate(file_name@, is_file),
{
    if !is_file {
        return false;
    }
    let prefix = "runner.app";
    let ext = ".zip";
    proof {
        reveal_strlit("runner.app");
        reveal_strlit(".zip");
        assert(prefix@ =~= runner_prefix());
        assert(ext@ =~= zip_ext());
    }
    starts_with_ignore_case(file_name, prefix) && ends_with_ignore_case(file_name, ext)
}

/// Whether `c` has the Unicode `White_Space` property.
pub open spec fn is_white_space(c: char) -> bool {
    ('\t' <= c && c <= '\r') || c == ' ' || c == '\u{85}' || c == '\u{A0}' || c == '\u{1680}' || ('\u{2000}'
        <= c && c <= '\u{200A}') || c == '\u{2028}' || c == '\u{2029}' || c == '\u{202F}' || c == '\u{205F}'
        || c == '\u{3000}'
}

/// `s` without its leading white space.
pub open spec fn trim_start_spec(s: Seq<char>) -> Seq<char>
    decreases s.len(),
{
    if s.len() > 0 && is_white_space(s[0]) {
        trim_start_spec(s.drop_first())
    } else {
        s
    }
}

/// `s` without its trailing white space.
pub open spec fn trim_end_spec(s: Seq<char>) -> Seq<char>
    decreases s.len(),
{
    if s.len() > 0 && is_white_space(s.last()) {
        trim_end_spec(s.drop_last())
    } else {
        s
    }
}

/// `s` with its leading and trailing white space removed.
pub open spec fn trimmed(s: Seq<char>) -> Seq<char> {
    trim_end_spec(trim_start_spec(s))
}

proof fn lemma_trim_start_keeps_separator(s: Seq<char>)
    requires
        has_separator(s),
    ensures
        has_separator(trim_start_spec(s)),
    decreases s.len(),
{
    if s.len() > 0 && is_white_space(s[0]) {
        let k = choose|k: int| 0 <= k < s.len() && (s[k] == '/' || s[k] == '\\');
        assert(k != 0);
        assert(s.drop_first()[k - 1] == s[k]);
        lemma_trim_start_keeps_separator(s.drop_first());
    }
}

proof fn lemma_trim_end_keeps_separator(s: Seq<char>)
    requires
        has_separator(s),
    ensures
        has_separator(trim_end_spec(s)),
    decreases s.len(),
{
    if s.len() > 0 && is_white_space(s.last()) {
        let k = choose|k: int| 0 <= k < s.len() && (s[k] == '/' || s[k] == '\\');
        assert(k != s.len() - 1);
        assert(s.drop_last()[k] == s[k]);
        lemma_trim_end_keeps_separator(s.drop_last());
    }
}

/// A requested output name that holds a path separator is refused, whatever
/// white space surrounds it; one whose trimmed form lacks the `.ipa` extension
/// is refused too.
pub proof fn lemma_bad_output_names_refused(s: Seq<char>)
    ensures
        has_separator(s) ==> !is_valid_output_name(trimmed(s)),
        !ends_with_ci(trimmed(s), ipa_ext()) ==> !is_valid_output_name(trimmed(s)),
{
    if has_separator(s) {
        lemma_trim_start_keeps_separator(s);
        lemma_trim_end_keeps_separator(trim_start_spec(s));
    }
}

/// Relies on `str::trim`: the text without its leading and trailing
/// characters of the Unicode `White_Space` property.
#[verifier::external_body]
pub(crate) fn trim_text(s: &str) -> (r: String)
    ensures
        r@ == trimmed(s@),
{
    s.trim().to_string()
}

/// Tells whether `s` starts with `p`.
pub fn starts_with_str(s: &str, p: &str) -> (r: bool)
    ensures
        r == (s@.len() >= p@.len() && s@.subrange(0, p@.len() as int) == p@),
{
    let n = s.unicode_len();
    let m = p.unicode_len();
    if n < m {
        return false;
    }
    let mut i: usize = 0;
    while i < m
        invariant
            n == s@.len(),
            m == p@.len(),
            m <= n,
            i <= m,
            forall|k: int| 0 <= k < i ==> s@[k] == p@[k],
        decreases m - i,
    {
        if s.get_char(i) != p.get_char(i) {
            assert(s@.subrange(0, m as int)[i as int] != p@[i as int]);
            return false;
        }
        i = i + 1;
    }
    assert(s@.subrange(0, m as int) =~= p@);
    true
}

} // verus!
