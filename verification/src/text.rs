//! Text over `char` sequences: the std string operations that the search uses,
//! with what they compute.
use vstd::prelude::*;
use vstd::utf8::encode_utf8;
use std::path::Path;

verus! {

/// `s` ends with `suffix`.
pub open spec fn is_suffix_of(suffix: Seq<char>, s: Seq<char>) -> bool {
    suffix.len() <= s.len() && s.subrange(s.len() - suffix.len(), s.len() as int) == suffix
}

/// `needle` occurs in `hay` at position `i`.
pub open spec fn occurs_at(hay: Seq<char>, needle: Seq<char>, i: int) -> bool {
    0 <= i && i + needle.len() <= hay.len() && hay.subrange(i, i + needle.len()) == needle
}

/// `needle` occurs somewhere in `hay` (the empty sequence occurs in every one).
pub open spec fn contains_seq(hay: Seq<char>, needle: Seq<char>) -> bool {
    exists|i: int| #[trigger] occurs_at(hay, needle, i)
}

/// The code point of a char's ASCII lower case; other chars keep theirs.
pub open spec fn ascii_lower(c: char) -> u32 {
    if 'A' <= c <= 'Z' {
        ((c as u32) + 32) as u32
    } else {
        c as u32
    }
}

/// `a` and `b` are equal once ASCII letters are compared without case.
pub open spec fn eq_ignore_ascii(a: Seq<char>, b: Seq<char>) -> bool {
    a.len() == b.len() && forall|i: int| 0 <= i < a.len() ==> ascii_lower(#[trigger] a[i]) == ascii_lower(b[i])
}

/// The chars of an optional string.
pub open spec fn opt_view(s: Option<String>) -> Option<Seq<char>> {
    match s {
        Some(v) => Some(v@),
        None => None,
    }
}

/// The number of bytes in the UTF-8 encoding of `s`.
pub open spec fn byte_len(s: Seq<char>) -> int {
    encode_utf8(s).len() as int
}

/// Unicode lower case of a whole string that is not all ASCII, as
/// `str::to_lowercase` gives it.
pub uninterp spec fn unicode_lowercase(s: Seq<char>) -> Seq<char>;

/// Whether a non-ASCII char has the Unicode Alphabetic property, as
/// `char::is_alphabetic` says.
pub uninterp spec fn unicode_alphabetic(c: char) -> bool;

/// An ASCII char.
pub open spec fn is_ascii_char(c: char) -> bool {
    (c as u32) < 128
}

/// An ASCII letter.
pub open spec fn is_ascii_letter(c: char) -> bool {
    ('a' <= c <= 'z') || ('A' <= c <= 'Z')
}

/// A char's ASCII lower case; other chars are kept.
pub open spec fn ascii_lower_char(c: char) -> char {
    if 'A' <= c <= 'Z' {
        ((c as u32) + 32) as char
    } else {
        c
    }
}

/// Every char is ASCII.
pub open spec fn is_ascii_text(s: Seq<char>) -> bool {
    forall|i: int| 0 <= i < s.len() ==> is_ascii_char(#[trigger] s[i])
}

/// The lower case of a string, as `str::to_lowercase` gives it: ASCII text has
/// `A`..=`Z` mapped to `a`..=`z` and keeps every other char.
pub open spec fn lowercase(s: Seq<char>) -> Seq<char> {
    if is_ascii_text(s) {
        s.map_values(|c: char| ascii_lower_char(c))
    } else {
        unicode_lowercase(s)
    }
}

/// Whether a char is alphabetic, as `char::is_alphabetic` says: among ASCII chars,
/// exactly the letters.
pub open spec fn is_alphabetic(c: char) -> bool {
    if is_ascii_char(c) {
        is_ascii_letter(c)
    } else {
        unicode_alphabetic(c)
    }
}

/// The chars with the Unicode White_Space property, as `char::is_whitespace` has them.
pub open spec fn is_white_space(c: char) -> bool {
    let u = c as u32;
    ||| 0x09 <= u <= 0x0D
    ||| u == 0x20
    ||| u == 0x85
    ||| u == 0xA0
    ||| u == 0x1680
    ||| 0x2000 <= u <= 0x200A
    ||| u == 0x2028
    ||| u == 0x2029
    ||| u == 0x202F
    ||| u == 0x205F
    ||| u == 0x3000
}

/// `s` without its leading white space.
pub open spec fn trim_start(s: Seq<char>) -> Seq<char>
    decreases s.len(),
{
    if s.len() > 0 && is_white_space(s[0]) {
        trim_start(s.drop_first())
    } else {
        s
    }
}

/// `s` without its trailing white space.
pub open spec fn trim_end(s: Seq<char>) -> Seq<char>
    decreases s.len(),
{
    if s.len() > 0 && is_white_space(s.last()) {
        trim_end(s.drop_last())
    } else {
        s
    }
}

/// A string with leading and trailing white space removed, as `str::trim` gives it.
pub open spec fn trimmed(s: Seq<char>) -> Seq<char> {
    trim_end(trim_start(s))
}

/// A line without the one `'\r'` that may end it.
pub open spec fn strip_cr(line: Seq<char>) -> Seq<char> {
    if line.len() > 0 && line.last() == '\r' {
        line.drop_last()
    } else {
        line
    }
}

/// The lines of `s`, the current line so far being `cur`: a `'\n'` ends a line
/// (and drops one `'\r'` just before it); text after the last `'\n'` is one more
/// line, if there is any.
pub open spec fn lines_from(s: Seq<char>, cur: Seq<char>) -> Seq<Seq<char>>
    decreases s.len(),
{
    if s.len() == 0 {
        if cur.len() == 0 {
            Seq::empty()
        } else {
            seq![cur]
        }
    } else if s[0] == '\n' {
        seq![strip_cr(cur)] + lines_from(s.drop_first(), Seq::empty())
    } else {
        lines_from(s.drop_first(), cur.push(s[0]))
    }
}

/// The lines of a text, as `str::lines` splits it.
pub open spec fn text_lines(s: Seq<char>) -> Seq<Seq<char>> {
    lines_from(s, Seq::empty())
}

/// Whether two paths are equal component by component, as `Path`'s `==` decides.
pub uninterp spec fn same_path(a: Seq<char>, b: Seq<char>) -> bool;

/// `str::to_lowercase`: the string's Unicode lower case, which for ASCII text
/// maps `A`..=`Z` to `a`..=`z` and keeps every other char.
#[verifier::external_body]
pub(crate) fn to_lowercase(s: &str) -> (lower: String)
    ensures
        lower@ == lowercase(s@),
        !is_ascii_text(s@) ==> lower@ == unicode_lowercase(s@),
{
    s.to_lowercase()
}

/// `char::is_alphabetic`: among ASCII chars, exactly the letters.
#[verifier::external_body]
pub(crate) fn char_is_alphabetic(c: char) -> (alpha: bool)
    ensures
        alpha == is_alphabetic(c),
        !is_ascii_char(c) ==> alpha == unicode_alphabetic(c),
{
    c.is_alphabetic()
}

/// `str::trim`: the string without leading and trailing white space.
#[verifier::external_body]
pub(crate) fn trim(s: &str) -> (t: &str)
    ensures
        t@ == trimmed(s@),
{
    s.trim()
}

/// `str::lines`: the text's lines, without their line endings.
#[verifier::external_body]
pub(crate) fn lines(s: &str) -> (ls: Vec<&str>)
    ensures
        ls@.map_values(|l: &str| l@) == text_lines(s@),
{
    s.lines().collect()
}

/// `Path`'s `==` on two paths given as strings; equal strings are equal paths.
#[verifier::external_body]
pub(crate) fn paths_equal(a: &str, b: &str) -> (eq: bool)
    ensures
        eq == same_path(a@, b@),
        a@ == b@ ==> eq,
{
    Path::new(a) == Path::new(b)
}

/// The chars of a string, in order.
pub fn chars_of(s: &str) -> (cs: Vec<char>)
    ensures
        cs@ == s@,
{
    broadcast use vstd::string::group_string_axioms;

    let mut cs: Vec<char> = Vec::new();
    for c in it: s.chars()
        invariant
            it.seq() == s@,
            cs@ == s@.take(it.index()),
    {
        cs.push(c);
        assert(cs@ == s@.take(it.index() + 1));
    }
    assert(cs@ == s@);
    cs
}

/// Whether `s` ends with `suffix`.
pub fn ends_with_chars(s: &Vec<char>, suffix: &Vec<char>) -> (r: bool)
    ensures
        r == is_suffix_of(suffix@, s@),
{
    if suffix.len() > s.len() {
        return false;
    }
    let off = s.len() - suffix.len();
    let mut i: usize = 0;
    while i < suffix.len()
        invariant
            off + suffix.len() == s.len(),
            i <= suffix.len(),
            forall|j: int| 0 <= j < i ==> s@[off + j] == suffix@[j],
        decreases suffix.len() - i,
    {
        if s[off + i] != suffix[i] {
            assert(s@.subrange(off as int, s.len() as int)[i as int] != suffix@[i as int]);
            return false;
        }
        i = i + 1;
    }
    assert(s@.subrange(off as int, s.len() as int) =~= suffix@);
    true
}

/// Whether `needle` occurs in `hay` at position `at`.
fn occurs_at_exec(hay: &Vec<char>, needle: &Vec<char>, at: usize) -> (r: bool)
    requires
        at + needle.len() <= hay.len(),
    ensures
        r == occurs_at(hay@, needle@, at as int),
{
    let mut i: usize = 0;
    while i < needle.len()
        invariant
            at + needle.len() <= hay.len(),
            i <= needle.len(),
            forall|j: int| 0 <= j < i ==> hay@[at + j] == needle@[j],
        decreases needle.len() - i,
    {
        if hay[at + i] != needle[i] {
            assert(hay@.subrange(at as int, at + needle.len())[i as int] != needle@[i as int]);
            return false;
        }
        i = i + 1;
    }
    assert(hay@.subrange(at as int, at + needle.len()) =~= needle@);
    true
}

/// Whether `needle` occurs somewhere in `hay`.
pub fn contains_chars(hay: &Vec<char>, needle: &Vec<char>) -> (r: bool)
    ensures
        r == contains_seq(hay@, needle@),
{
    if needle.len() > hay.len() {
        return false;
    }
    let last = hay.len() - needle.len();
    let mut at: usize = 0;
    while at <= last
        invariant
            last + needle.len() == hay.len(),
            forall|j: int| 0 <= j < at ==> !occurs_at(hay@, needle@, j),
        ensures
            forall|j: int| 0 <= j <= last ==> !occurs_at(hay@, needle@, j),
        decreases last + 1 - at,
    {
        if occurs_at_exec(hay, needle, at) {
            return true;
        }
        if at == last {
            break;
        }
        at = at + 1;
    }
    assert forall|j: int| !occurs_at(hay@, needle@, j) by {
        if 0 <= j && j + needle.len() <= hay.len() {
            assert(j <= last);
        }
    }
    false
}

/// Whether `needle` occurs somewhere in `hay`; see [`contains_chars`].
pub fn str_contains(hay: &str, needle: &str) -> (r: bool)
    ensures
        r == contains_seq(hay@, needle@),
{
    contains_chars(&chars_of(hay), &chars_of(needle))
}

fn ascii_lower_code(c: char) -> (code: u32)
    ensures
        code == ascii_lower(c),
{
    if 'A' <= c && c <= 'Z' {
        (c as u32) + 32
    } else {
        c as u32
    }
}

/// Whether `a` and `b` are equal once ASCII letters are compared without case, as
/// `str::eq_ignore_ascii_case` decides.
pub fn eq_ignore_ascii_case(a: &str, b: &str) -> (r: bool)
    ensures
        r == eq_ignore_ascii(a@, b@),
{
    let ac = chars_of(a);
    let bc = chars_of(b);
    if ac.len() != bc.len() {
        return false;
    }
    let mut i: usize = 0;
    while i < ac.len()
        invariant
            ac@ == a@,
            bc@ == b@,
            ac.len() == bc.len(),
            i <= ac.len(),
            forall|j: int| 0 <= j < i ==> ascii_lower(#[trigger] a@[j]) == ascii_lower(b@[j]),
        decreases ac.len() - i,
    {
        if ascii_lower_code(ac[i]) != ascii_lower_code(bc[i]) {
            return false;
        }
        i = i + 1;
    }
    true
}

} // verus!
