//! How well a file name matches what was typed: the longest common stretch, the
//! greedy subsequence count, and size amounts such as "10kb".
use vstd::prelude::*;
use vstd::string::StrSliceExecFns;
use vstd::utf8::encode_utf8;
use crate::text::{
    byte_len, char_is_alphabetic, chars_of, contains_chars, contains_seq, ends_with_chars,
    eq_ignore_ascii, eq_ignore_ascii_case, is_alphabetic, is_suffix_of, lowercase, opt_view,
    to_lowercase,
};

verus! {

broadcast use vstd::seq_lib::group_seq_properties;

/// An entry passes the extension filter when there is none, or when its lower
/// case ends with the extension's lower case.
pub open spec fn passes_extension(entry: Seq<char>, extension: Option<Seq<char>>) -> bool {
    match extension {
        None => true,
        Some(x) => is_suffix_of(lowercase(x), lowercase(entry)),
    }
}

/// The entry ends, in lower case, with the extension's lower case: its last chars,
/// as many as the extension has, are the extension's.
pub open spec fn lower_ends_with(entry: Seq<char>, ext: Seq<char>) -> bool {
    let le = lowercase(entry);
    let lx = lowercase(ext);
    lx.len() <= le.len() && forall|i: int|
        0 <= i < lx.len() ==> #[trigger] le[le.len() - lx.len() + i] == lx[i]
}

/// The extension filter accepts an entry exactly when the entry's lower case ends
/// with the extension's lower case; an extension that only occurs earlier in the
/// name (".js" in "package.json") is refused.
pub proof fn lemma_extension_is_a_suffix(entry: Seq<char>, ext: Seq<char>)
    ensures
        passes_extension(entry, Some(ext)) <==> (lowercase(ext).len() <= lowercase(entry).len()
            && forall|i: int|
            0 <= i < lowercase(ext).len() ==> #[trigger] lowercase(entry)[lowercase(entry).len()
                - lowercase(ext).len() + i] == lowercase(ext)[i]),
        passes_extension(entry, None),
{
    let le = lowercase(entry);
    let lx = lowercase(ext);
    if lx.len() <= le.len() {
        let tail = le.subrange(le.len() - lx.len(), le.len() as int);
        if lower_ends_with(entry, ext) {
            assert forall|i: int| 0 <= i < lx.len() implies tail[i] == lx[i] by {
                assert(le[le.len() - lx.len() + i] == lx[i]);
            }
            assert(tail =~= lx);
        }
        if passes_extension(entry, Some(ext)) {
            assert forall|i: int| 0 <= i < lx.len() implies #[trigger] le[le.len() - lx.len() + i]
                == lx[i] by {
                assert(tail[i] == le[le.len() - lx.len() + i]);
            }
        }
    }
}

/// An entry that fails the extension filter scores 0 on both match lengths.
pub proof fn lemma_failed_extension_scores_zero(input: Seq<char>, entry: Seq<char>, ext: Seq<char>, r: int)
    requires
        0 <= lowercase(ext).len() <= lowercase(entry).len() ==> exists|i: int|
            0 <= i < lowercase(ext).len() && #[trigger] lowercase(entry)[lowercase(entry).len()
                - lowercase(ext).len() + i] != lowercase(ext)[i],
        substring_score_is(input, entry, Some(ext), r),
    ensures
        r == 0,
        subsequence_score(input, entry, Some(ext)) == 0,
{
    lemma_extension_is_a_suffix(entry, ext);
}

/// Whether the entry passes the extension filter; see [`passes_extension`].
pub fn extension_matches(entry: &str, extension: &Option<String>) -> (r: bool)
    ensures
        r == passes_extension(entry@, opt_view(*extension)),
        extension matches Some(x) ==> (r <==> lower_ends_with(entry@, x@)),
{
    match extension {
        None => true,
        Some(ext) => {
            let entry_lower = chars_of(&to_lowercase(entry));
            let ext_lower = chars_of(&to_lowercase(ext.as_str()));
            proof {
                lemma_extension_is_a_suffix(entry@, ext@);
            }
            ends_with_chars(&entry_lower, &ext_lower)
        },
    }
}

// ---------------------------------------------------------------------------
// Greedy subsequence count
// ---------------------------------------------------------------------------

/// How many chars of `input`, taken in order, are found by one forward scan of
/// `entry`: each char is sought from where the last one was found; once the scan
/// runs off the end, no later char is found.
pub open spec fn greedy_matches(input: Seq<char>, entry: Seq<char>) -> nat
    decreases input.len() + entry.len(),
{
    if input.len() == 0 || entry.len() == 0 {
        0
    } else if entry[0] == input[0] {
        1 + greedy_matches(input.drop_first(), entry.drop_first())
    } else {
        greedy_matches(input, entry.drop_first())
    }
}

/// The score that [`get_subsequences`] gives.
pub open spec fn subsequence_score(
    input: Seq<char>,
    entry: Seq<char>,
    extension: Option<Seq<char>>,
) -> nat {
    if input.len() == 0 || !passes_extension(entry, extension) {
        0
    } else {
        greedy_matches(input, entry)
    }
}

/// `a` occurs in `b` in order, not necessarily contiguously: `f` picks, for each
/// char of `a`, a position of `b` holding it, the positions rising.
pub open spec fn embeds(a: Seq<char>, b: Seq<char>, f: spec_fn(int) -> int) -> bool {
    &&& forall|i: int| 0 <= i < a.len() ==> 0 <= #[trigger] f(i) < b.len() && b[f(i)] == a[i]
    &&& forall|i: int, j: int| 0 <= i < j < a.len() ==> #[trigger] f(i) < #[trigger] f(j)
}

pub open spec fn is_subsequence(a: Seq<char>, b: Seq<char>) -> bool {
    exists|f: spec_fn(int) -> int| embeds(a, b, f)
}

/// The greedy count never exceeds the length of either string.
pub proof fn lemma_greedy_bounded(input: Seq<char>, entry: Seq<char>)
    ensures
        greedy_matches(input, entry) <= input.len(),
        greedy_matches(input, entry) <= entry.len(),
    decreases input.len() + entry.len(),
{
    if input.len() == 0 || entry.len() == 0 {
    } else if entry[0] == input[0] {
        lemma_greedy_bounded(input.drop_first(), entry.drop_first());
    } else {
        lemma_greedy_bounded(input, entry.drop_first());
    }
}

/// Every char of the input counts when the input is a subsequence of the entry.
pub proof fn lemma_greedy_finds_subsequence(input: Seq<char>, entry: Seq<char>)
    requires
        is_subsequence(input, entry),
    ensures
        greedy_matches(input, entry) == input.len(),
    decreases input.len() + entry.len(),
{
    let f = choose|f: spec_fn(int) -> int| embeds(input, entry, f);
    if input.len() == 0 {
    } else {
        assert(0 <= f(0) < entry.len());
        if entry[0] == input[0] {
            let g = |i: int| f(i + 1) - 1;
            assert forall|i: int| 0 <= i < input.len() - 1 implies 0 <= #[trigger] g(i)
                < entry.len() - 1 && entry.drop_first()[g(i)] == input.drop_first()[i] by {
                assert(f(0) < f(i + 1));
            }
            assert forall|i: int, j: int| 0 <= i < j < input.len() - 1 implies #[trigger] g(i)
                < #[trigger] g(j) by {
                assert(f(i + 1) < f(j + 1));
            }
            assert(embeds(input.drop_first(), entry.drop_first(), g));
            lemma_greedy_finds_subsequence(input.drop_first(), entry.drop_first());
        } else {
            assert(f(0) != 0);
            let g = |i: int| f(i) - 1;
            assert forall|i: int| 0 <= i < input.len() implies 0 <= #[trigger] g(i) < entry.len()
                - 1 && entry.drop_first()[g(i)] == input[i] by {
                if i > 0 {
                    assert(f(0) < f(i));
                }
            }
            assert forall|i: int, j: int| 0 <= i < j < input.len() implies #[trigger] g(i)
                < #[trigger] g(j) by {
                assert(f(i) < f(j));
            }
            assert(embeds(input, entry.drop_first(), g));
            lemma_greedy_finds_subsequence(input, entry.drop_first());
        }
    }
}

/// A prefix of the input is counted no higher than the whole input.
pub proof fn lemma_greedy_prefix_monotone(s: Seq<char>, e: Seq<char>, j: int)
    requires
        0 <= j <= s.len(),
    ensures
        greedy_matches(s.take(j), e) <= greedy_matches(s, e),
    decreases s.len() + e.len(),
{
    if j == 0 || e.len() == 0 {
    } else {
        let p = s.take(j);
        assert(p[0] == s[0]);
        if e[0] == s[0] {
            assert(p.drop_first() == s.drop_first().take(j - 1));
            lemma_greedy_prefix_monotone(s.drop_first(), e.drop_first(), j - 1);
        } else {
            lemma_greedy_prefix_monotone(s, e.drop_first(), j);
        }
    }
}

/// The chars that the greedy scan counts occur, in order, in the entry.
pub proof fn lemma_greedy_prefix_embeds(input: Seq<char>, entry: Seq<char>)
    ensures
        is_subsequence(input.take(greedy_matches(input, entry) as int), entry),
    decreases input.len() + entry.len(),
{
    let g = greedy_matches(input, entry) as int;
    lemma_greedy_bounded(input, entry);
    if input.len() == 0 || entry.len() == 0 {
        let h = |i: int| 0int;
        assert(embeds(input.take(g), entry, h));
    } else if entry[0] == input[0] {
        let rest = input.drop_first();
        lemma_greedy_prefix_embeds(rest, entry.drop_first());
        let f = choose|f: spec_fn(int) -> int| #[trigger] embeds(rest.take(g - 1), entry.drop_first(), f);
        let h = |i: int|
            if i == 0 {
                0int
            } else {
                f(i - 1) + 1
            };
        assert forall|i: int| 0 <= i < g implies 0 <= #[trigger] h(i) < entry.len() && entry[h(i)]
            == input.take(g)[i] by {
            if i > 0 {
                assert(rest.take(g - 1)[i - 1] == input.take(g)[i]);
                assert(0 <= f(i - 1) < entry.len() - 1);
            }
        }
        assert forall|i: int, j: int| 0 <= i < j < g implies #[trigger] h(i) < #[trigger] h(j) by {
            if i > 0 {
                assert(f(i - 1) < f(j - 1));
            } else {
                assert(0 <= f(j - 1));
            }
        }
        assert(embeds(input.take(g), entry, h));
    } else {
        lemma_greedy_prefix_embeds(input, entry.drop_first());
        let f = choose|f: spec_fn(int) -> int| #[trigger] embeds(input.take(g), entry.drop_first(), f);
        let h = |i: int| f(i) + 1;
        assert forall|i: int| 0 <= i < g implies 0 <= #[trigger] h(i) < entry.len() && entry[h(i)]
            == input.take(g)[i] by {
            assert(0 <= f(i) < entry.len() - 1);
        }
        assert forall|i: int, j: int| 0 <= i < j < g implies #[trigger] h(i) < #[trigger] h(j) by {
            assert(f(i) < f(j));
        }
        assert(embeds(input.take(g), entry, h));
    }
}

/// The greedy count is the length of the longest prefix of the input that occurs, in
/// order, in the entry.
pub proof fn lemma_greedy_longest_prefix(input: Seq<char>, entry: Seq<char>)
    ensures
        is_subsequence(input.take(greedy_matches(input, entry) as int), entry),
        greedy_matches(input, entry) < input.len() ==> !is_subsequence(
            input.take(greedy_matches(input, entry) + 1int),
            entry,
        ),
{
    let g = greedy_matches(input, entry) as int;
    lemma_greedy_prefix_embeds(input, entry);
    if g < input.len() && is_subsequence(input.take(g + 1), entry) {
        lemma_greedy_finds_subsequence(input.take(g + 1), entry);
        lemma_greedy_prefix_monotone(input, entry, g + 1);
    }
}

/// Scanning past a char that is not the one sought leaves the count unchanged.
proof fn lemma_greedy_skip(input: Seq<char>, entry: Seq<char>, i: int, j: int)
    requires
        0 <= i < input.len(),
        0 <= j < entry.len(),
        entry[j] != input[i],
    ensures
        greedy_matches(input.skip(i), entry.skip(j)) == greedy_matches(
            input.skip(i),
            entry.skip(j + 1),
        ),
{
    assert(entry.skip(j).drop_first() == entry.skip(j + 1));
}

/// Finding the sought char counts it and moves both scans on.
proof fn lemma_greedy_take(input: Seq<char>, entry: Seq<char>, i: int, j: int)
    requires
        0 <= i < input.len(),
        0 <= j < entry.len(),
        entry[j] == input[i],
    ensures
        greedy_matches(input.skip(i), entry.skip(j)) == 1 + greedy_matches(
            input.skip(i + 1),
            entry.skip(j + 1),
        ),
{
    assert(entry.skip(j).drop_first() == entry.skip(j + 1));
    assert(input.skip(i).drop_first() == input.skip(i + 1));
}

/// Once the entry is used up, nothing more is found.
proof fn lemma_greedy_exhausted(input: Seq<char>, entry: Seq<char>, i: int)
    requires
        0 <= i <= input.len(),
    ensures
        greedy_matches(input.skip(i), entry.skip(entry.len() as int)) == 0,
{
}

/// The number of chars of `input` that one forward scan of `entry` finds in
/// order, or 0 for an empty input or an entry that fails the extension filter.
pub fn get_subsequences(input: &str, entry: &str, extension: &Option<String>) -> (count: usize)
    ensures
        count == subsequence_score(input@, entry@, opt_view(*extension)),
{
    if input.is_empty() {
        return 0;
    }
    if !extension_matches(entry, extension) {
        return 0;
    }
    let inp = chars_of(input);
    let ent = chars_of(entry);
    let mut count: usize = 0;
    let mut j: usize = 0;
    let mut i: usize = 0;
    while i < inp.len()
        invariant
            inp@ == input@,
            ent@ == entry@,
            i <= inp.len(),
            j <= ent.len(),
            count <= i,
            count + greedy_matches(inp@.skip(i as int), ent@.skip(j as int)) == greedy_matches(
                inp@,
                ent@,
            ),
        decreases inp.len() - i,
    {
        let c = inp[i];
        let mut found = false;
        while j < ent.len()
            invariant_except_break
                !found,
                count + greedy_matches(inp@.skip(i as int), ent@.skip(j as int)) == greedy_matches(
                    inp@,
                    ent@,
                ),
            invariant
                inp@ == input@,
                ent@ == entry@,
                i < inp.len(),
                j <= ent.len(),
                c == inp@[i as int],
                count <= i,
            ensures
                found ==> count + 1 + greedy_matches(inp@.skip(i + 1), ent@.skip(j as int))
                    == greedy_matches(inp@, ent@),
                !found ==> j == ent.len() && count + greedy_matches(
                    inp@.skip(i as int),
                    ent@.skip(j as int),
                ) == greedy_matches(inp@, ent@),
            decreases ent.len() - j,
        {
            let x = ent[j];
            if x == c {
                proof {
                    lemma_greedy_take(inp@, ent@, i as int, j as int);
                }
                j = j + 1;
                found = true;
                break;
            } else {
                proof {
                    lemma_greedy_skip(inp@, ent@, i as int, j as int);
                }
                j = j + 1;
            }
        }
        if found {
            count = count + 1;
        } else {
            proof {
                lemma_greedy_exhausted(inp@, ent@, i as int);
                lemma_greedy_exhausted(inp@, ent@, i + 1);
            }
        }
        i = i + 1;
    }
    assert(inp@.skip(i as int).len() == 0);
    count
}

// ---------------------------------------------------------------------------
// Longest common stretch
// ---------------------------------------------------------------------------

/// UTF-8 encoding distributes over concatenation.
pub proof fn lemma_encode_concat(a: Seq<char>, b: Seq<char>)
    ensures
        encode_utf8(a + b) == encode_utf8(a) + encode_utf8(b),
    decreases a.len(),
{
    if a.len() == 0 {
        assert(a + b == b);
    } else {
        lemma_encode_concat(a.drop_first(), b);
        assert((a + b).drop_first() == a.drop_first() + b);
    }
}

/// A stretch of a string takes no more bytes than the whole string.
pub proof fn lemma_byte_len_subrange(s: Seq<char>, i: int, j: int)
    requires
        0 <= i <= j <= s.len(),
    ensures
        byte_len(s.subrange(i, j)) <= byte_len(s),
{
    let a = s.subrange(0, i);
    let b = s.subrange(i, j);
    let c = s.subrange(j, s.len() as int);
    assert(s == a + b + c);
    lemma_encode_concat(a + b, c);
    lemma_encode_concat(a, b);
}

/// The stretch `input[s..e]` (in chars) is, in lower case, found in the entry's
/// lower case.
pub open spec fn substring_candidate(input: Seq<char>, entry_lower: Seq<char>, s: int, e: int) -> bool {
    0 <= s < e <= input.len() && contains_seq(entry_lower, lowercase(input.subrange(s, e)))
}

/// `r` is the largest byte length of a stretch of `input` found, case aside, in the
/// entry, or 0 where there is none.
pub open spec fn is_longest_match(input: Seq<char>, entry_lower: Seq<char>, r: int) -> bool {
    &&& forall|s: int, e: int|
        #[trigger] substring_candidate(input, entry_lower, s, e) ==> byte_len(input.subrange(s, e))
            <= r
    &&& r == 0 || exists|s: int, e: int|
        #[trigger] substring_candidate(input, entry_lower, s, e) && byte_len(input.subrange(s, e))
            == r
}

/// The score that [`get_substring`] gives.
pub open spec fn substring_score_is(
    input: Seq<char>,
    entry: Seq<char>,
    extension: Option<Seq<char>>,
    r: int,
) -> bool {
    if input.len() == 0 || !passes_extension(entry, extension) {
        r == 0
    } else {
        is_longest_match(input, lowercase(entry), r)
    }
}

/// The byte length of the longest stretch of `input` whose lower case occurs in the
/// lower case of `entry`; 0 for an empty input or an entry that fails the extension
/// filter.
pub fn get_substring(input: &str, entry: &str, extension: &Option<String>) -> (longest: usize)
    ensures
        substring_score_is(input@, entry@, opt_view(*extension), longest as int),
{
    if input.is_empty() {
        return 0;
    }
    if !extension_matches(entry, extension) {
        return 0;
    }
    let n = input.unicode_len();
    let total_bytes = input.as_bytes().len();
    let ghost el = lowercase(entry@);
    let mut longest: usize = 0;
    let mut start: usize = 0;
    while start < n
        invariant
            n == input@.len(),
            start <= n,
            total_bytes == byte_len(input@),
            el == lowercase(entry@),
            forall|s: int, e: int|
                #[trigger] substring_candidate(input@, el, s, e) && s < start ==> byte_len(
                    input@.subrange(s, e),
                ) <= longest,
            longest == 0 || exists|s: int, e: int|
                #[trigger] substring_candidate(input@, el, s, e) && byte_len(input@.subrange(s, e))
                    == longest,
        decreases n - start,
    {
        let mut end = start;
        while end < n
            invariant
                n == input@.len(),
                start < n,
                start <= end <= n,
                total_bytes == byte_len(input@),
                el == lowercase(entry@),
                forall|s: int, e: int|
                    #[trigger] substring_candidate(input@, el, s, e) && (s < start || (s == start
                        && e <= end)) ==> byte_len(input@.subrange(s, e)) <= longest,
                longest == 0 || exists|s: int, e: int|
                    #[trigger] substring_candidate(input@, el, s, e) && byte_len(
                        input@.subrange(s, e),
                    ) == longest,
            decreases n - end,
        {
            end = end + 1;
            let slice = input.substring_char(start, end);
            let entry_lower = chars_of(&to_lowercase(entry));
            let slice_lower = chars_of(&to_lowercase(slice));
            if contains_chars(&entry_lower, &slice_lower) {
                proof {
                    lemma_byte_len_subrange(input@, start as int, end as int);
                    assert(substring_candidate(input@, el, start as int, end as int));
                }
                let len = slice.len();
                if len > longest {
                    longest = len;
                }
            }
        }
        start = start + 1;
    }
    longest
}

/// The score of an empty-free, filter-passing input never exceeds its own byte length.
pub proof fn lemma_substring_score_bounded(
    input: Seq<char>,
    entry: Seq<char>,
    extension: Option<Seq<char>>,
    r: int,
)
    requires
        substring_score_is(input, entry, extension, r),
    ensures
        0 <= r <= byte_len(input),
{
    if r != 0 {
        let (s, e) = choose|s: int, e: int|
            #[trigger] substring_candidate(input, lowercase(entry), s, e) && byte_len(
                input.subrange(s, e),
            ) == r;
        lemma_byte_len_subrange(input, s, e);
    }
}

/// An input whose lower case occurs whole in the entry's lower case scores its full
/// byte length.
pub proof fn lemma_substring_whole_input(
    input: Seq<char>,
    entry: Seq<char>,
    extension: Option<Seq<char>>,
    r: int,
)
    requires
        input.len() > 0,
        passes_extension(entry, extension),
        contains_seq(lowercase(entry), lowercase(input)),
        substring_score_is(input, entry, extension, r),
    ensures
        r == byte_len(input),
{
    assert(input.subrange(0, input.len() as int) == input);
    assert(substring_candidate(input, lowercase(entry), 0, input.len() as int));
    lemma_substring_score_bounded(input, entry, extension, r);
}

// ---------------------------------------------------------------------------
// Size amounts
// ---------------------------------------------------------------------------

pub open spec fn all_digits(s: Seq<char>) -> bool {
    forall|i: int| 0 <= i < s.len() ==> '0' <= #[trigger] s[i] <= '9'
}

/// The decimal value of a string of digits.
pub open spec fn digits_value(s: Seq<char>) -> int
    decreases s.len(),
{
    if s.len() == 0 {
        0
    } else {
        digits_value(s.drop_last()) * 10 + (s.last() as int - '0' as int)
    }
}

/// What `u64::from_str` accepts: an optional `+` and then one or more ASCII digits
/// whose value fits in a `u64`.
pub open spec fn parse_u64(s: Seq<char>) -> Option<u64> {
    let d = unsigned_digits(s);
    if d.len() > 0 && all_digits(d) && digits_value(d) <= u64::MAX {
        Some(digits_value(d) as u64)
    } else {
        None
    }
}

proof fn lemma_digits_value_nonneg(s: Seq<char>)
    requires
        all_digits(s),
    ensures
        digits_value(s) >= 0,
    decreases s.len(),
{
    if s.len() > 0 {
        lemma_digits_value_nonneg(s.drop_last());
    }
}

/// The value of a digit string's prefix never exceeds the value of the whole.
proof fn lemma_digits_value_prefix(s: Seq<char>, i: int)
    requires
        all_digits(s),
        0 <= i <= s.len(),
    ensures
        digits_value(s.take(i)) <= digits_value(s),
    decreases s.len() - i,
{
    if i < s.len() {
        lemma_digits_value_prefix(s, i + 1);
        assert(s.take(i + 1).drop_last() == s.take(i));
        lemma_digits_value_nonneg(s.take(i));
    } else {
        assert(s.take(i) == s);
    }
}

/// The digits of a numeral: `s` less a leading `+`.
pub open spec fn unsigned_digits(s: Seq<char>) -> Seq<char> {
    if s.len() > 0 && s[0] == '+' {
        s.drop_first()
    } else {
        s
    }
}

/// One more digit multiplies the value by ten and adds the digit.
proof fn lemma_digit_step(s: Seq<char>, start: int, i: int)
    requires
        0 <= start <= i < s.len(),
        all_digits(s.subrange(start, i)),
        '0' <= s[i] <= '9',
    ensures
        all_digits(s.subrange(start, i + 1)),
        digits_value(s.subrange(start, i + 1)) == digits_value(s.subrange(start, i)) * 10 + (
        s[i] as int - '0' as int),
        digits_value(s.subrange(start, i)) >= 0,
{
    assert(s.subrange(start, i + 1).drop_last() == s.subrange(start, i));
    lemma_digits_value_nonneg(s.subrange(start, i));
}

/// A numeral whose digits so far already exceed `u64::MAX` does not parse.
proof fn lemma_overflow_rejects(s: Seq<char>, start: int, i: int)
    requires
        0 <= start <= i < s.len(),
        unsigned_digits(s) == s.skip(start),
        all_digits(s.subrange(start, i + 1)),
        digits_value(s.subrange(start, i + 1)) > u64::MAX,
    ensures
        parse_u64(s) is None,
{
    let d = s.skip(start);
    if all_digits(d) {
        assert(s.subrange(start, i + 1) == d.take(i + 1 - start));
        lemma_digits_value_prefix(d, i + 1 - start);
    }
}

/// `u64::from_str` on a string given as chars; see [`parse_u64`].
pub fn parse_u64_chars(s: &Vec<char>) -> (r: Option<u64>)
    ensures
        r == parse_u64(s@),
{
    let start: usize = if s.len() > 0 && s[0] == '+' {
        1
    } else {
        0
    };
    assert(unsigned_digits(s@) == s@.skip(start as int));
    if start == s.len() {
        assert(unsigned_digits(s@).len() == 0);
        return None;
    }
    let mut acc: u64 = 0;
    let mut i: usize = start;
    while i < s.len()
        invariant
            start < s.len(),
            start <= i <= s.len(),
            unsigned_digits(s@) == s@.skip(start as int),
            all_digits(s@.subrange(start as int, i as int)),
            acc == digits_value(s@.subrange(start as int, i as int)),
        decreases s.len() - i,
    {
        let c = s[i];
        if !('0' <= c && c <= '9') {
            assert(unsigned_digits(s@)[i - start] == c);
            return None;
        }
        let digit = ((c as u32) - ('0' as u32)) as u64;
        proof {
            lemma_digit_step(s@, start as int, i as int);
        }
        match acc.checked_mul(10) {
            None => {
                proof {
                    lemma_overflow_rejects(s@, start as int, i as int);
                }
                return None;
            },
            Some(t) => match t.checked_add(digit) {
                None => {
                    proof {
                        lemma_overflow_rejects(s@, start as int, i as int);
                    }
                    return None;
                },
                Some(v) => {
                    acc = v;
                },
            },
        }
        i = i + 1;
    }
    assert(s@.subrange(start as int, i as int) == unsigned_digits(s@));
    Some(acc)
}

/// `s[k]` is the first alphabetic char of `s`.
pub open spec fn first_alpha_at(s: Seq<char>, k: int) -> bool {
    &&& 0 <= k < s.len()
    &&& is_alphabetic(s[k])
    &&& forall|i: int| 0 <= i < k ==> !is_alphabetic(#[trigger] s[i])
}

pub open spec fn has_alpha(s: Seq<char>) -> bool {
    exists|k: int| 0 <= k < s.len() && is_alphabetic(#[trigger] s[k])
}

/// `a * m`, or `u64::MAX` where the product does not fit, as `u64::saturating_mul` gives it.
pub open spec fn saturating_times(a: u64, m: int) -> u64 {
    if a * m > u64::MAX {
        u64::MAX
    } else {
        (a * m) as u64
    }
}

/// How many bytes one of a unit stands for: "b", "kb", "mb", "gb", "tb", anything
/// else counting as bytes.
pub open spec fn unit_bytes(unit: Seq<char>) -> int {
    if unit == seq!['k', 'b'] {
        1024
    } else if unit == seq!['m', 'b'] {
        1048576
    } else if unit == seq!['g', 'b'] {
        1073741824
    } else if unit == seq!['t', 'b'] {
        1099511627776
    } else {
        1
    }
}

/// Amounts with the same unit keep the order of their numbers: the larger number
/// never stands for fewer bytes.
pub proof fn lemma_memory_usage_monotone(a: Seq<char>, b: Seq<char>, ka: int, kb: int)
    requires
        first_alpha_at(a, ka),
        first_alpha_at(b, kb),
        a.skip(ka) == b.skip(kb),
        parse_u64(a.take(ka)) is Some,
        parse_u64(b.take(kb)) is Some,
        parse_u64(a.take(ka))->0 <= parse_u64(b.take(kb))->0,
    ensures
        memory_usage(a) <= memory_usage(b),
{
    assert(is_alphabetic(a[ka]));
    assert(is_alphabetic(b[kb]));
    let ja = choose|k: int| first_alpha_at(a, k);
    lemma_first_alpha_unique(a, ka, ja);
    let jb = choose|k: int| first_alpha_at(b, k);
    lemma_first_alpha_unique(b, kb, jb);
    let m = unit_bytes(lowercase(a.skip(ka)));
    let x = parse_u64(a.take(ka))->0;
    let y = parse_u64(b.take(kb))->0;
    assert(x * m <= y * m) by (nonlinear_arith)
        requires
            x <= y,
            m >= 1,
    ;
}

/// `get_memory_usage` does not panic on `amount`: the digits before its first
/// letter, if it has one, parse as a `u64`.
pub open spec fn memory_amount_parses(amount: Seq<char>) -> bool {
    forall|k: int| #[trigger] first_alpha_at(amount, k) ==> parse_u64(amount.take(k)) is Some
}

/// The byte count that an amount such as "10kb" stands for: the number before the
/// first letter times the unit from that letter on, in lower case (saturating); 0
/// for an amount with no letter.
pub open spec fn memory_usage(amount: Seq<char>) -> u64 {
    if has_alpha(amount) {
        let k = choose|k: int| first_alpha_at(amount, k);
        saturating_times(parse_u64(amount.take(k))->0, unit_bytes(lowercase(amount.skip(k))))
    } else {
        0
    }
}

/// A string has at most one first letter.
pub proof fn lemma_first_alpha_unique(s: Seq<char>, k: int, j: int)
    requires
        first_alpha_at(s, k),
        first_alpha_at(s, j),
    ensures
        k == j,
{
    if j < k {
        assert(!is_alphabetic(s[j]));
    } else if k < j {
        assert(!is_alphabetic(s[k]));
    }
}

fn times_saturating(a: u64, m: u64) -> (r: u64)
    ensures
        r == saturating_times(a, m as int),
{
    match a.checked_mul(m) {
        Some(v) => v,
        None => u64::MAX,
    }
}

/// Whether [`get_memory_usage`] accepts `amount`; see [`memory_amount_parses`].
pub fn memory_amount_valid(amount: &str) -> (ok: bool)
    ensures
        ok == memory_amount_parses(amount@),
{
    let cs = chars_of(amount);
    let mut k: usize = 0;
    while k < cs.len()
        invariant
            cs@ == amount@,
            k <= cs.len(),
            forall|i: int| 0 <= i < k ==> !is_alphabetic(#[trigger] cs@[i]),
        decreases cs.len() - k,
    {
        if char_is_alphabetic(cs[k]) {
            let prefix = take_chars(&cs, k);
            let ok = parse_u64_chars(&prefix).is_some();
            assert forall|j: int| #[trigger] first_alpha_at(amount@, j) implies j == k by {
                if j < k {
                    assert(!is_alphabetic(cs@[j]));
                } else if j > k {
                    assert(!is_alphabetic(amount@[k as int]));
                }
            }
            assert(first_alpha_at(amount@, k as int));
            return ok;
        }
        k = k + 1;
    }
    true
}

/// The first `k` chars of `cs`.
fn take_chars(cs: &Vec<char>, k: usize) -> (out: Vec<char>)
    requires
        k <= cs.len(),
    ensures
        out@ == cs@.take(k as int),
{
    let mut out: Vec<char> = Vec::new();
    let mut i: usize = 0;
    while i < k
        invariant
            k <= cs.len(),
            i <= k,
            out@ == cs@.take(i as int),
        decreases k - i,
    {
        out.push(cs[i]);
        i = i + 1;
        assert(out@ == cs@.take(i as int));
    }
    out
}

/// The number of bytes that an amount such as "10kb", "3MB" or "512b" stands for;
/// 0 for an amount with no letter in it.
pub fn get_memory_usage(amount: &str) -> (bytes: u64)
    requires
        memory_amount_parses(amount@),
    ensures
        bytes == memory_usage(amount@),
{
    let cs = chars_of(amount);
    let n = cs.len();
    let mut k: usize = 0;
    while k < n
        invariant
            cs@ == amount@,
            n == cs.len(),
            k <= n,
            forall|i: int| 0 <= i < k ==> !is_alphabetic(#[trigger] cs@[i]),
        ensures
            k <= n,
            k < n ==> is_alphabetic(cs@[k as int]),
            forall|i: int| 0 <= i < k ==> !is_alphabetic(#[trigger] cs@[i]),
        decreases n - k,
    {
        if char_is_alphabetic(cs[k]) {
            break;
        }
        k = k + 1;
    }
    if k == n {
        return 0;
    }
    assert(first_alpha_at(amount@, k as int));
    proof {
        let j = choose|j: int| first_alpha_at(amount@, j);
        lemma_first_alpha_unique(amount@, k as int, j);
    }
    let prefix = take_chars(&cs, k);
    let size = match parse_u64_chars(&prefix) {
        Some(v) => v,
        None => {
            return 0;
        },
    };
    let unit = chars_of(&to_lowercase(amount.substring_char(k, n)));
    let m: u64 = if unit.len() == 2 && unit[0] == 'k' && unit[1] == 'b' {
        assert(unit@ == seq!['k', 'b']);
        1024
    } else if unit.len() == 2 && unit[0] == 'm' && unit[1] == 'b' {
        assert(unit@ == seq!['m', 'b']);
        1024 * 1024
    } else if unit.len() == 2 && unit[0] == 'g' && unit[1] == 'b' {
        assert(unit@ == seq!['g', 'b']);
        1024 * 1024 * 1024
    } else if unit.len() == 2 && unit[0] == 't' && unit[1] == 'b' {
        assert(unit@ == seq!['t', 'b']);
        1024 * 1024 * 1024 * 1024
    } else {
        1
    };
    times_saturating(size, m)
}

/// The test by which a folder is recognised in the home tree: its name equals the
/// wanted name's lower case, ASCII letters compared without case.
pub fn folder_name_matches(name: &str, wanted: &str) -> (r: bool)
    ensures
        r == eq_ignore_ascii(name@, lowercase(wanted@)),
{
    eq_ignore_ascii_case(name, to_lowercase(wanted).as_str())
}

} // verus!
