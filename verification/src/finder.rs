//! The search: what the command line asks for, the checks made before walking
//! the folder, the decision taken at each walked entry, and the final ranking.
use vstd::prelude::*;
use vstd::std_specs::convert::FromSpecImpl;
use crate::cache::{
    inserted, lists_entries, looked_up, read_in_range, Cache, CacheEntry, Lookup,
};
use crate::matching::{
    extension_matches, get_memory_usage, get_subsequences, get_substring, memory_amount_parses,
    memory_amount_valid, memory_usage, passes_extension, subsequence_score, substring_score_is,
};
use crate::text::{
    chars_of, contains_chars, contains_seq, ends_with_chars, eq_ignore_ascii, eq_ignore_ascii_case,
    ascii_lower, is_suffix_of, lines, lowercase, opt_view, paths_equal, same_path, str_contains,
    text_lines, trim, trimmed,
};

verus! {

/// The command line as given.
pub struct CliArgs {
    pub folder_name: String,
    pub file_name: String,
    pub extension: Option<String>,
    pub limit: Option<usize>,
    pub content: Option<String>,
    pub ignore: Option<String>,
    pub max: Option<String>,
    pub min: Option<String>,
    pub json: bool,
}

/// A search request.
pub struct FzFinder {
    pub folder_name: String,
    pub file_name: String,
    pub file_ext: Option<String>,
    pub limit: Option<usize>,
    pub content: Option<String>,
    pub ignore: Option<String>,
    pub max: Option<String>,
    pub min: Option<String>,
    pub json: bool,
}

impl From<CliArgs> for FzFinder {
    fn from(cli: CliArgs) -> (finder: Self) {
        FzFinder {
            folder_name: cli.folder_name,
            file_name: cli.file_name,
            file_ext: cli.extension,
            limit: cli.limit,
            content: cli.content,
            ignore: cli.ignore,
            max: cli.max,
            min: cli.min,
            json: cli.json,
        }
    }
}

impl FromSpecImpl<CliArgs> for FzFinder {
    open spec fn obeys_from_spec() -> bool {
        true
    }

    open spec fn from_spec(cli: CliArgs) -> FzFinder {
        FzFinder {
            folder_name: cli.folder_name,
            file_name: cli.file_name,
            file_ext: cli.extension,
            limit: cli.limit,
            content: cli.content,
            ignore: cli.ignore,
            max: cli.max,
            min: cli.min,
            json: cli.json,
        }
    }
}

/// Why a search is refused before it starts: the typed name ends with the ignore
/// pattern.
pub enum IgnoreRefusal {
    /// An extension was given as well.
    ExtensionIgnored,
    /// No extension was given.
    NameIgnored,
}

/// The folder searched when none is named.
pub open spec fn home_folder() -> Seq<char> {
    "/home"@
}

/// The command examples listed when a folder is named and nothing to look for.
pub fn valid_commands_set() -> (cmds: Vec<&'static str>)
    ensures
        cmds@.map_values(|c: &str| c@) == seq![
            "\x1b[32m--file-name\x1b[0m \x1b[37m<example-file>\x1b[0m"@,
            "\x1b[36m--folder-name\x1b[0m \x1b[37m<example-dir-name>\x1b[0m"@,
            "\x1b[36m--folder-name\x1b[0m \x1b[37m<example-dir-name>\x1b[0m \x1b[32m--file-name\x1b[0m \x1b[37m<example-file>\x1b[0m"@,
            "\x1b[32m--file-name\x1b[0m \x1b[37m<example-file>\x1b[0m \x1b[31m--extension\x1b[0m \x1b[33m<.sh | .png | .txt>\x1b[0m"@,
            "\x1b[36m--folder-name\x1b[0m \x1b[37m<example-dir-name>\x1b[0m \x1b[31m--extension\x1b[0m \x1b[33m<.sh | .png | .txt>\x1b[0m"@,
            "\x1b[36m--folder-name\x1b[0m \x1b[37m<example-dir-name>\x1b[0m \x1b[32m--file-name\x1b[0m \x1b[37m<example-file>\x1b[0m \x1b[31m--extension\x1b[0m \x1b[33m<.sh | .png | .txt>\x1b[0m"@,
        ],
{
    let cmds = vec![
        "\x1b[32m--file-name\x1b[0m \x1b[37m<example-file>\x1b[0m",
        "\x1b[36m--folder-name\x1b[0m \x1b[37m<example-dir-name>\x1b[0m",
        "\x1b[36m--folder-name\x1b[0m \x1b[37m<example-dir-name>\x1b[0m \x1b[32m--file-name\x1b[0m \x1b[37m<example-file>\x1b[0m",
        "\x1b[32m--file-name\x1b[0m \x1b[37m<example-file>\x1b[0m \x1b[31m--extension\x1b[0m \x1b[33m<.sh | .png | .txt>\x1b[0m",
        "\x1b[36m--folder-name\x1b[0m \x1b[37m<example-dir-name>\x1b[0m \x1b[31m--extension\x1b[0m \x1b[33m<.sh | .png | .txt>\x1b[0m",
        "\x1b[36m--folder-name\x1b[0m \x1b[37m<example-dir-name>\x1b[0m \x1b[32m--file-name\x1b[0m \x1b[37m<example-file>\x1b[0m \x1b[31m--extension\x1b[0m \x1b[33m<.sh | .png | .txt>\x1b[0m",
    ];
    assert(cmds@.map_values(|c: &str| c@) =~= seq![
        cmds@[0]@, cmds@[1]@, cmds@[2]@, cmds@[3]@, cmds@[4]@, cmds@[5]@,
    ]);
    cmds
}

impl FzFinder {
    /// The name typed ends, once trimmed, with the ignore pattern.
    pub open spec fn spec_ignore_refused(&self) -> bool {
        &&& self.ignore is Some
        &&& self.file_name@.len() > 0
        &&& is_suffix_of(self.ignore->0@, trimmed(self.file_name@))
    }

    /// Whether the search is refused because the name typed ends with the ignore
    /// pattern, and in which form.
    pub fn ignore_refusal(&self) -> (refusal: Option<IgnoreRefusal>)
        ensures
            refusal is Some <==> self.spec_ignore_refused(),
            refusal matches Some(r) ==> (r is ExtensionIgnored <==> self.file_ext is Some),
    {
        match &self.ignore {
            None => None,
            Some(ignore) => {
                if self.file_name.as_str().is_empty() {
                    return None;
                }
                let name = chars_of(trim(self.file_name.as_str()));
                let pattern = chars_of(ignore.as_str());
                if ends_with_chars(&name, &pattern) {
                    if self.file_ext.is_some() {
                        Some(IgnoreRefusal::ExtensionIgnored)
                    } else {
                        Some(IgnoreRefusal::NameIgnored)
                    }
                } else {
                    None
                }
            },
        }
    }

    /// Whether the folder named is the home folder, path components compared.
    pub fn searches_home(&self) -> (home: bool)
        ensures
            home == same_path(self.folder_name@, home_folder()),
    {
        paths_equal(self.folder_name.as_str(), default_folder())
    }

    /// A folder other than home is named, and neither a name nor an extension.
    pub open spec fn spec_folder_only(&self) -> bool {
        &&& self.file_name@.len() == 0
        &&& (self.file_ext matches Some(x) ==> x@.len() == 0)
        &&& !same_path(self.folder_name@, home_folder())
    }

    /// Whether only a folder is named, in which case the valid commands are listed.
    pub fn is_folder_only(&self) -> (only: bool)
        ensures
            only == self.spec_folder_only(),
    {
        let no_ext = match &self.file_ext {
            None => true,
            Some(x) => x.as_str().is_empty(),
        };
        self.file_name.as_str().is_empty() && no_ext && !self.searches_home()
    }

    /// The search consults the cache: a name is typed that does not end with the
    /// ignore pattern, and an extension other than that pattern is given.
    pub open spec fn spec_uses_cache(&self) -> bool {
        &&& self.file_name@.len() > 0
        &&& self.ignore is Some
        &&& !is_suffix_of(self.ignore->0@, self.file_name@)
        &&& self.file_ext is Some
        &&& self.ignore->0@ != self.file_ext->0@
    }

    /// Whether the search consults the cache under the typed name.
    pub fn uses_cache(&self) -> (uses: bool)
        ensures
            uses == self.spec_uses_cache(),
    {
        if self.file_name.as_str().is_empty() {
            return false;
        }
        match (&self.ignore, &self.file_ext) {
            (Some(ignore), Some(ext)) => {
                let name = chars_of(self.file_name.as_str());
                let pattern = chars_of(ignore.as_str());
                !ends_with_chars(&name, &pattern) && !(*ignore == *ext)
            },
            _ => false,
        }
    }

    /// The size bounds that are in force parse: the maximum if one is given, else
    /// the minimum if one is given.
    pub open spec fn spec_size_filter_parses(&self) -> bool {
        match self.max {
            Some(m) => memory_amount_parses(m@),
            None => match self.min {
                Some(m) => memory_amount_parses(m@),
                None => true,
            },
        }
    }

    /// Whether the size bounds in force parse; see [`FzFinder::spec_size_filter_parses`].
    pub fn size_filter_parses(&self) -> (ok: bool)
        ensures
            ok == self.spec_size_filter_parses(),
    {
        match &self.max {
            Some(m) => memory_amount_valid(m.as_str()),
            None => match &self.min {
                Some(m) => memory_amount_valid(m.as_str()),
                None => true,
            },
        }
    }

    /// Whether the size of an entry is looked at: it is a file and a bound is given.
    pub fn needs_size(&self, is_file: bool) -> (needed: bool)
        ensures
            needed == (is_file && (self.max is Some || self.min is Some)),
    {
        is_file && (self.max.is_some() || self.min.is_some())
    }
}

/// What a search does before walking: refuse, list the valid commands, or walk.
pub enum Plan {
    Refused(IgnoreRefusal),
    ListCommands,
    Walk,
}

/// What consulting the cache did.
pub enum CacheConsult {
    /// The search does not use the cache.
    Skipped,
    /// The typed name was cached and fresh; its read was counted.
    Hit,
    /// The typed name was not cached; the folder is now stored under it.
    Stored,
    /// The typed name's entry had expired and was removed; these are the entries
    /// left right then. The folder is now stored under the name.
    ExpiredThenStored(Vec<(String, CacheEntry)>),
}

/// The folder searched when none is named, and the one fallen back to when a
/// named folder is not found.
pub fn default_folder() -> (p: &'static str)
    ensures
        p@ == home_folder(),
{
    "/home"
}

impl FzFinder {
    /// The checks made before a walk, in order: the ignore refusal first, then
    /// whether only a folder is named.
    pub fn plan(&self) -> (p: Plan)
        ensures
            p matches Plan::Refused(r) ==> self.spec_ignore_refused() && (r is ExtensionIgnored
                <==> self.file_ext is Some),
            p is ListCommands ==> !self.spec_ignore_refused() && self.spec_folder_only(),
            p is Walk ==> !self.spec_ignore_refused() && !self.spec_folder_only(),
    {
        match self.ignore_refusal() {
            Some(r) => Plan::Refused(r),
            None => {
                if self.is_folder_only() {
                    Plan::ListCommands
                } else {
                    Plan::Walk
                }
            },
        }
    }

    /// Consults the cache under the typed name at second `now`: a fresh entry counts a
    /// read; a missing or expired one is replaced by `folder_path`.
    pub fn consult_cache(&self, cache: &mut Cache, folder_path: String, now: u64) -> (c:
        CacheConsult)
        requires
            self.spec_uses_cache() ==> read_in_range(old(cache)@, self.file_name@, now),
        ensures
            !self.spec_uses_cache() ==> c is Skipped && final(cache)@ == old(cache)@,
            self.spec_uses_cache() ==> {
                let (read, outcome) = looked_up(old(cache)@, self.file_name@, now);
                &&& (outcome is Hit <==> c is Hit)
                &&& (outcome is Missing <==> c is Stored)
                &&& (outcome is Expired <==> c is ExpiredThenStored)
                &&& outcome is Hit ==> final(cache)@ == read
                &&& !(outcome is Hit) ==> inserted(
                    read,
                    final(cache)@,
                    self.file_name@,
                    folder_path@,
                    now,
                )
                &&& c matches CacheConsult::ExpiredThenStored(items) ==> lists_entries(read, items@)
            },
    {
        if !self.uses_cache() {
            return CacheConsult::Skipped;
        }
        let outcome = cache.lookup_at(&self.file_name, now);
        match outcome {
            Lookup::Hit(_) => CacheConsult::Hit,
            Lookup::Missing => {
                cache.insert_at(self.file_name.clone(), folder_path, now);
                CacheConsult::Stored
            },
            Lookup::Expired => {
                let left = cache.entries();
                cache.insert_at(self.file_name.clone(), folder_path, now);
                CacheConsult::ExpiredThenStored(left)
            },
        }
    }
}

// ---------------------------------------------------------------------------
// Candidates and their score
// ---------------------------------------------------------------------------

/// A walked entry kept as a candidate, with its two match lengths.
pub struct MatchItem {
    pub substring_len: usize,
    pub subsequence_len: usize,
    pub file_name: String,
    pub path: String,
}

/// The number of `/` in a path.
pub open spec fn slash_count(p: Seq<char>) -> nat
    decreases p.len(),
{
    if p.len() == 0 {
        0
    } else {
        slash_count(p.drop_last()) + if p.last() == '/' {
            1nat
        } else {
            0nat
        }
    }
}

/// Shallow paths rank higher: 15 under 3 separators, 10 under 5, 5 under 8, else 0.
pub open spec fn depth_bonus(p: Seq<char>) -> int {
    let d = slash_count(p);
    if d < 3 {
        15
    } else if d < 5 {
        10
    } else if d < 8 {
        5
    } else {
        0
    }
}

/// The path looks like source or documents.
pub open spec fn looks_useful(p: Seq<char>) -> bool {
    ||| contains_seq(p, ".txt"@)
    ||| contains_seq(p, "/src"@)
    ||| contains_seq(p, "/bin"@)
    ||| contains_seq(p, "/lib"@)
    ||| contains_seq(p, "/docs"@)
    ||| contains_seq(p, "/public"@)
    ||| contains_seq(p, "/app"@)
    ||| contains_seq(p, "/core"@)
}

/// The path lies in dependencies or build output.
pub open spec fn looks_generated(p: Seq<char>) -> bool {
    contains_seq(p, "node_modules"@) || contains_seq(p, "/target/"@)
}

/// +20 for a useful-looking path, -20 for a generated-looking one.
pub open spec fn folder_bonus(p: Seq<char>) -> int {
    (if looks_useful(p) {
        20int
    } else {
        0int
    }) - (if looks_generated(p) {
        20int
    } else {
        0int
    })
}

impl MatchItem {
    /// The rank of a candidate: ten per byte of common stretch, one per greedily
    /// matched char, and the folder and depth bonuses of its path.
    pub open spec fn score(&self) -> int {
        self.substring_len * 10 + self.subsequence_len + folder_bonus(self.path@) + depth_bonus(
            self.path@,
        )
    }

    pub fn path_depth(&self) -> (bonus: i128)
        ensures
            bonus == depth_bonus(self.path@),
    {
        let cs = chars_of(self.path.as_str());
        let mut depth: usize = 0;
        let mut i: usize = 0;
        while i < cs.len()
            invariant
                cs@ == self.path@,
                i <= cs.len(),
                depth == slash_count(cs@.take(i as int)),
                depth <= i,
            decreases cs.len() - i,
        {
            assert(cs@.take(i + 1).drop_last() == cs@.take(i as int));
            if cs[i] == '/' {
                depth = depth + 1;
            }
            i = i + 1;
        }
        assert(cs@.take(i as int) == cs@);
        if depth < 3 {
            15
        } else if depth < 5 {
            10
        } else if depth < 8 {
            5
        } else {
            0
        }
    }

    pub fn folder_names(&self) -> (bonus: i128)
        ensures
            bonus == folder_bonus(self.path@),
    {
        let p = self.path.as_str();
        let mut bonus: i128 = 0;
        if str_contains(p, ".txt") || str_contains(p, "/src") || str_contains(p, "/bin")
            || str_contains(p, "/lib") || str_contains(p, "/docs") || str_contains(p, "/public")
            || str_contains(p, "/app") || str_contains(p, "/core") {
            bonus = bonus + 20;
        }
        if str_contains(p, "node_modules") || str_contains(p, "/target/") {
            bonus = bonus - 20;
        }
        bonus
    }

    pub fn calculate_score(&self) -> (s: i128)
        ensures
            s == self.score(),
    {
        let base = (self.substring_len as i128) * 10 + (self.subsequence_len as i128);
        base + self.folder_names() + self.path_depth()
    }
}

// ---------------------------------------------------------------------------
// The walk
// ---------------------------------------------------------------------------

/// An entry met while walking the folder: its path as displayed, its final name
/// where it has one in UTF-8, whether it is a file, and its size in bytes where
/// that is looked at (see [`FzFinder::needs_size`]).
pub struct WalkEntry {
    pub path: String,
    pub name: Option<String>,
    pub is_file: bool,
    pub size: u64,
}

/// What to do after an entry.
pub enum Step {
    /// Go on with the next entry.
    Continue,
    /// Search this file's text for the content pattern, then go on.
    SearchContent,
    /// This entry is the file asked for; the search ends with its path.
    Found(String),
}

pub enum StepView {
    Continue,
    SearchContent,
    Found(Seq<char>),
}

impl View for Step {
    type V = StepView;

    open spec fn view(&self) -> StepView {
        match self {
            Step::Continue => StepView::Continue,
            Step::SearchContent => StepView::SearchContent,
            Step::Found(p) => StepView::Found(p@),
        }
    }
}

impl FzFinder {
    /// The entry is a file outside the size bound in force: above the maximum if one
    /// is given, else below the minimum if one is given.
    pub open spec fn size_rejects(&self, e: WalkEntry) -> bool {
        match self.max {
            Some(m) => e.is_file && e.size > memory_usage(m@),
            None => match self.min {
                Some(m) => e.is_file && e.size < memory_usage(m@),
                None => false,
            },
        }
    }

    /// The name is the one typed, ASCII case aside, and passes the extension filter.
    pub open spec fn exact_match(&self, name: Seq<char>) -> bool {
        eq_ignore_ascii(name, self.file_name@) && passes_extension(name, opt_view(self.file_ext))
    }

    /// With no name typed, an entry is listed when an extension is given and the
    /// entry's name ends with it, case aside.
    pub open spec fn lists_by_extension(&self, name: Seq<char>) -> bool {
        self.file_ext is Some && passes_extension(name, opt_view(self.file_ext))
    }
}

/// `item` is the candidate made of entry `e` named `name`.
pub open spec fn is_candidate_for(f: FzFinder, e: WalkEntry, name: String, item: MatchItem) -> bool {
    &&& item.file_name == name
    &&& item.path == e.path
    &&& substring_score_is(f.file_name@, name@, opt_view(f.file_ext), item.substring_len as int)
    &&& item.subsequence_len == subsequence_score(f.file_name@, name@, opt_view(f.file_ext))
}

/// `heap2` is `heap` with one candidate for `e` added.
pub open spec fn adds_candidate(
    f: FzFinder,
    e: WalkEntry,
    name: String,
    heap: Seq<MatchItem>,
    heap2: Seq<MatchItem>,
) -> bool {
    heap2.len() == heap.len() + 1 && heap2.drop_last() == heap && is_candidate_for(
        f,
        e,
        name,
        heap2.last(),
    )
}

/// One step of the walk: from candidates `heap` and names `seen` to `heap2` and
/// `seen2`, with `outcome`.
pub open spec fn step_taken(
    f: FzFinder,
    e: WalkEntry,
    heap: Seq<MatchItem>,
    seen: Seq<Seq<char>>,
    heap2: Seq<MatchItem>,
    seen2: Seq<Seq<char>>,
    outcome: StepView,
) -> bool {
    if f.size_rejects(e) || e.name is None {
        heap2 == heap && seen2 == seen && outcome == StepView::Continue
    } else if f.content is Some && e.is_file {
        heap2 == heap && seen2 == seen && outcome == (if passes_extension(
            e.name->0@,
            opt_view(f.file_ext),
        ) {
            StepView::SearchContent
        } else {
            StepView::Continue
        })
    } else {
        let name = e.name->0;
        &&& (if f.file_name@.len() == 0 {
            seen2 == seen && if f.lists_by_extension(name@) {
                adds_candidate(f, e, name, heap, heap2)
            } else {
                heap2 == heap
            }
        } else if passes_extension(name@, opt_view(f.file_ext)) && !seen.contains(name@) {
            seen2 == seen.push(name@) && adds_candidate(f, e, name, heap, heap2)
        } else {
            heap2 == heap && seen2 == seen
        })
        &&& outcome == (if f.exact_match(name@) {
            StepView::Found(e.path@)
        } else {
            StepView::Continue
        })
    }
}

/// The walk stops only at the name typed: a step that ends the search names the
/// entry's path, and that entry's name has exactly as many chars as the typed
/// name and agrees with it char by char, ASCII case aside, and ends (in lower
/// case) with the extension if one is given. A name that only begins with the
/// typed name ("config.toml" for "config") never ends the walk.
pub proof fn lemma_found_means_exact_name(
    f: FzFinder,
    e: WalkEntry,
    heap: Seq<MatchItem>,
    seen: Seq<Seq<char>>,
    heap2: Seq<MatchItem>,
    seen2: Seq<Seq<char>>,
    outcome: StepView,
)
    requires
        step_taken(f, e, heap, seen, heap2, seen2, outcome),
        outcome is Found,
    ensures
        e.name is Some,
        outcome == StepView::Found(e.path@),
        e.name->0@.len() == f.file_name@.len(),
        forall|i: int|
            0 <= i < f.file_name@.len() ==> ascii_lower(#[trigger] e.name->0@[i]) == ascii_lower(
                f.file_name@[i],
            ),
        f.file_ext matches Some(x) ==> lowercase(x@).len() <= lowercase(e.name->0@).len() && forall|
            i: int,
        |
            0 <= i < lowercase(x@).len() ==> #[trigger] lowercase(e.name->0@)[lowercase(
                e.name->0@,
            ).len() - lowercase(x@).len() + i] == lowercase(x@)[i],
{
    if let Some(x) = f.file_ext {
        crate::matching::lemma_extension_is_a_suffix(e.name->0@, x@);
    }
}

/// The size bounds: with a maximum `m`, a file of more bytes than `m` stands for
/// is skipped and leaves the search as it was, and one of at most that many is not
/// skipped for its size; with no maximum and a minimum `m`, the same holds of
/// files of fewer bytes than `m` stands for. Folders are never skipped for size.
pub proof fn lemma_size_bounds(
    f: FzFinder,
    e: WalkEntry,
    heap: Seq<MatchItem>,
    seen: Seq<Seq<char>>,
    heap2: Seq<MatchItem>,
    seen2: Seq<Seq<char>>,
    outcome: StepView,
)
    requires
        step_taken(f, e, heap, seen, heap2, seen2, outcome),
    ensures
        f.max is Some && e.is_file && e.size > memory_usage(f.max->0@) ==> heap2 == heap && seen2
            == seen && outcome == StepView::Continue,
        f.max is None && f.min is Some && e.is_file && e.size < memory_usage(f.min->0@) ==> heap2
            == heap && seen2 == seen && outcome == StepView::Continue,
        !f.size_rejects(e) <==> (!e.is_file || match f.max {
            Some(m) => e.size <= memory_usage(m@),
            None => match f.min {
                Some(m) => e.size >= memory_usage(m@),
                None => true,
            },
        }),
{
}

/// A step never keeps a name twice: the names kept stay distinct.
pub proof fn lemma_step_keeps_names_distinct(
    f: FzFinder,
    e: WalkEntry,
    heap: Seq<MatchItem>,
    seen: Seq<Seq<char>>,
    heap2: Seq<MatchItem>,
    seen2: Seq<Seq<char>>,
    outcome: StepView,
)
    requires
        seen.no_duplicates(),
        step_taken(f, e, heap, seen, heap2, seen2, outcome),
    ensures
        seen2.no_duplicates(),
        seen2.len() <= seen.len() + 1,
        heap2.len() <= heap.len() + 1,
{
    if !(f.size_rejects(e) || e.name is None) && !(f.content is Some && e.is_file)
        && f.file_name@.len() != 0
        && passes_extension(e.name->0@, opt_view(f.file_ext)) && !seen.contains(e.name->0@) {
        let n = e.name->0@;
        assert forall|i: int, j: int| 0 <= i < seen2.len() && 0 <= j < seen2.len() && i != j implies seen2[i]
            != seen2[j] by {
            if j == seen.len() {
                assert(seen[i] != n);
            } else if i == seen.len() {
                assert(seen[j] != n);
            }
        }
    }
}

/// The state of a walk: the candidates kept, and, when a name is typed, the
/// names already kept.
pub struct Search {
    pub heap: Vec<MatchItem>,
    pub seen: Vec<String>,
}

impl Search {
    pub open spec fn seen_view(&self) -> Seq<Seq<char>> {
        self.seen@.map_values(|s: String| s@)
    }

    pub fn new() -> (s: Self)
        ensures
            s.heap@.len() == 0,
            s.seen_view().len() == 0,
    {
        Search { heap: Vec::new(), seen: Vec::new() }
    }

    fn has_seen(&self, name: &String) -> (r: bool)
        ensures
            r == self.seen_view().contains(name@),
    {
        let mut i: usize = 0;
        while i < self.seen.len()
            invariant
                i <= self.seen.len(),
                forall|j: int| 0 <= j < i ==> self.seen@[j]@ != name@,
            decreases self.seen.len() - i,
        {
            if self.seen[i] == *name {
                assert(self.seen_view()[i as int] == name@);
                return true;
            }
            i = i + 1;
        }
        assert forall|j: int| 0 <= j < self.seen_view().len() implies self.seen_view()[j]
            != name@ by {
            assert(self.seen@[j]@ != name@);
        }
        false
    }

    /// Takes one walked entry into account and says what to do next.
    pub fn step(&mut self, f: &FzFinder, e: &WalkEntry) -> (outcome: Step)
        requires
            f.spec_size_filter_parses(),
        ensures
            step_taken(
                *f,
                *e,
                old(self).heap@,
                old(self).seen_view(),
                final(self).heap@,
                final(self).seen_view(),
                outcome@,
            ),
    {
        let rejected = match &f.max {
            Some(m) => e.is_file && e.size > get_memory_usage(m.as_str()),
            None => match &f.min {
                Some(m) => e.is_file && e.size < get_memory_usage(m.as_str()),
                None => false,
            },
        };
        if rejected {
            return Step::Continue;
        }
        let name = match &e.name {
            None => {
                return Step::Continue;
            },
            Some(n) => n,
        };
        if f.content.is_some() && e.is_file {
            if extension_matches(name.as_str(), &f.file_ext) {
                return Step::SearchContent;
            }
            return Step::Continue;
        }
        let subsequence_len = get_subsequences(f.file_name.as_str(), name.as_str(), &f.file_ext);
        let substring_len = get_substring(f.file_name.as_str(), name.as_str(), &f.file_ext);
        let ghost heap0 = self.heap@;
        if f.file_name.as_str().is_empty() {
            if f.file_ext.is_some() && extension_matches(name.as_str(), &f.file_ext) {
                self.heap.push(
                    MatchItem {
                        substring_len,
                        subsequence_len,
                        file_name: name.clone(),
                        path: e.path.clone(),
                    },
                );
                assert(self.heap@.drop_last() == heap0);
            }
        } else {
            if extension_matches(name.as_str(), &f.file_ext) && !self.has_seen(name) {
                let ghost seen0 = self.seen_view();
                self.seen.push(name.clone());
                assert(self.seen_view() == seen0.push(name@));
                self.heap.push(
                    MatchItem {
                        substring_len,
                        subsequence_len,
                        file_name: name.clone(),
                        path: e.path.clone(),
                    },
                );
                assert(self.heap@.drop_last() == heap0);
            }
        }
        if eq_ignore_ascii_case(name.as_str(), f.file_name.as_str()) && extension_matches(
            name.as_str(),
            &f.file_ext,
        ) {
            Step::Found(e.path.clone())
        } else {
            Step::Continue
        }
    }
}

// ---------------------------------------------------------------------------
// Ranking
// ---------------------------------------------------------------------------

/// How many paths the ranking hands back: none without candidates, else the limit
/// (at least one) or all candidates if fewer.
pub open spec fn ranked_count(n: nat, limit: usize) -> nat {
    if n == 0 {
        0
    } else if limit <= 1 {
        1
    } else if limit < n {
        limit as nat
    } else {
        n
    }
}

/// `order` picks `order.len()` distinct candidates, best score first, no candidate
/// left out scoring above one picked.
pub open spec fn is_ranking(items: Seq<MatchItem>, order: Seq<int>) -> bool {
    &&& forall|i: int| 0 <= i < order.len() ==> 0 <= #[trigger] order[i] < items.len()
    &&& forall|i: int, j: int| 0 <= i < j < order.len() ==> #[trigger] order[i] != #[trigger] order[j]
    &&& forall|i: int, j: int|
        0 <= i < j < order.len() ==> items[#[trigger] order[i]].score() >= items[#[trigger] order[j]].score()
    &&& forall|i: int, j: int|
        #![trigger items[j].score(), order[i]]
        0 <= i < order.len() && 0 <= j < items.len() && !order.contains(j) ==> items[j].score()
            <= items[order[i]].score()
}

/// `paths` are the paths of the best candidates, best first, as many as
/// [`ranked_count`] says.
pub open spec fn ranked_paths(items: Seq<MatchItem>, limit: usize, paths: Seq<String>) -> bool {
    &&& paths.len() == ranked_count(items.len(), limit)
    &&& exists|order: Seq<int>|
        order.len() == paths.len() && is_ranking(items, order) && forall|i: int|
            0 <= i < paths.len() ==> #[trigger] paths[i]@ == items[order[i]].path@
}

impl Search {
    /// The paths of the best candidates, best score first: as many as the limit
    /// (at least one), or all the candidates if there are fewer.
    pub fn finish(&self, limit: Option<usize>) -> (paths: Vec<String>)
        requires
            limit is Some || self.heap@.len() == 0,
        ensures
            self.heap@.len() == 0 ==> paths@.len() == 0,
            limit matches Some(l) ==> ranked_paths(self.heap@, l, paths@),
    {
        let items = &self.heap;
        let n = items.len();
        let mut out: Vec<String> = Vec::new();
        if n == 0 {
            assert(ranked_paths(items@, 0, out@)) by {
                assert(is_ranking(items@, Seq::<int>::empty()));
            }
            return out;
        }
        let l = match limit {
            Some(l) => l,
            None => {
                return out;
            },
        };
        let k: usize = if l <= 1 {
            1
        } else if l < n {
            l
        } else {
            n
        };
        let mut scores: Vec<i128> = Vec::new();
        let mut remaining: Vec<usize> = Vec::new();
        let mut i: usize = 0;
        while i < n
            invariant
                n == items.len(),
                i <= n,
                scores.len() == i,
                remaining@ == Seq::new(i as nat, |j: int| j as usize),
                forall|j: int| 0 <= j < i ==> scores@[j] == #[trigger] items@[j].score(),
            decreases n - i,
        {
            scores.push(items[i].calculate_score());
            remaining.push(i);
            i = i + 1;
        }
        let ghost mut order: Seq<int> = Seq::empty();
        assert forall|j: int| 0 <= j < n implies #[trigger] remaining@.contains(j as usize) by {
            assert(remaining@[j] == j as usize);
        }
        while out.len() < k
            invariant
                n == items.len(),
                scores.len() == n,
                forall|j: int| 0 <= j < n ==> scores@[j] == #[trigger] items@[j].score(),
                1 <= k <= n,
                out.len() <= k,
                order.len() == out.len(),
                remaining.len() + out.len() == n,
                is_ranking(items@, order),
                forall|i: int| 0 <= i < out.len() ==> #[trigger] out@[i]@ == items@[order[i]].path@,
                forall|r: int| 0 <= r < remaining.len() ==> #[trigger] remaining@[r] < n,
                forall|r: int, s: int|
                    0 <= r < s < remaining.len() ==> #[trigger] remaining@[r] != #[trigger] remaining@[s],
                forall|r: int|
                    0 <= r < remaining.len() ==> !order.contains(#[trigger] remaining@[r] as int),
                forall|j: int| 0 <= j < n && !order.contains(j) ==> remaining@.contains(j as usize),
                forall|i: int, r: int|
                    0 <= i < order.len() && 0 <= r < remaining.len() ==> items@[#[trigger] remaining@[r] as int].score()
                        <= items@[#[trigger] order[i]].score(),
            decreases k - out.len(),
        {
            // the best among the remaining candidates, the first of equals
            let mut best: usize = 0;
            let mut p: usize = 1;
            while p < remaining.len()
                invariant
                    scores.len() == n,
                    remaining.len() > 0,
                    forall|r: int| 0 <= r < remaining.len() ==> #[trigger] remaining@[r] < n,
                    best < remaining.len(),
                    1 <= p <= remaining.len(),
                    forall|r: int|
                        0 <= r < p ==> scores@[#[trigger] remaining@[r] as int] <= scores@[remaining@[best as int] as int],
                decreases remaining.len() - p,
            {
                if scores[remaining[p]] > scores[remaining[best]] {
                    best = p;
                }
                p = p + 1;
            }
            let ghost before = remaining@;
            let chosen = remaining.remove(best);
            proof {
                let c = chosen as int;
                assert forall|i: int, j: int| 0 <= i < j < order.push(c).len() implies items@[
                    #[trigger] order.push(c)[i]].score() >= items@[#[trigger] order.push(c)[j]].score() by {
                    if j == order.len() {
                        assert(before[best as int] == chosen);
                    }
                }
                assert forall|i: int, j: int|
                    #![trigger items@[j].score(), order.push(c)[i]]
                    0 <= i < order.push(c).len() && 0 <= j < items.len() && !order.push(c).contains(
                        j,
                    ) implies items@[j].score() <= items@[order.push(c)[i]].score() by {
                    if order.contains(j) {
                        let idx = choose|idx: int| 0 <= idx < order.len() && order[idx] == j;
                        assert(order.push(c)[idx] == j);
                    }
                    assert(before.contains(j as usize));
                    let r = choose|r: int| 0 <= r < before.len() && before[r] == j as usize;
                    if i == order.len() {
                        assert(scores@[before[r] as int] <= scores@[before[best as int] as int]);
                    }
                }
                assert forall|i: int, j: int| 0 <= i < j < order.push(c).len() implies #[trigger] order.push(c)[i]
                    != #[trigger] order.push(c)[j] by {
                    if j == order.len() {
                        assert(!order.contains(c));
                    }
                }
                assert forall|j: int| 0 <= j < n && !order.push(c).contains(j) implies remaining@.contains(
                    j as usize,
                ) by {
                    if order.contains(j) {
                        let idx = choose|idx: int| 0 <= idx < order.len() && order[idx] == j;
                        assert(order.push(c)[idx] == j);
                    }
                    assert(before.contains(j as usize));
                    let r = choose|r: int| 0 <= r < before.len() && before[r] == j as usize;
                    assert(order.push(c)[order.len() as int] == c);
                    if r < best {
                        assert(remaining@[r] == j as usize);
                    } else {
                        assert(r != best);
                        assert(remaining@[r - 1] == j as usize);
                    }
                }
                assert forall|r: int| 0 <= r < remaining.len() implies !order.push(c).contains(
                    #[trigger] remaining@[r] as int,
                ) by {
                    if r < best {
                        assert(remaining@[r] == before[r]);
                    } else {
                        assert(remaining@[r] == before[r + 1]);
                    }
                }
                order = order.push(c);
            }
            out.push(items[chosen].path.clone());
        }
        assert(ranked_paths(items@, l, out@));
        out
    }
}

// ---------------------------------------------------------------------------
// Content search
// ---------------------------------------------------------------------------

/// At most this many matching lines of a file are reported.
pub const MAX_CONTENT_HITS: usize = 15;

/// The matching lines among the first `i` lines, each with its number counted from 1.
pub open spec fn hits_upto(ls: Seq<Seq<char>>, pattern: Seq<char>, i: int) -> Seq<(int, Seq<char>)>
    decreases i,
{
    if i <= 0 {
        Seq::empty()
    } else if contains_seq(ls[i - 1], pattern) {
        hits_upto(ls, pattern, i - 1).push((i, ls[i - 1]))
    } else {
        hits_upto(ls, pattern, i - 1)
    }
}

/// The first [`MAX_CONTENT_HITS`] of `hits`.
pub open spec fn first_hits(hits: Seq<(int, Seq<char>)>) -> Seq<(int, Seq<char>)> {
    if hits.len() <= MAX_CONTENT_HITS {
        hits
    } else {
        hits.take(MAX_CONTENT_HITS as int)
    }
}

/// The matches among fewer lines come first among the matches of more.
pub proof fn lemma_hits_prefix(ls: Seq<Seq<char>>, pattern: Seq<char>, i: int, j: int)
    requires
        0 <= i <= j,
    ensures
        hits_upto(ls, pattern, i).len() <= hits_upto(ls, pattern, j).len(),
        hits_upto(ls, pattern, j).take(hits_upto(ls, pattern, i).len() as int) == hits_upto(
            ls,
            pattern,
            i,
        ),
    decreases j - i,
{
    if i < j {
        lemma_hits_prefix(ls, pattern, i, j - 1);
        let a = hits_upto(ls, pattern, i);
        let b = hits_upto(ls, pattern, j - 1);
        if contains_seq(ls[j - 1], pattern) {
            assert(b.push((j, ls[j - 1])).take(a.len() as int) == b.take(a.len() as int));
        }
    }
}

/// Among the first `n` lines, the matches are exactly the lines containing the
/// pattern, each with its number, in order.
proof fn lemma_hits_upto_exact(ls: Seq<Seq<char>>, p: Seq<char>, n: int)
    requires
        0 <= n <= ls.len(),
    ensures
        forall|j: int|
            0 <= j < hits_upto(ls, p, n).len() ==> 1 <= #[trigger] hits_upto(ls, p, n)[j].0 <= n
                && hits_upto(ls, p, n)[j].1 == ls[hits_upto(ls, p, n)[j].0 - 1] && contains_seq(
                ls[hits_upto(ls, p, n)[j].0 - 1],
                p,
            ),
        forall|j: int, k: int|
            0 <= j < k < hits_upto(ls, p, n).len() ==> #[trigger] hits_upto(ls, p, n)[j].0
                < #[trigger] hits_upto(ls, p, n)[k].0,
        forall|i: int|
            0 <= i < n && #[trigger] contains_seq(ls[i], p) ==> exists|j: int|
                0 <= j < hits_upto(ls, p, n).len() && #[trigger] hits_upto(ls, p, n)[j].0 == i
                    + 1,
    decreases n,
{
    if n > 0 {
        lemma_hits_upto_exact(ls, p, n - 1);
        let prev = hits_upto(ls, p, n - 1);
        let cur = hits_upto(ls, p, n);
        if contains_seq(ls[n - 1], p) {
            assert(cur == prev.push((n, ls[n - 1])));
            assert forall|i: int| 0 <= i < n && #[trigger] contains_seq(ls[i], p) implies exists|
                j: int,
            | 0 <= j < cur.len() && #[trigger] cur[j].0 == i + 1 by {
                if i < n - 1 {
                    let j = choose|j: int| 0 <= j < prev.len() && #[trigger] prev[j].0 == i + 1;
                    assert(cur[j] == prev[j]);
                } else {
                    assert(cur[prev.len() as int].0 == i + 1);
                }
            }
        }
    }
}

/// What a content search reports: at most [`MAX_CONTENT_HITS`] hits, each a line
/// that contains the pattern together with its number counted from 1, in order; and
/// no line containing the pattern is passed over, up to the last hit reported (every
/// such line when fewer than the maximum were found), whatever the line begins with.
pub proof fn lemma_content_hits_complete(ls: Seq<Seq<char>>, p: Seq<char>, hits: Seq<(int, Seq<char>)>)
    requires
        hits == first_hits(hits_upto(ls, p, ls.len() as int)),
    ensures
        hits.len() <= MAX_CONTENT_HITS,
        forall|j: int|
            0 <= j < hits.len() ==> 1 <= #[trigger] hits[j].0 <= ls.len() && hits[j].1 == ls[hits[j].0
                - 1] && contains_seq(hits[j].1, p),
        forall|j: int, k: int| 0 <= j < k < hits.len() ==> #[trigger] hits[j].0 < #[trigger] hits[k].0,
        forall|i: int|
            0 <= i < ls.len() && #[trigger] contains_seq(ls[i], p) && (hits.len() < MAX_CONTENT_HITS
                || i + 1 <= hits[hits.len() - 1].0) ==> exists|j: int|
                0 <= j < hits.len() && #[trigger] hits[j].0 == i + 1,
{
    let all = hits_upto(ls, p, ls.len() as int);
    lemma_hits_upto_exact(ls, p, ls.len() as int);
    if all.len() > MAX_CONTENT_HITS {
        assert forall|i: int|
            0 <= i < ls.len() && #[trigger] contains_seq(ls[i], p) && (hits.len() < MAX_CONTENT_HITS
                || i + 1 <= hits[hits.len() - 1].0) implies exists|j: int|
            0 <= j < hits.len() && #[trigger] hits[j].0 == i + 1 by {
            let j = choose|j: int| 0 <= j < all.len() && #[trigger] all[j].0 == i + 1;
            if j >= MAX_CONTENT_HITS {
                assert(all[MAX_CONTENT_HITS - 1].0 < all[j].0);
            }
            assert(hits[j] == all[j]);
        }
    }
}

/// The lines of `contents` that contain `pattern`, the first [`MAX_CONTENT_HITS`] of
/// them, each with its line number counted from 1.
pub fn content_hits(contents: &str, pattern: &str) -> (hits: Vec<(usize, String)>)
    ensures
        hits@.map_values(|h: (usize, String)| (h.0 as int, h.1@)) == first_hits(
            hits_upto(text_lines(contents@), pattern@, text_lines(contents@).len() as int),
        ),
        hits.len() <= MAX_CONTENT_HITS,
        forall|j: int|
            0 <= j < hits.len() ==> 1 <= #[trigger] hits@[j].0 <= text_lines(contents@).len()
                && hits@[j].1@ == text_lines(contents@)[hits@[j].0 - 1] && contains_seq(
                hits@[j].1@,
                pattern@,
            ),
        forall|i: int|
            0 <= i < text_lines(contents@).len() && #[trigger] contains_seq(
                text_lines(contents@)[i],
                pattern@,
            ) && hits.len() < MAX_CONTENT_HITS ==> exists|j: int|
                0 <= j < hits.len() && #[trigger] hits@[j].0 == i + 1,
{
    let ls = lines(contents);
    let ghost lv = text_lines(contents@);
    let pat = chars_of(pattern);
    let mut hits: Vec<(usize, String)> = Vec::new();
    let mut i: usize = 0;
    assert(ls@.len() == lv.len() && forall|j: int| 0 <= j < ls@.len() ==> #[trigger] ls@[j]@ == lv[j]) by {
        assert forall|j: int| 0 <= j < ls@.len() implies #[trigger] ls@[j]@ == lv[j] by {
            assert(ls@.map_values(|l: &str| l@)[j] == ls@[j]@);
        }
    }
    while i < ls.len()
        invariant_except_break
            hits@.map_values(|h: (usize, String)| (h.0 as int, h.1@)) == hits_upto(lv, pat@, i as int),
            hits@.len() <= MAX_CONTENT_HITS,
        invariant
            i <= ls.len(),
            ls@.len() == lv.len(),
            forall|j: int| 0 <= j < ls@.len() ==> #[trigger] ls@[j]@ == lv[j],
            pat@ == pattern@,
        ensures
            hits@.map_values(|h: (usize, String)| (h.0 as int, h.1@)) == first_hits(
                hits_upto(lv, pat@, lv.len() as int),
            ),
        decreases ls.len() - i,
    {
        let line = chars_of(ls[i]);
        if contains_chars(&line, &pat) {
            if hits.len() >= MAX_CONTENT_HITS {
                proof {
                    lemma_hits_prefix(lv, pat@, i as int, lv.len() as int);
                    lemma_hits_prefix(lv, pat@, i + 1, lv.len() as int);
                    assert(hits_upto(lv, pat@, i + 1).len() > MAX_CONTENT_HITS);
                    let all = hits_upto(lv, pat@, lv.len() as int);
                    assert(all.take(MAX_CONTENT_HITS as int) == hits_upto(lv, pat@, i as int));
                }
                break;
            }
            let ghost before = hits@;
            hits.push((i + 1, ls[i].to_owned()));
            assert(hits@.map_values(|h: (usize, String)| (h.0 as int, h.1@)) == before.map_values(
                |h: (usize, String)| (h.0 as int, h.1@),
            ).push(((i + 1) as int, lv[i as int])));
        }
        i = i + 1;
    }
    proof {
        let hv = hits@.map_values(|h: (usize, String)| (h.0 as int, h.1@));
        lemma_content_hits_complete(lv, pattern@, hv);
        assert forall|j: int| 0 <= j < hits.len() implies 1 <= #[trigger] hits@[j].0 <= lv.len()
            && hits@[j].1@ == lv[hits@[j].0 - 1] && contains_seq(hits@[j].1@, pattern@) by {
            assert(hv[j] == (hits@[j].0 as int, hits@[j].1@));
            assert(1 <= hv[j].0 <= lv.len());
        }
        assert forall|i: int|
            0 <= i < lv.len() && #[trigger] contains_seq(lv[i], pattern@) && hits.len()
                < MAX_CONTENT_HITS implies exists|j: int|
            0 <= j < hits.len() && #[trigger] hits@[j].0 == i + 1 by {
            let j = choose|j: int| 0 <= j < hv.len() && #[trigger] hv[j].0 == i + 1;
            assert(hv[j] == (hits@[j].0 as int, hits@[j].1@));
        }
    }
    hits
}

} // verus!
