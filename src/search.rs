//! The search engine: per-entry filter, depth-first walk, result cap and
//! per-level ordering, over a directory tree read beforehand.
use vstd::prelude::*;
use vstd::string::StringExecFns;
use crate::config::{params_of_args, Config, DestructureArgs, Params};
use crate::order::{ordered, sort_results};
use crate::pattern::{full_pattern, regex_compiles, regex_finds, NamePattern};
use crate::text::{contains_text, extension, extension_of, has_substring, lower_of, lowercase};

verus! {

/// One entry of a directory listing.
pub struct Entry {
    /// The entry's file name (lossily decoded).
    pub name: String,
    /// The full path reported when the entry is kept.
    pub path: String,
    /// For a directory that is to be descended into, its own listing.
    pub listing: Option<Listing>,
}

/// The entries of one directory, in the order the file system gave them.
pub struct Listing {
    pub entries: Vec<Entry>,
    /// `Some(message)` when reading stopped on an error after `entries`
    /// (with no entries: the directory could not be opened).
    pub failure: Option<String>,
}

/// Why a search failed, as values.
pub enum Fault {
    Unreadable(Seq<char>),
    InvalidPattern,
}

/// Why a search failed.
#[derive(Debug)]
pub enum SearchError {
    /// A directory could not be read; the message of the underlying error.
    Unreadable(String),
    /// The keyword is not a valid regular expression; the regex crate's message.
    InvalidPattern(String),
}

impl SearchError {
    pub open spec fn fault(&self) -> Fault {
        match self {
            SearchError::Unreadable(m) => Fault::Unreadable(m@),
            SearchError::InvalidPattern(_) => Fault::InvalidPattern,
        }
    }

    /// A one-line description of the failure.
    pub fn message(&self) -> (r: String)
        ensures
            self matches SearchError::Unreadable(m) ==> r@ == "cannot read directory: "@ + m@,
            self matches SearchError::InvalidPattern(m) ==> r@ == "invalid pattern: "@ + m@,
    {
        match self {
            SearchError::Unreadable(m) => {
                let mut t = String::from_str("cannot read directory: ");
                t.append(m.as_str());
                t
            },
            SearchError::InvalidPattern(m) => {
                let mut t = String::from_str("invalid pattern: ");
                t.append(m.as_str());
                t
            },
        }
    }
}

/// An executable result stands for the model result `m`.
pub open spec fn agrees(r: Result<Vec<String>, SearchError>, m: Result<Seq<Seq<char>>, Fault>) -> bool {
    match m {
        Ok(s) => r is Ok && r->Ok_0.deep_view() == s,
        Err(f) => r is Err && r->Err_0.fault() == f,
    }
}

/// The extension filter lets `name` through.
pub open spec fn extension_allowed(cfg: Params, name: Seq<char>) -> bool {
    cfg.extensions.len() == 0 || cfg.extensions.contains(extension_of(name))
}

/// The keyword matches `name`: always when empty; as a substring in fuzzy
/// mode (on lowercased texts unless case matters); else as a regular
/// expression over the whole name.
pub open spec fn keyword_matches(cfg: Params, name: Seq<char>) -> bool {
    let kw = cfg.keyword;
    if kw.len() == 0 {
        true
    } else if cfg.fuzzy {
        if cfg.case_sensitive {
            has_substring(name, kw)
        } else {
            has_substring(lower_of(name), lower_of(kw))
        }
    } else {
        regex_finds(full_pattern(kw, cfg.case_sensitive), name)
    }
}

/// An entry named `name` is kept.
pub open spec fn name_passes(cfg: Params, name: Seq<char>) -> bool {
    extension_allowed(cfg, name) && keyword_matches(cfg, name)
}

/// The keyword is a regular expression that does not compile.
pub open spec fn pattern_invalid(cfg: Params) -> bool {
    !cfg.fuzzy && cfg.keyword.len() > 0 && !regex_compiles(
        full_pattern(cfg.keyword, cfg.case_sensitive),
    )
}

/// Entries stop being taken from a directory once, after at least one of
/// them, the results held reach the cap.
pub open spec fn capped(cfg: Params, taken: int, held: Seq<Seq<char>>) -> bool {
    taken >= 1 && held.len() >= cfg.max_results
}

/// The results held after the first `k` entries of `l` were offered: a
/// directory entry contributes its own (ordered) results first when `deep`,
/// then the entry itself if its name passes.
pub open spec fn collect(cfg: Params, deep: bool, l: Listing, k: int) -> Result<
    Seq<Seq<char>>,
    Fault,
>
    decreases l, k,
{
    if k <= 0 || k > l.entries@.len() {
        Ok(Seq::empty())
    } else {
        match collect(cfg, deep, l, k - 1) {
            Err(f) => Err(f),
            Ok(held) => if capped(cfg, k - 1, held) {
                Ok(held)
            } else {
                let e = l.entries@[k - 1];
                let below = if deep && e.listing is Some {
                    let sub = e.listing->Some_0;
                    finish(cfg, sub, collect(cfg, deep, sub, sub.entries@.len() as int))
                } else {
                    Ok(Seq::empty())
                };
                match below {
                    Err(f) => Err(f),
                    Ok(b) => Ok(
                        if name_passes(cfg, e.name@) {
                            held + b + seq![e.path@]
                        } else {
                            held + b
                        },
                    ),
                }
            },
        }
    }
}

/// Completes a directory: a read failure that was reached fails the search,
/// else the results are ordered.
pub open spec fn finish(cfg: Params, l: Listing, r: Result<Seq<Seq<char>>, Fault>) -> Result<
    Seq<Seq<char>>,
    Fault,
> {
    match r {
        Err(f) => Err(f),
        Ok(held) => if l.failure is Some && !capped(cfg, l.entries@.len() as int, held) {
            Err(Fault::Unreadable(l.failure->Some_0@))
        } else {
            Ok(ordered(held, cfg.sort))
        },
    }
}

/// The outcome of searching listing `l`, descending into subdirectories when `deep`.
pub open spec fn listing_result(cfg: Params, deep: bool, l: Listing) -> Result<
    Seq<Seq<char>>,
    Fault,
> {
    finish(cfg, l, collect(cfg, deep, l, l.entries@.len() as int))
}

/// The outcome of a whole search.
pub open spec fn search_result(cfg: Params, root: Listing) -> Result<Seq<Seq<char>>, Fault> {
    if pattern_invalid(cfg) {
        Err(Fault::InvalidPattern)
    } else {
        listing_result(cfg, cfg.recursive, root)
    }
}

/// What the filter precomputes from a `Config`: the lowercased keyword and,
/// in regular-expression mode, the compiled pattern.
pub struct Matcher {
    lowered_keyword: String,
    pattern: Option<NamePattern>,
}

impl Matcher {
    /// This matcher was prepared from `cfg`.
    pub closed spec fn ready_for(&self, cfg: Params) -> bool {
        &&& self.lowered_keyword@ == lower_of(cfg.keyword)
        &&& (!cfg.fuzzy && cfg.keyword.len() > 0) ==> (self.pattern is Some
            && self.pattern->Some_0@ == full_pattern(cfg.keyword, cfg.case_sensitive))
    }

    /// Prepares the filter; fails when the keyword is needed as a regular
    /// expression and does not compile.
    pub fn new(cfg: &Config) -> (r: Result<Matcher, SearchError>)
        ensures
            r is Ok <==> !pattern_invalid(cfg@),
            r matches Ok(m) ==> m.ready_for(cfg@),
            r matches Err(e) ==> e.fault() == Fault::InvalidPattern,
    {
        let lowered_keyword = lowercase(cfg.keyword.as_str());
        if !cfg.fuzzy && !cfg.keyword.as_str().is_empty() {
            match NamePattern::compile(cfg.keyword.as_str(), cfg.case_sensitive) {
                Ok(p) => Ok(Matcher { lowered_keyword, pattern: Some(p) }),
                Err(m) => Err(SearchError::InvalidPattern(m)),
            }
        } else {
            Ok(Matcher { lowered_keyword, pattern: None })
        }
    }
}

/// Whether `name`'s extension is on the allow-list (always, when the list is empty).
fn extension_ok(name: &str, cfg: &Config) -> (r: bool)
    ensures
        r == extension_allowed(cfg@, name@),
{
    if cfg.extensions.len() == 0 {
        return true;
    }
    let ext = extension(name);
    let mut j: usize = 0;
    while j < cfg.extensions.len()
        invariant
            j <= cfg.extensions@.len(),
            ext@ == extension_of(name@),
            forall|q: int| 0 <= q < j ==> cfg.extensions.deep_view()[q] != ext@,
        decreases cfg.extensions@.len() - j,
    {
        if ext == cfg.extensions[j] {
            assert(cfg.extensions.deep_view()[j as int] == ext@);
            return true;
        }
        j = j + 1;
    }
    false
}

/// Decides whether an entry named `name` is kept: the extension filter
/// first, then the keyword (see `name_passes`).
pub fn filter_file(name: &str, cfg: &Config, m: &Matcher) -> (r: bool)
    requires
        m.ready_for(cfg@),
    ensures
        r == name_passes(cfg@, name@),
{
    proof {
        reveal(Matcher::ready_for);
    }
    if !extension_ok(name, cfg) {
        return false;
    }
    if cfg.keyword.as_str().is_empty() {
        return true;
    }
    if cfg.fuzzy {
        if cfg.case_sensitive {
            contains_text(name, cfg.keyword.as_str())
        } else {
            let lowered = lowercase(name);
            contains_text(lowered.as_str(), m.lowered_keyword.as_str())
        }
    } else {
        match &m.pattern {
            Some(p) => p.matches(name),
            None => false,
        }
    }
}

/// Once the cap is reached, later entries change nothing.
proof fn lemma_capped_stays(cfg: Params, deep: bool, l: Listing, i: int, j: int)
    requires
        1 <= i <= j <= l.entries@.len(),
        collect(cfg, deep, l, i) matches Ok(h) && h.len() >= cfg.max_results,
    ensures
        collect(cfg, deep, l, j) == collect(cfg, deep, l, i),
    decreases j - i,
{
    if j > i {
        lemma_capped_stays(cfg, deep, l, i, j - 1);
    }
}

/// Once a fault is met, it is the outcome.
proof fn lemma_fault_stays(cfg: Params, deep: bool, l: Listing, i: int, j: int)
    requires
        0 <= i <= j <= l.entries@.len(),
        collect(cfg, deep, l, i) is Err,
    ensures
        collect(cfg, deep, l, j) == collect(cfg, deep, l, i),
    decreases j - i,
{
    if j > i {
        lemma_fault_stays(cfg, deep, l, i, j - 1);
    }
}

/// Searches a listing and, depth first, every subdirectory listing in it.
/// A subdirectory's results come before the subdirectory's own entry; each
/// level is ordered on its own; the cap is checked after each entry.
pub fn recursive_search(cfg: &Config, m: &Matcher, l: &Listing) -> (r: Result<
    Vec<String>,
    SearchError,
>)
    requires
        m.ready_for(cfg@),
    ensures
        agrees(r, listing_result(cfg@, true, *l)),
    decreases l,
{
    let mut held: Vec<String> = Vec::new();
    let n = l.entries.len();
    let mut i: usize = 0;
    let mut stop = false;
    assert(held.deep_view() =~= Seq::<Seq<char>>::empty());
    while i < n && !stop
        invariant
            i <= n,
            n == l.entries@.len(),
            m.ready_for(cfg@),
            collect(cfg@, true, *l, i as int) == Ok::<Seq<Seq<char>>, Fault>(held.deep_view()),
            stop == capped(cfg@, i as int, held.deep_view()),
        decreases n - i,
    {
        let e = &l.entries[i];
        let ghost before = held.deep_view();
        let ghost below = Seq::<Seq<char>>::empty();
        if let Some(sub) = &e.listing {
            match recursive_search(cfg, m, sub) {
                Ok(found) => {
                    let mut found = found;
                    proof {
                        below = found.deep_view();
                    }
                    held.append(&mut found);
                    assert(held.deep_view() =~= before + below);
                },
                Err(err) => {
                    proof {
                        lemma_fault_stays(cfg@, true, *l, i + 1, n as int);
                    }
                    return Err(err);
                },
            }
        }
        if filter_file(e.name.as_str(), cfg, m) {
            let ghost mid = held.deep_view();
            held.push(e.path.clone());
            assert(held.deep_view() =~= mid.push(e.path@));
            assert(held.deep_view() =~= before + below + seq![e.path@]);
        } else {
            assert(held.deep_view() =~= before + below);
        }
        i = i + 1;
        stop = held.len() >= cfg.max_results;
    }
    if stop {
        proof {
            lemma_capped_stays(cfg@, true, *l, i as int, n as int);
        }
    }
    if !stop {
        if let Some(msg) = &l.failure {
            return Err(SearchError::Unreadable(msg.clone()));
        }
    }
    sort_results(&mut held, cfg.sort);
    Ok(held)
}

/// Searches the entries of one listing only, without descending.
pub fn no_recursive_search(cfg: &Config, m: &Matcher, l: &Listing) -> (r: Result<
    Vec<String>,
    SearchError,
>)
    requires
        m.ready_for(cfg@),
    ensures
        agrees(r, listing_result(cfg@, false, *l)),
{
    let mut held: Vec<String> = Vec::new();
    let n = l.entries.len();
    let mut i: usize = 0;
    let mut stop = false;
    assert(held.deep_view() =~= Seq::<Seq<char>>::empty());
    while i < n && !stop
        invariant
            i <= n,
            n == l.entries@.len(),
            m.ready_for(cfg@),
            collect(cfg@, false, *l, i as int) == Ok::<Seq<Seq<char>>, Fault>(held.deep_view()),
            stop == capped(cfg@, i as int, held.deep_view()),
        decreases n - i,
    {
        let e = &l.entries[i];
        let ghost before = held.deep_view();
        if filter_file(e.name.as_str(), cfg, m) {
            held.push(e.path.clone());
            assert(held.deep_view() =~= before + Seq::<Seq<char>>::empty() + seq![e.path@]);
        } else {
            assert(held.deep_view() =~= before + Seq::<Seq<char>>::empty());
        }
        i = i + 1;
        stop = held.len() >= cfg.max_results;
    }
    if stop {
        proof {
            lemma_capped_stays(cfg@, false, *l, i as int, n as int);
        }
    }
    if !stop {
        if let Some(msg) = &l.failure {
            return Err(SearchError::Unreadable(msg.clone()));
        }
    }
    sort_results(&mut held, cfg.sort);
    Ok(held)
}

/// Runs a search as `args` describes over `root`, the listing of `args.dir`:
/// descending into subdirectories when `args.recursive`.
pub fn walker(args: DestructureArgs, root: &Listing) -> (r: Result<Vec<String>, SearchError>)
    ensures
        agrees(r, search_result(params_of_args(args), *root)),
{
    let cfg = Config::from_args(&args);
    let m = match Matcher::new(&cfg) {
        Ok(m) => m,
        Err(e) => return Err(e),
    };
    if cfg.recursive {
        recursive_search(&cfg, &m, root)
    } else {
        no_recursive_search(&cfg, &m, root)
    }
}

} // verus!
