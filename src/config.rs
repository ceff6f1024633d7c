//! Search parameters: the raw command-line values and the validated form.
use vstd::prelude::*;
use vstd::string::StringExecFns;
use crate::order::SortOrder;
use crate::text::{lower_of, lowercase, split_commas, split_on_commas};

verus! {

/// The search parameters as the command line gives them, with defaults filled in.
pub struct DestructureArgs {
    pub dir: String,
    pub keyword: String,
    pub recursive: bool,
    pub fuzzy: bool,
    pub case_sensitive: bool,
    /// Comma-separated extension allow-list; empty means no restriction.
    pub type_file: String,
    /// Result cap; `usize::MAX` means no limit.
    pub number: usize,
    /// `asc` or `desc` in any case; anything else keeps visiting order.
    pub sort: String,
    pub verbose: bool,
}

/// A required parameter is missing.
#[derive(Clone, Copy, Debug, PartialEq, Eq, Structural)]
pub enum UsageError {
    MissingKeyword,
}

impl UsageError {
    /// What to tell the user.
    pub fn message(&self) -> (r: String)
        ensures
            r@ == "no keyword given: pass the name to look for, or see --help"@,
    {
        String::from_str("no keyword given: pass the name to look for, or see --help")
    }
}

/// The sort mode written `text` (already lowercased) stands for.
pub open spec fn sort_of_text(text: Seq<char>) -> SortOrder {
    if text == "asc"@ {
        SortOrder::Ascending
    } else if text == "desc"@ {
        SortOrder::Descending
    } else {
        SortOrder::Unordered
    }
}

/// Reads a sort mode, ignoring case.
pub fn parse_sort(text: &str) -> (r: SortOrder)
    ensures
        r == sort_of_text(lower_of(text@)),
{
    let lowered = lowercase(text);
    if lowered == String::from_str("asc") {
        SortOrder::Ascending
    } else if lowered == String::from_str("desc") {
        SortOrder::Descending
    } else {
        SortOrder::Unordered
    }
}

/// The extension allow-list written as `text`; empty when `text` is empty.
pub open spec fn extensions_of_text(text: Seq<char>) -> Seq<Seq<char>> {
    if text.len() == 0 {
        Seq::empty()
    } else {
        split_commas(text)
    }
}

impl DestructureArgs {
    /// Fills in the defaults of the optional parameters; the keyword is required.
    pub fn from_options(
        dir: String,
        keyword: Option<String>,
        recursive: bool,
        fuzzy: bool,
        case_sensitive: bool,
        type_file: Option<String>,
        number: Option<usize>,
        sort: Option<String>,
        verbose: bool,
    ) -> (r: Result<DestructureArgs, UsageError>)
        ensures
            keyword is None <==> r == Err::<DestructureArgs, UsageError>(UsageError::MissingKeyword),
            r matches Ok(a) ==> {
                &&& a.dir == dir
                &&& a.keyword == keyword->Some_0
                &&& a.recursive == recursive
                &&& a.fuzzy == fuzzy
                &&& a.case_sensitive == case_sensitive
                &&& a.type_file@ == (match type_file {
                    Some(t) => t@,
                    None => Seq::empty(),
                })
                &&& a.number == (match number {
                    Some(n) => n,
                    None => usize::MAX,
                })
                &&& a.sort@ == (match sort {
                    Some(s) => s@,
                    None => "name"@,
                })
                &&& a.verbose == verbose
            },
    {
        let keyword = match keyword {
            Some(k) => k,
            None => return Err(UsageError::MissingKeyword),
        };
        let type_file = match type_file {
            Some(t) => t,
            None => String::new(),
        };
        let number = match number {
            Some(n) => n,
            None => usize::MAX,
        };
        let sort = match sort {
            Some(s) => s,
            None => String::from_str("name"),
        };
        Ok(DestructureArgs {
            dir,
            keyword,
            recursive,
            fuzzy,
            case_sensitive,
            type_file,
            number,
            sort,
            verbose,
        })
    }
}

/// The parameters of one search, as values.
pub struct Params {
    pub keyword: Seq<char>,
    pub recursive: bool,
    pub fuzzy: bool,
    pub case_sensitive: bool,
    pub extensions: Seq<Seq<char>>,
    pub max_results: usize,
    pub sort: SortOrder,
}

/// The parameters that the command-line values `args` stand for.
pub open spec fn params_of_args(args: DestructureArgs) -> Params {
    Params {
        keyword: args.keyword@,
        recursive: args.recursive,
        fuzzy: args.fuzzy,
        case_sensitive: args.case_sensitive,
        extensions: extensions_of_text(args.type_file@),
        max_results: args.number,
        sort: sort_of_text(lower_of(args.sort@)),
    }
}

/// The validated parameters of one search.
pub struct Config {
    /// The name pattern; empty matches every name.
    pub keyword: String,
    pub recursive: bool,
    /// Substring match instead of a whole-name regular expression.
    pub fuzzy: bool,
    pub case_sensitive: bool,
    /// Allowed extensions; empty means no restriction.
    pub extensions: Vec<String>,
    /// Stop taking entries of a directory once this many results are held.
    pub max_results: usize,
    pub sort: SortOrder,
}

impl View for Config {
    type V = Params;

    open spec fn view(&self) -> Params {
        Params {
            keyword: self.keyword@,
            recursive: self.recursive,
            fuzzy: self.fuzzy,
            case_sensitive: self.case_sensitive,
            extensions: self.extensions.deep_view(),
            max_results: self.max_results,
            sort: self.sort,
        }
    }
}

impl Config {
    /// Turns the command-line values into search parameters: the extension
    /// list is split at commas and the sort mode read without regard to case.
    pub fn from_args(args: &DestructureArgs) -> (r: Config)
        ensures
            r@ == params_of_args(*args),
    {
        let extensions = if args.type_file.as_str().is_empty() {
            let v: Vec<String> = Vec::new();
            assert(v.deep_view() =~= Seq::<Seq<char>>::empty());
            v
        } else {
            split_on_commas(args.type_file.as_str())
        };
        Config {
            keyword: args.keyword.clone(),
            recursive: args.recursive,
            fuzzy: args.fuzzy,
            case_sensitive: args.case_sensitive,
            extensions,
            max_results: args.number,
            sort: parse_sort(args.sort.as_str()),
        }
    }
}

} // verus!
