//! The analyzer's options, as the command line hands them over.

use vstd::prelude::*;

verus! {

use crate::entry::SortOrder;

/// The sort order a `sort` option string names; anything unrecognized
/// means no sorting.
pub open spec fn spec_sort_choice(s: Seq<char>) -> SortOrder {
    if s == "size"@ {
        SortOrder::SizeDescending
    } else if s == "size-asc"@ {
        SortOrder::SizeAscending
    } else if s == "name"@ {
        SortOrder::Name
    } else {
        SortOrder::Unsorted
    }
}

/// Everything the analyzer can be asked to do: which paths to analyze and
/// how to walk, sort and present them.
#[derive(Debug)]
pub struct CliArgs {
    pub paths: Vec<String>,
    pub human_readable: bool,
    pub summarize: bool,
    pub max_depth: Option<usize>,
    pub all: bool,
    pub sort: String,
    pub threads: Option<usize>,
    pub no_color: bool,
}

impl CliArgs {
    /// The sort order the `sort` option names; anything unrecognized means
    /// no sorting.
    pub fn sort_order(&self) -> (r: SortOrder)
        ensures
            r == spec_sort_choice(self.sort@),
    {
        proof {
            reveal_strlit("none");
            reveal_strlit("size");
            reveal_strlit("size-asc");
            reveal_strlit("name");
            assert("none"@[0] == 'n');
            assert("none"@[1] == 'o');
            assert("size"@[0] == 's');
            assert("size"@[1] == 'i');
            assert("name"@[0] == 'n');
            assert("name"@[1] == 'a');
            assert("none"@.len() == 4);
            assert("size"@.len() == 4);
            assert("name"@.len() == 4);
            assert("size-asc"@.len() == 8);
        }
        match SortOrder::parse(self.sort.as_str()) {
            Some(order) => order,
            None => SortOrder::Unsorted,
        }
    }
}

} // verus!
