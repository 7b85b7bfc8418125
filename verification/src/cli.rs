//! Command-line argument shapes and their interpretation.
//!
//! Reading the actual process arguments is I/O and happens outside the
//! crate; this module turns the raw argument values into the traversal
//! configuration: it resolves the size alias and splits the comma-separated
//! extension list.

use crate::file_sizes::GIGABYTE;
use crate::file_sizes::KILOBYTE;
use crate::file_sizes::MEGABYTE;
use crate::text::str_eq;
use vstd::prelude::*;
use vstd::string::StrSliceExecFns;

verus! {

/// The raw command-line arguments, as given by the user.
pub struct MainCommandArgs {
    /// The directory to traverse
    pub directory: String,
    /// Comma-separated list of file extensions to consider (empty: no filter)
    pub file_extensions: String,
    /// Minimum file size to consider, as a named alias
    pub min_file_size: String,
    /// Number of top files to return based on size
    pub n_top: usize,
}

/// The interpreted configuration that drives a run.
pub struct CLIArgs {
    pub directory: String,
    pub file_extensions: Vec<String>,
    pub min_file_size: usize,
    pub n_top: usize,
}

/// The byte size that a named alias stands for, if the alias is known.
pub open spec fn spec_size_by_alias(s: Seq<char>) -> Option<usize> {
    if s == "blank"@ {
        Some(0)
    } else if s == "config"@ {
        Some(10)
    } else if s == "code"@ {
        Some((100 * KILOBYTE) as usize)
    } else if s == "excel"@ {
        Some(MEGABYTE)
    } else if s == "document"@ {
        Some((5 * MEGABYTE) as usize)
    } else if s == "image"@ {
        Some((10 * MEGABYTE) as usize)
    } else if s == "gif"@ {
        Some((20 * MEGABYTE) as usize)
    } else if s == "audio"@ {
        Some((50 * MEGABYTE) as usize)
    } else if s == "video"@ {
        Some((500 * MEGABYTE) as usize)
    } else if s == "large"@ {
        Some(GIGABYTE)
    } else {
        None
    }
}

/// Looks a size alias up.
pub fn get_size_by_alias(alias: &str) -> (r: Option<usize>)
    ensures
        r == spec_size_by_alias(alias@),
{
    if str_eq(alias, "blank") {
        Some(0)
    } else if str_eq(alias, "config") {
        Some(10)
    } else if str_eq(alias, "code") {
        Some(100 * KILOBYTE)
    } else if str_eq(alias, "excel") {
        Some(MEGABYTE)
    } else if str_eq(alias, "document") {
        Some(5 * MEGABYTE)
    } else if str_eq(alias, "image") {
        Some(10 * MEGABYTE)
    } else if str_eq(alias, "gif") {
        Some(20 * MEGABYTE)
    } else if str_eq(alias, "audio") {
        Some(50 * MEGABYTE)
    } else if str_eq(alias, "video") {
        Some(500 * MEGABYTE)
    } else if str_eq(alias, "large") {
        Some(GIGABYTE)
    } else {
        None
    }
}

/// `s` split at every occurrence of `c`: always at least one segment, with
/// an empty segment between adjacent separators and at each end that a
/// separator touches.
pub open spec fn spec_split(s: Seq<char>, c: char) -> Seq<Seq<char>>
    decreases s.len(),
{
    if s.len() == 0 {
        seq![Seq::<char>::empty()]
    } else {
        let rest = spec_split(s.drop_last(), c);
        if s.last() == c {
            rest.push(Seq::<char>::empty())
        } else {
            rest.update(rest.len() - 1, rest.last().push(s.last()))
        }
    }
}

/// Splits `s` at every comma.
pub fn split_on_commas(s: &str) -> (r: Vec<String>)
    ensures
        r@.map_values(|t: String| t@) == spec_split(s@, ','),
{
    let len = s.unicode_len();
    let mut parts: Vec<String> = Vec::new();
    let mut seg_start: usize = 0;
    let mut i: usize = 0;
    proof {
        assert(s@.take(0) =~= Seq::<char>::empty());
        assert(parts@.map_values(|t: String| t@).push(s@.subrange(0, 0)) =~= spec_split(
            s@.take(0),
            ',',
        ));
    }
    while i < len
        invariant
            seg_start <= i <= len,
            len == s@.len(),
            parts@.map_values(|t: String| t@).push(s@.subrange(seg_start as int, i as int))
                =~= spec_split(s@.take(i as int), ','),
        decreases len - i,
    {
        let ghost prev = parts@.map_values(|t: String| t@);
        let ghost prev_seg = s@.subrange(seg_start as int, i as int);
        proof {
            assert(s@.take(i as int + 1).drop_last() =~= s@.take(i as int));
            assert(s@.take(i as int + 1).last() == s@[i as int]);
        }
        if s.get_char(i) == ',' {
            let seg = s.substring_char(seg_start, i).to_owned();
            parts.push(seg);
            seg_start = i + 1;
            proof {
                assert(parts@.map_values(|t: String| t@) =~= prev.push(prev_seg));
                assert(spec_split(s@.take(i as int + 1), ',') == spec_split(
                    s@.take(i as int),
                    ',',
                ).push(Seq::<char>::empty()));
                assert(parts@.map_values(|t: String| t@).push(
                    s@.subrange(seg_start as int, i as int + 1),
                ) =~~= spec_split(s@.take(i as int + 1), ','));
            }
        } else {
            proof {
                let whole = prev.push(prev_seg);
                assert(whole.last() == prev_seg);
                assert(prev_seg.push(s@[i as int]) =~= s@.subrange(
                    seg_start as int,
                    i as int + 1,
                ));
                assert(spec_split(s@.take(i as int + 1), ',') == whole.update(
                    whole.len() - 1,
                    prev_seg.push(s@[i as int]),
                ));
                assert(whole.update(whole.len() - 1, prev_seg.push(s@[i as int])) =~~= prev.push(
                    s@.subrange(seg_start as int, i as int + 1),
                ));
                assert(parts@.map_values(|t: String| t@).push(
                    s@.subrange(seg_start as int, i as int + 1),
                ) =~~= spec_split(s@.take(i as int + 1), ','));
            }
        }
        i += 1;
    }
    let last_seg = s.substring_char(seg_start, len).to_owned();
    parts.push(last_seg);
    proof {
        assert(s@.take(len as int) =~= s@);
        assert(parts@.map_values(|t: String| t@) =~~= spec_split(s@, ','));
    }
    parts
}

/// The byte threshold that the alias resolves to; an unknown alias falls
/// back to 100 kilobytes.
pub open spec fn spec_min_size(s: Seq<char>) -> usize {
    match spec_size_by_alias(s) {
        Some(v) => v,
        None => (100 * KILOBYTE) as usize,
    }
}

/// Interprets the raw arguments: splits the extension list at commas (an
/// empty list means no filter) and resolves the size alias.
pub fn parse_args(cli_args: MainCommandArgs) -> (r: CLIArgs)
    ensures
        r.directory == cli_args.directory,
        r.n_top == cli_args.n_top,
        r.min_file_size == spec_min_size(cli_args.min_file_size@),
        cli_args.file_extensions@.len() == 0 ==> r.file_extensions@.len() == 0,
        cli_args.file_extensions@.len() != 0 ==> r.file_extensions@.map_values(|t: String| t@)
            == spec_split(cli_args.file_extensions@, ','),
{
    let file_extensions: Vec<String> = if cli_args.file_extensions.as_str().is_empty() {
        Vec::new()
    } else {
        split_on_commas(cli_args.file_extensions.as_str())
    };

    let min_file_size = match get_size_by_alias(cli_args.min_file_size.as_str()) {
        Some(v) => v,
        None => 100 * KILOBYTE,
    };

    CLIArgs {
        directory: cli_args.directory,
        file_extensions,
        min_file_size,
        n_top: cli_args.n_top,
    }
}

} // verus!
