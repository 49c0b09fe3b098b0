//! Core logic of a small suite of desktop utilities: a disk-usage analyzer,
//! a dictation state machine, and a text pager's buffer and status line.

pub mod cli;
pub mod dictation;
pub mod entry;
pub mod error;
pub mod formatter;
pub mod output;
pub mod pager;
pub mod traversal;

use vstd::prelude::*;

verus! {

use vstd::string::StringExecFns;
use crate::cli::{CliArgs, spec_sort_choice};
use crate::error::DuskError;
use crate::traversal::traverse_parallel;
use crate::output::{render_tree, spec_render_tree, spec_join_lines};
use crate::entry::{DiskEntry, spec_total, spec_sorted_by, spec_collapsed, lemma_reordered_collapsed};

/// Analyzes every path the options name — walking it with parallel
/// metadata collection, collapsing and sorting as asked — and joins the
/// renderings with newlines. The first path that fails ends the whole run
/// with that path's error and no partial output. On success there is one
/// rendering per requested path: each of a tree with its totals in range,
/// root depth zero, sorted by the chosen order and collapsed to any
/// requested depth; without colour, the output is exactly those
/// renderings joined with newlines.
#[verifier::rlimit(60)]
#[verifier::spinoff_prover]
#[verifier::loop_isolation(false)]
pub fn run_to_string(args: &CliArgs) -> (r: Result<String, DuskError>)
    ensures
        args.paths@.len() == 0 ==> (r matches Ok(s) && s@.len() == 0),
        r matches Err(e) ==> e is PathNotFound || e is TraversalError,
        r matches Ok(s) ==> exists|ts: Seq<DiskEntry>|
            #![trigger ts.len()]
            ts.len() == args.paths@.len() && (forall|i: int|
                0 <= i < ts.len() ==> spec_total(#[trigger] ts[i]) <= u64::MAX && ts[i].depth == 0
                    && spec_sorted_by(ts[i], spec_sort_choice(args.sort@)) && (
                args.max_depth matches Some(d) ==> spec_collapsed(ts[i], 0, d as int))) && (
            args.no_color ==> s@ == spec_join_lines(
                Seq::new(
                    ts.len(),
                    |i: int|
                        spec_render_tree(ts[i], args.human_readable, args.all, args.summarize),
                ),
            )),
{
    let use_color = !args.no_color;
    let sort_order = args.sort_order();
    let mut results: Vec<String> = Vec::new();
    let ghost mut ts: Seq<DiskEntry> = Seq::empty();
    let mut i: usize = 0;
    while i < args.paths.len()
        invariant
            0 <= i <= args.paths@.len(),
            results@.len() == i,
            ts.len() == i,
            forall|j: int|
                0 <= j < i as int ==> spec_total(#[trigger] ts[j]) <= u64::MAX && ts[j].depth == 0
                    && spec_sorted_by(ts[j], spec_sort_choice(args.sort@)) && (
                args.max_depth matches Some(d) ==> spec_collapsed(ts[j], 0, d as int)),
            args.no_color ==> forall|j: int|
                0 <= j < i as int ==> (#[trigger] results@[j])@ == spec_render_tree(
                    ts[j],
                    args.human_readable,
                    args.all,
                    args.summarize,
                ),
        decreases args.paths@.len() - i,
    {
        let path = &args.paths[i];
        let mut tree = match traverse_parallel(path.as_str(), args.max_depth, args.threads) {
            Ok(tree) => tree,
            Err(e) => {
                return Err(e);
            },
        };
        let ghost walked = tree;
        tree.sort_entries(&sort_order);
        proof {
            if args.max_depth is Some {
                lemma_reordered_collapsed(
                    tree,
                    walked,
                    sort_order,
                    0,
                    args.max_depth->0 as int,
                );
            }
        }
        let output = render_tree(&tree, args.human_readable, args.all, args.summarize, use_color);
        results.push(output);
        proof {
            ts = ts.push(tree);
        }
        i = i + 1;
    }
    let mut out = String::new();
    let mut j: usize = 0;
    proof {
        if args.no_color {
            assert(results@.subrange(0, 0) =~= Seq::<String>::empty());
            assert(out@ =~= spec_join_lines(
                results@.subrange(0, 0).map_values(|l: String| l@),
            ));
        }
    }
    while j < results.len()
        invariant
            0 <= j <= results@.len(),
            args.paths@.len() == 0 ==> out@.len() == 0,
            args.no_color ==> out@ == spec_join_lines(
                results@.subrange(0, j as int).map_values(|l: String| l@),
            ),
        decreases results@.len() - j,
    {
        proof {
            if args.paths@.len() == 0 {
                assert(false);
            }
        }
        if j > 0 {
            out.append("\n");
        }
        let line = &results[j];
        out.append(line.as_str());
        proof {
            if args.no_color {
                reveal_strlit("\n");
                let pre = results@.subrange(0, j as int).map_values(|l: String| l@);
                let cur = results@.subrange(0, j as int + 1).map_values(|l: String| l@);
                assert(cur.drop_last() =~= pre);
                assert(cur.last() == results@[j as int]@);
                assert(out@ =~= spec_join_lines(cur));
            }
        }
        j = j + 1;
    }
    proof {
        assert(ts.len() == args.paths@.len());
        if args.no_color {
            assert(results@.subrange(0, results@.len() as int) =~= results@);
            assert(results@.map_values(|l: String| l@) =~= Seq::new(
                ts.len(),
                |i: int| spec_render_tree(ts[i], args.human_readable, args.all, args.summarize),
            ));
        }
    }
    Ok(out)
}

} // verus!
