//! Rendering of the disk-usage tree as text lines, with optional terminal
//! colours.

use vstd::prelude::*;

verus! {

use colored::Colorize;
use crate::entry::{DiskEntry, EntryType};
use crate::entry::{spec_total, spec_total_seq, lemma_total_elem_bound};
use crate::entry::{spec_height, lemma_height_seq_bound};
use crate::formatter::{format_size, spec_format_size, KB, MB, GB};

/// How a piece of output is coloured.
#[derive(Debug, Clone, PartialEq, Eq, Structural)]
pub enum Paint {
    RedBold,
    YellowBold,
    Yellow,
    Green,
    Dimmed,
    BlueBold,
    Cyan,
    Plain,
}

/// The threshold above which a size is painted yellow and bold.
pub const HUNDRED_MB: u64 = 100 * MB;

/// The colour a size of this magnitude gets: red for very large sizes,
/// yellow for large ones, green for ordinary ones, dimmed for tiny ones.
pub open spec fn spec_size_paint(bytes: u64) -> Paint {
    if bytes >= GB {
        Paint::RedBold
    } else if bytes >= HUNDRED_MB {
        Paint::YellowBold
    } else if bytes >= MB {
        Paint::Yellow
    } else if bytes >= KB {
        Paint::Green
    } else {
        Paint::Dimmed
    }
}

/// The colour a path of this kind gets: blue for directories, cyan for
/// symbolic links, none for anything else.
pub open spec fn spec_path_paint(entry_type: EntryType) -> Paint {
    match entry_type {
        EntryType::Directory => Paint::BlueBold,
        EntryType::Symlink => Paint::Cyan,
        EntryType::File => Paint::Plain,
        EntryType::Other => Paint::Plain,
    }
}

/// Picks the colour for a size by its magnitude.
pub fn size_paint(bytes: u64) -> (p: Paint)
    ensures
        p == spec_size_paint(bytes),
{
    if bytes >= GB {
        Paint::RedBold
    } else if bytes >= HUNDRED_MB {
        Paint::YellowBold
    } else if bytes >= MB {
        Paint::Yellow
    } else if bytes >= KB {
        Paint::Green
    } else {
        Paint::Dimmed
    }
}

/// Picks the colour for a path by the entry's kind.
pub fn path_paint(entry_type: &EntryType) -> (p: Paint)
    ensures
        p == spec_path_paint(*entry_type),
{
    match entry_type {
        EntryType::Directory => Paint::BlueBold,
        EntryType::Symlink => Paint::Cyan,
        EntryType::File => Paint::Plain,
        EntryType::Other => Paint::Plain,
    }
}

/// Relies on colored's Colorize methods: wraps the text in the colour's
/// escape codes, or hands it back bare when colouring is off for the
/// process.
#[verifier::external_body]
fn apply_paint(text: &str, p: &Paint) -> String {
    match p {
        Paint::RedBold => text.red().bold().to_string(),
        Paint::YellowBold => text.yellow().bold().to_string(),
        Paint::Yellow => text.yellow().to_string(),
        Paint::Green => text.green().to_string(),
        Paint::Dimmed => text.dimmed().to_string(),
        Paint::BlueBold => text.blue().bold().to_string(),
        Paint::Cyan => text.cyan().to_string(),
        Paint::Plain => text.to_string(),
    }
}

/// Colours a formatted size by its magnitude; what comes back depends on
/// whether the process writes to a terminal.
pub fn colorize_size(size_str: &str, bytes: u64) -> String {
    let p = size_paint(bytes);
    apply_paint(size_str, &p)
}

/// Colours a path by the entry's kind; what comes back depends on whether
/// the process writes to a terminal.
pub fn colorize_path(path_str: &str, entry_type: &EntryType) -> String {
    let p = path_paint(entry_type);
    apply_paint(path_str, &p)
}

/// The uncoloured line for one node: its total size, a tab, its path.
pub open spec fn spec_entry_line(e: DiskEntry, human_readable: bool) -> Seq<char> {
    spec_format_size(spec_total(e) as u64, human_readable) + seq!['\t'] + e.path@
}

/// Whether a node of this kind appears in the listing.
pub open spec fn spec_shown(e: DiskEntry, show_all: bool) -> bool {
    e.entry_type == EntryType::Directory || show_all
}

/// The uncoloured lines for a whole tree, children before parents.
pub open spec fn spec_tree_lines(e: DiskEntry, human_readable: bool, show_all: bool) -> Seq<
    Seq<char>,
>
    decreases e,
{
    spec_forest_lines(e.children@, human_readable, show_all) + if spec_shown(e, show_all) {
        seq![spec_entry_line(e, human_readable)]
    } else {
        Seq::<Seq<char>>::empty()
    }
}

/// The uncoloured lines for a forest, tree by tree.
pub open spec fn spec_forest_lines(
    s: Seq<DiskEntry>,
    human_readable: bool,
    show_all: bool,
) -> Seq<Seq<char>>
    decreases s,
{
    if s.len() == 0 {
        Seq::<Seq<char>>::empty()
    } else {
        spec_tree_lines(s[0], human_readable, show_all) + spec_forest_lines(
            s.subrange(1, s.len() as int),
            human_readable,
            show_all,
        )
    }
}

/// A forest's lines split over its two halves.
pub proof fn lemma_forest_lines_split(
    s: Seq<DiskEntry>,
    human_readable: bool,
    show_all: bool,
    k: int,
)
    requires
        0 <= k <= s.len(),
    ensures
        spec_forest_lines(s, human_readable, show_all) =~= spec_forest_lines(
            s.subrange(0, k),
            human_readable,
            show_all,
        ) + spec_forest_lines(s.subrange(k, s.len() as int), human_readable, show_all),
    decreases k,
{
    if k == 0 {
        assert(s.subrange(0, 0) =~= Seq::<DiskEntry>::empty());
        assert(s.subrange(0, s.len() as int) =~= s);
    } else {
        let tail = s.subrange(1, s.len() as int);
        lemma_forest_lines_split(tail, human_readable, show_all, k - 1);
        assert(s.subrange(0, k).subrange(1, k) =~= tail.subrange(0, k - 1));
        assert(s.subrange(k, s.len() as int) =~= tail.subrange(k - 1, tail.len() as int));
        assert(s.subrange(0, k)[0] == s[0]);
        assert(spec_forest_lines(s.subrange(0, k), human_readable, show_all) == spec_tree_lines(
            s[0],
            human_readable,
            show_all,
        ) + spec_forest_lines(tail.subrange(0, k - 1), human_readable, show_all));
    }
}

/// Renders one node as a line of its own: total size, a tab, the path.
pub fn render_entry(entry: &DiskEntry, human_readable: bool, use_color: bool) -> (r: String)
    requires
        spec_total(*entry) <= u64::MAX,
    ensures
        !use_color ==> r@ == spec_entry_line(*entry, human_readable),
{
    let size = entry.total_size();
    let size_str = format_size(size, human_readable);
    let path_str = entry.path.clone();
    if use_color {
        let colored_size = colorize_size(size_str.as_str(), size);
        let colored_path = colorize_path(path_str.as_str(), &entry.entry_type);
        let mut r = colored_size;
        r.append("\t");
        r.append(colored_path.as_str());
        r
    } else {
        let mut r = size_str;
        r.append("\t");
        r.append(path_str.as_str());
        proof {
            reveal_strlit("\t");
            assert(r@ =~= spec_entry_line(*entry, human_readable));
        }
        r
    }
}

/// Collects the listing's lines for a subtree, children first, as `du`
/// prints them.
#[verifier::loop_isolation(false)]
pub fn collect_lines(
    entry: &DiskEntry,
    human_readable: bool,
    show_all: bool,
    use_color: bool,
    lines: &mut Vec<String>,
)
    requires
        spec_total(*entry) <= u64::MAX,
    ensures
        final(lines)@.len() == old(lines)@.len() + spec_tree_lines(
            *entry,
            human_readable,
            show_all,
        ).len(),
        forall|i: int| 0 <= i < old(lines)@.len() ==> final(lines)@[i] == old(lines)@[i],
        !use_color ==> forall|i: int|
            0 <= i < spec_tree_lines(*entry, human_readable, show_all).len() ==> (
            #[trigger] final(lines)@[old(lines)@.len() + i])@ == spec_tree_lines(
                *entry,
                human_readable,
                show_all,
            )[i],
    decreases spec_height(*entry),
{
    let ghost base = lines@;
    let ghost cs = entry.children@;
    proof {
        assert(cs.subrange(0, 0) =~= Seq::<DiskEntry>::empty());
    }
    let mut i: usize = 0;
    while i < entry.children.len()
        invariant
            0 <= i <= cs.len(),
            lines@.len() == base.len() + spec_forest_lines(
                cs.subrange(0, i as int),
                human_readable,
                show_all,
            ).len(),
            forall|j: int| 0 <= j < base.len() ==> lines@[j] == base[j],
            !use_color ==> forall|j: int|
                0 <= j < spec_forest_lines(cs.subrange(0, i as int), human_readable, show_all).len()
                    ==> (#[trigger] lines@[base.len() + j])@ == spec_forest_lines(
                    cs.subrange(0, i as int),
                    human_readable,
                    show_all,
                )[j],
        decreases cs.len() - i,
    {
        proof {
            lemma_total_elem_bound(cs, i as int);
            lemma_height_seq_bound(cs, i as int);
            assert(spec_total_seq(cs) <= spec_total(*entry));
            lemma_forest_lines_split(cs.subrange(0, i as int + 1), human_readable, show_all, i as int);
            assert(cs.subrange(0, i as int + 1).subrange(0, i as int) =~= cs.subrange(0, i as int));
            let single = cs.subrange(0, i as int + 1).subrange(i as int, i as int + 1);
            assert(single[0] == cs[i as int]);
            assert(single.subrange(1, 1) =~= Seq::<DiskEntry>::empty());
            assert(spec_forest_lines(single, human_readable, show_all) =~= spec_tree_lines(
                cs[i as int],
                human_readable,
                show_all,
            ));
        }
        let ghost before_call = lines@;
        collect_lines(&entry.children[i], human_readable, show_all, use_color, lines);
        proof {
            let pre = spec_forest_lines(cs.subrange(0, i as int), human_readable, show_all);
            let one = spec_tree_lines(cs[i as int], human_readable, show_all);
            let post = spec_forest_lines(cs.subrange(0, i as int + 1), human_readable, show_all);
            assert(post =~= pre + one);
            if !use_color {
                assert forall|j: int| 0 <= j < post.len() implies (#[trigger] lines@[base.len()
                    + j])@ == post[j] by {
                    if j < pre.len() {
                        assert(lines@[base.len() + j] == before_call[base.len() + j]);
                        assert(before_call[base.len() + j]@ == pre[j]);
                    } else {
                        assert(lines@[before_call.len() as int + (j - pre.len())]@ == one[j
                            - pre.len()]);
                    }
                }
            }
        }
        i = i + 1;
    }
    proof {
        assert(cs.subrange(0, cs.len() as int) =~= cs);
    }
    let should_show = match entry.entry_type {
        EntryType::Directory => true,
        _ => show_all,
    };
    if should_show {
        let line = render_entry(entry, human_readable, use_color);
        lines.push(line);
    }
    proof {
        if spec_shown(*entry, show_all) {
            assert(spec_tree_lines(*entry, human_readable, show_all) =~= spec_forest_lines(
                cs,
                human_readable,
                show_all,
            ) + seq![spec_entry_line(*entry, human_readable)]);
        } else {
            assert(spec_tree_lines(*entry, human_readable, show_all) =~= spec_forest_lines(
                cs,
                human_readable,
                show_all,
            ));
        }
    }
}

/// The listing's lines joined with newlines.
pub open spec fn spec_join_lines(s: Seq<Seq<char>>) -> Seq<char>
    decreases s.len(),
{
    if s.len() == 0 {
        Seq::<char>::empty()
    } else if s.len() == 1 {
        s[0]
    } else {
        spec_join_lines(s.drop_last()) + seq!['\n'] + s.last()
    }
}

/// What `render_tree` prints without colour: one line for the whole tree
/// when summarizing, else the shown nodes' lines, children before parents.
pub open spec fn spec_render_tree(
    e: DiskEntry,
    human_readable: bool,
    show_all: bool,
    summarize: bool,
) -> Seq<char> {
    if summarize {
        spec_entry_line(e, human_readable)
    } else {
        spec_join_lines(spec_tree_lines(e, human_readable, show_all))
    }
}

/// Renders the whole tree: only the root's line when summarizing, else
/// every shown node, children before parents, joined with newlines.
#[verifier::loop_isolation(false)]
pub fn render_tree(
    entry: &DiskEntry,
    human_readable: bool,
    show_all: bool,
    summarize: bool,
    use_color: bool,
) -> (r: String)
    requires
        spec_total(*entry) <= u64::MAX,
    ensures
        !use_color ==> r@ == spec_render_tree(*entry, human_readable, show_all, summarize),
{
    if summarize {
        return render_entry(entry, human_readable, use_color);
    }
    let mut lines: Vec<String> = Vec::new();
    collect_lines(entry, human_readable, show_all, use_color, &mut lines);
    let ghost all = spec_tree_lines(*entry, human_readable, show_all);
    let mut r = String::new();
    let mut i: usize = 0;
    proof {
        assert(lines@.len() == all.len());
    }
    while i < lines.len()
        invariant
            0 <= i <= lines@.len(),
            !use_color ==> r@ == spec_join_lines(lines@.subrange(0, i as int).map_values(
                |l: String| l@,
            )),
            use_color ==> true,
        decreases lines@.len() - i,
    {
        if i > 0 {
            r.append("\n");
        }
        let line = &lines[i];
        r.append(line.as_str());
        proof {
            if !use_color {
                reveal_strlit("\n");
                let pre = lines@.subrange(0, i as int).map_values(|l: String| l@);
                let cur = lines@.subrange(0, i as int + 1).map_values(|l: String| l@);
                assert(cur.drop_last() =~= pre);
                assert(cur.last() == lines@[i as int]@);
                if i == 0 {
                    assert(r@ =~= spec_join_lines(cur));
                } else {
                    assert(r@ =~= spec_join_lines(cur));
                }
            }
        }
        i = i + 1;
    }
    proof {
        if !use_color {
            assert(lines@.subrange(0, lines@.len() as int) =~= lines@);
            assert forall|j: int| 0 <= j < all.len() implies (#[trigger] lines@[j])@ == all[j] by {
                assert(lines@[0 + j]@ == all[j]);
            }
            assert(lines@.map_values(|l: String| l@) =~= all);
        }
    }
    r
}

} // verus!
