//! Reconstruction of the disk-usage tree from the flat entry list that a
//! filesystem walk produces, and the walk itself.

use vstd::prelude::*;

verus! {

use vstd::multiset::Multiset;
use vstd::seq_lib::group_to_multiset_ensures;
use crate::entry::{DiskEntry, EntryType};
use crate::error::DuskError;
use crate::entry::{spec_total, spec_total_seq, spec_count, spec_count_seq, spec_tree_wf};
use crate::entry::spec_collapsed;
use walkdir::WalkDir;
use rayon::iter::{IntoParallelRefIterator, ParallelIterator};
use crate::entry::{lemma_total_seq_split, lemma_count_seq_split};

/// One filesystem object as the walk reports it: its path, the path of the
/// directory holding it, its own size, its kind, and how many steps below
/// the walk's root it sits.
pub struct FlatEntry {
    pub path: String,
    pub parent: Option<String>,
    pub size: u64,
    pub entry_type: EntryType,
    pub depth: usize,
}

/// The summed own sizes of a flat entry list.
pub open spec fn spec_sum_sizes(s: Seq<FlatEntry>) -> nat
    decreases s.len(),
{
    if s.len() == 0 {
        0
    } else {
        (s[0].size as nat) + spec_sum_sizes(s.subrange(1, s.len() as int))
    }
}

/// Summing a flat entry list splits over its two halves.
pub proof fn lemma_sum_sizes_split(s: Seq<FlatEntry>, k: int)
    requires
        0 <= k <= s.len(),
    ensures
        spec_sum_sizes(s) == spec_sum_sizes(s.subrange(0, k)) + spec_sum_sizes(
            s.subrange(k, s.len() as int),
        ),
    decreases k,
{
    if k == 0 {
        assert(s.subrange(0, 0) =~= Seq::<FlatEntry>::empty());
        assert(s.subrange(0, s.len() as int) =~= s);
    } else {
        let tail = s.subrange(1, s.len() as int);
        lemma_sum_sizes_split(tail, k - 1);
        assert(s.subrange(0, k).subrange(1, k) =~= tail.subrange(0, k - 1));
        assert(s.subrange(k, s.len() as int) =~= tail.subrange(k - 1, tail.len() as int));
        assert(s.subrange(0, k)[0] == s[0]);
        assert(spec_sum_sizes(s.subrange(0, k)) == (s[0].size as nat) + spec_sum_sizes(
            tail.subrange(0, k - 1),
        ));
    }
}

/// Dropping one entry from a list drops exactly its size from the sum.
pub proof fn lemma_sum_sizes_remove(s: Seq<FlatEntry>, j: int)
    requires
        0 <= j < s.len(),
    ensures
        spec_sum_sizes(s) == spec_sum_sizes(s.remove(j)) + s[j].size,
{
    let t = s.remove(j);
    lemma_sum_sizes_split(s, j);
    lemma_sum_sizes_split(t, j);
    assert(t.subrange(0, j) =~= s.subrange(0, j));
    assert(t.subrange(j, t.len() as int) =~= s.subrange(j + 1, s.len() as int));
    let suf = s.subrange(j, s.len() as int);
    assert(suf[0] == s[j]);
    assert(suf.subrange(1, suf.len() as int) =~= s.subrange(j + 1, s.len() as int));
}

/// Two flat entry lists holding the same entries, in whatever order, have
/// the same summed size. So any two walks that report the same entries give
/// the same grand total, no matter how their reports were interleaved.
pub proof fn lemma_sum_sizes_permutation(s1: Seq<FlatEntry>, s2: Seq<FlatEntry>)
    requires
        s1.to_multiset() == s2.to_multiset(),
    ensures
        spec_sum_sizes(s1) == spec_sum_sizes(s2),
    decreases s1.len(),
{
    broadcast use group_to_multiset_ensures;

    if s1.len() > 0 {
        let x = s1[0];
        assert(s1.to_multiset().count(x) > 0);
        assert(s2.contains(x));
        let j = choose|j: int| 0 <= j < s2.len() && s2[j] == x;
        lemma_sum_sizes_remove(s2, j);
        lemma_sum_sizes_remove(s1, 0);
        assert(s1.remove(0).to_multiset() =~= s2.remove(j).to_multiset());
        lemma_sum_sizes_permutation(s1.remove(0), s2.remove(j));
    } else {
        assert(s2.to_multiset().len() == 0);
        assert(s2.len() == 0);
    }
}

/// A value sitting at two places in a sequence counts at least twice in the
/// sequence's multiset.
pub proof fn lemma_dup_count<A>(s: Seq<A>, i: int, j: int)
    requires
        0 <= i < j < s.len(),
        s[i] == s[j],
    ensures
        s.to_multiset().count(s[i]) >= 2,
{
    broadcast use group_to_multiset_ensures;

    let t = s.remove(j);
    assert(t[i] == s[i]);
    assert(t.contains(s[i]));
    assert(t.to_multiset().count(s[i]) > 0);
    assert(t.to_multiset() == s.to_multiset().remove(s[j]));
}

/// Whether some entry of the walk stands for the root itself.
pub open spec fn spec_has_root(m: Multiset<FlatEntry>) -> bool {
    exists|e: FlatEntry| #[trigger] m.count(e) > 0 && e.depth == 0
}

/// A coherent walk report: no entry twice, no two entries for one path,
/// one single root, and every deeper entry names a parent that the report
/// also holds, one level up.
pub open spec fn spec_entries_wf(m: Multiset<FlatEntry>) -> bool {
    &&& forall|e: FlatEntry| #[trigger] m.count(e) > 0 ==> m.count(e) == 1
    &&& forall|e1: FlatEntry, e2: FlatEntry|
        #[trigger] m.count(e1) > 0 && #[trigger] m.count(e2) > 0 && e1 != e2 ==> e1.path@
            != e2.path@
    &&& forall|e1: FlatEntry, e2: FlatEntry|
        #[trigger] m.count(e1) > 0 && #[trigger] m.count(e2) > 0 && e1.depth == 0 && e2.depth == 0
            ==> e1 == e2
    &&& forall|e: FlatEntry|
        #[trigger] m.count(e) > 0 && e.depth > 0 ==> exists|p: FlatEntry|
            #[trigger] m.count(p) > 0 && e.parent is Some && (e.parent->0)@ == p.path@ && p.depth
                + 1 == e.depth
}


/// The four facts a tree node records for one filesystem object: its path,
/// own size, kind and depth.
pub type NodeFacts = (Seq<char>, u64, EntryType, usize);

/// The facts one walk entry carries.
pub open spec fn spec_entry_facts(e: FlatEntry) -> NodeFacts {
    (e.path@, e.size, e.entry_type, e.depth)
}

/// The facts one tree node carries.
pub open spec fn spec_node_facts(n: DiskEntry) -> NodeFacts {
    (n.path@, n.size_bytes, n.entry_type, n.depth)
}

/// The facts of every entry of a walk report, as a multiset.
pub open spec fn spec_entry_facts_ms(s: Seq<FlatEntry>) -> Multiset<NodeFacts>
    decreases s.len(),
{
    if s.len() == 0 {
        Multiset::<NodeFacts>::empty()
    } else {
        spec_entry_facts_ms(s.subrange(1, s.len() as int)).insert(spec_entry_facts(s[0]))
    }
}

/// The facts of every node of a tree, as a multiset.
pub open spec fn spec_tree_facts_ms(n: DiskEntry) -> Multiset<NodeFacts>
    decreases n,
{
    spec_forest_facts_ms(n.children@).insert(spec_node_facts(n))
}

/// The facts of every node of a forest.
pub open spec fn spec_forest_facts_ms(s: Seq<DiskEntry>) -> Multiset<NodeFacts>
    decreases s,
{
    if s.len() == 0 {
        Multiset::<NodeFacts>::empty()
    } else {
        spec_tree_facts_ms(s[0]).add(spec_forest_facts_ms(s.subrange(1, s.len() as int)))
    }
}

/// The facts of every tree parked in a pending-children table.
pub open spec fn spec_pending_facts_ms(ps: Seq<(String, Vec<DiskEntry>)>) -> Multiset<NodeFacts>
    decreases ps.len(),
{
    if ps.len() == 0 {
        Multiset::<NodeFacts>::empty()
    } else {
        spec_forest_facts_ms(ps[0].1@).add(spec_pending_facts_ms(ps.subrange(1, ps.len() as int)))
    }
}

/// Nothing, or the facts of the one tree present.
pub open spec fn spec_opt_facts_ms(r: Option<DiskEntry>) -> Multiset<NodeFacts> {
    match r {
        Some(t) => spec_tree_facts_ms(t),
        None => Multiset::<NodeFacts>::empty(),
    }
}

/// An entry list's facts split over its two halves.
pub proof fn lemma_entry_facts_split(s: Seq<FlatEntry>, k: int)
    requires
        0 <= k <= s.len(),
    ensures
        spec_entry_facts_ms(s) =~= spec_entry_facts_ms(s.subrange(0, k)).add(
            spec_entry_facts_ms(s.subrange(k, s.len() as int)),
        ),
    decreases k,
{
    if k == 0 {
        assert(s.subrange(0, 0) =~= Seq::<FlatEntry>::empty());
        assert(s.subrange(0, s.len() as int) =~= s);
    } else {
        let tail = s.subrange(1, s.len() as int);
        lemma_entry_facts_split(tail, k - 1);
        assert(s.subrange(0, k).subrange(1, k) =~= tail.subrange(0, k - 1));
        assert(s.subrange(k, s.len() as int) =~= tail.subrange(k - 1, tail.len() as int));
        assert(s.subrange(0, k)[0] == s[0]);
        assert(spec_entry_facts_ms(s.subrange(0, k)) == spec_entry_facts_ms(
            tail.subrange(0, k - 1),
        ).insert(spec_entry_facts(s[0])));
    }
}

/// Dropping one entry drops exactly its facts from the multiset.
pub proof fn lemma_entry_facts_remove(s: Seq<FlatEntry>, j: int)
    requires
        0 <= j < s.len(),
    ensures
        spec_entry_facts_ms(s) =~= spec_entry_facts_ms(s.remove(j)).insert(spec_entry_facts(s[j])),
{
    let t = s.remove(j);
    lemma_entry_facts_split(s, j);
    lemma_entry_facts_split(t, j);
    assert(t.subrange(0, j) =~= s.subrange(0, j));
    assert(t.subrange(j, t.len() as int) =~= s.subrange(j + 1, s.len() as int));
    let suf = s.subrange(j, s.len() as int);
    assert(suf[0] == s[j]);
    assert(suf.subrange(1, suf.len() as int) =~= s.subrange(j + 1, s.len() as int));
}

/// Two walk reports holding the same entries, in whatever order, carry the
/// same node facts.
pub proof fn lemma_entry_facts_permutation(s1: Seq<FlatEntry>, s2: Seq<FlatEntry>)
    requires
        s1.to_multiset() == s2.to_multiset(),
    ensures
        spec_entry_facts_ms(s1) =~= spec_entry_facts_ms(s2),
    decreases s1.len(),
{
    broadcast use group_to_multiset_ensures;

    if s1.len() > 0 {
        let x = s1[0];
        assert(s1.to_multiset().count(x) > 0);
        assert(s2.contains(x));
        let j = choose|j: int| 0 <= j < s2.len() && s2[j] == x;
        lemma_entry_facts_remove(s2, j);
        lemma_entry_facts_remove(s1, 0);
        assert(s1.remove(0).to_multiset() =~= s2.remove(j).to_multiset());
        lemma_entry_facts_permutation(s1.remove(0), s2.remove(j));
    } else {
        assert(s2.to_multiset().len() == 0);
        assert(s2.len() == 0);
    }
}

/// A forest's facts split over its two halves.
pub proof fn lemma_forest_facts_split(s: Seq<DiskEntry>, k: int)
    requires
        0 <= k <= s.len(),
    ensures
        spec_forest_facts_ms(s) =~= spec_forest_facts_ms(s.subrange(0, k)).add(
            spec_forest_facts_ms(s.subrange(k, s.len() as int)),
        ),
    decreases k,
{
    if k == 0 {
        assert(s.subrange(0, 0) =~= Seq::<DiskEntry>::empty());
        assert(s.subrange(0, s.len() as int) =~= s);
    } else {
        let tail = s.subrange(1, s.len() as int);
        lemma_forest_facts_split(tail, k - 1);
        assert(s.subrange(0, k).subrange(1, k) =~= tail.subrange(0, k - 1));
        assert(s.subrange(k, s.len() as int) =~= tail.subrange(k - 1, tail.len() as int));
        assert(s.subrange(0, k)[0] == s[0]);
        assert(spec_forest_facts_ms(s.subrange(0, k)) == spec_tree_facts_ms(s[0]).add(
            spec_forest_facts_ms(tail.subrange(0, k - 1)),
        ));
    }
}

/// The pending table's facts split over its two halves.
pub proof fn lemma_pending_facts_split(ps: Seq<(String, Vec<DiskEntry>)>, k: int)
    requires
        0 <= k <= ps.len(),
    ensures
        spec_pending_facts_ms(ps) =~= spec_pending_facts_ms(ps.subrange(0, k)).add(
            spec_pending_facts_ms(ps.subrange(k, ps.len() as int)),
        ),
    decreases k,
{
    if k == 0 {
        assert(ps.subrange(0, 0) =~= Seq::<(String, Vec<DiskEntry>)>::empty());
        assert(ps.subrange(0, ps.len() as int) =~= ps);
    } else {
        let tail = ps.subrange(1, ps.len() as int);
        lemma_pending_facts_split(tail, k - 1);
        assert(ps.subrange(0, k).subrange(1, k) =~= tail.subrange(0, k - 1));
        assert(ps.subrange(k, ps.len() as int) =~= tail.subrange(k - 1, tail.len() as int));
        assert(ps.subrange(0, k)[0] == ps[0]);
        assert(spec_pending_facts_ms(ps.subrange(0, k)) == spec_forest_facts_ms(ps[0].1@).add(
            spec_pending_facts_ms(tail.subrange(0, k - 1)),
        ));
    }
}

/// Every child of every node sits under its own recorded parent: the walk
/// reported an entry with the child's path whose parent field names the
/// node's path.
pub open spec fn spec_children_linked(n: DiskEntry, m: Multiset<FlatEntry>) -> bool
    decreases n,
{
    forall|i: int|
        0 <= i < n.children@.len() ==> (exists|f: FlatEntry|
            #[trigger] m.count(f) > 0 && f.path@ == n.children@[i].path@ && f.parent is Some && (
            f.parent->0)@ == n.path@) && spec_children_linked(#[trigger] n.children@[i], m)
}

/// Entries ordered by depth, shallowest first.
pub open spec fn spec_sorted_by_depth_asc(s: Seq<FlatEntry>) -> bool {
    forall|i: int, j: int| 0 <= i < j < s.len() ==> (#[trigger] s[i]).depth <= (#[trigger] s[j]).depth
}

/// Entries ordered by depth, deepest first.
pub open spec fn spec_sorted_by_depth_desc(s: Seq<FlatEntry>) -> bool {
    forall|i: int, j: int| 0 <= i < j < s.len() ==> (#[trigger] s[i]).depth >= (#[trigger] s[j]).depth
}

/// Merges two depth-ordered lists into one, working from the deep ends.
#[verifier::loop_isolation(false)]
fn merge_by_depth(a: Vec<FlatEntry>, b: Vec<FlatEntry>) -> (r: Vec<FlatEntry>)
    requires
        spec_sorted_by_depth_asc(a@),
        spec_sorted_by_depth_asc(b@),
    ensures
        r@.len() == a@.len() + b@.len(),
        r@.to_multiset() == a@.to_multiset().add(b@.to_multiset()),
        spec_sorted_by_depth_asc(r@),
{
    broadcast use group_to_multiset_ensures;

    let ghost am = a@.to_multiset();
    let ghost bm = b@.to_multiset();
    let mut a = a;
    let mut b = b;
    let mut rev: Vec<FlatEntry> = Vec::new();
    let ghost total_len = a@.len() + b@.len();
    while a.len() > 0 || b.len() > 0
        invariant
            rev@.len() + a@.len() + b@.len() == total_len,
            rev@.to_multiset().add(a@.to_multiset()).add(b@.to_multiset()) == am.add(bm),
            spec_sorted_by_depth_asc(a@),
            spec_sorted_by_depth_asc(b@),
            spec_sorted_by_depth_desc(rev@),
            rev@.len() > 0 && a@.len() > 0 ==> a@.last().depth <= rev@.last().depth,
            rev@.len() > 0 && b@.len() > 0 ==> b@.last().depth <= rev@.last().depth,
        decreases a@.len() + b@.len(),
    {
        let take_a = if b.len() == 0 {
            true
        } else if a.len() == 0 {
            false
        } else {
            a[a.len() - 1].depth >= b[b.len() - 1].depth
        };
        if take_a {
            let ghost pre = a@;
            let x = a.pop().unwrap();
            proof {
                assert(pre.drop_last() =~= pre.remove(pre.len() - 1));
                assert(x == pre.last());
            }
            rev.push(x);
        } else {
            let ghost pre = b@;
            let x = b.pop().unwrap();
            proof {
                assert(pre.drop_last() =~= pre.remove(pre.len() - 1));
                assert(x == pre.last());
            }
            rev.push(x);
        }
    }
    let mut out: Vec<FlatEntry> = Vec::new();
    while rev.len() > 0
        invariant
            out@.len() + rev@.len() == total_len,
            out@.to_multiset().add(rev@.to_multiset()) == am.add(bm),
            spec_sorted_by_depth_desc(rev@),
            spec_sorted_by_depth_asc(out@),
            out@.len() > 0 && rev@.len() > 0 ==> out@.last().depth <= rev@.last().depth,
        decreases rev@.len(),
    {
        let ghost pre = rev@;
        let x = rev.pop().unwrap();
        proof {
            assert(pre.drop_last() =~= pre.remove(pre.len() - 1));
            assert(x == pre.last());
        }
        out.push(x);
    }
    proof {
        assert(rev@.to_multiset().len() == 0);
        assert(out@.to_multiset() =~= am.add(bm));
    }
    out
}

/// Orders the entries by depth, shallowest first, by splitting, sorting
/// each half, and merging.
fn sort_by_depth(v: Vec<FlatEntry>) -> (r: Vec<FlatEntry>)
    ensures
        r@.len() == v@.len(),
        r@.to_multiset() == v@.to_multiset(),
        spec_sorted_by_depth_asc(r@),
    decreases v@.len(),
{
    broadcast use group_to_multiset_ensures;

    if v.len() <= 1 {
        return v;
    }
    let ghost whole = v@;
    let mut left = v;
    let mid = left.len() / 2;
    let right = left.split_off(mid);
    proof {
        assert(whole =~= left@ + right@);
        vstd::seq_lib::lemma_multiset_commutative(left@, right@);
    }
    let ls = sort_by_depth(left);
    let rs = sort_by_depth(right);
    merge_by_depth(ls, rs)
}

/// The summed total size of every tree parked in a pending-children table.
pub open spec fn spec_pending_total(ps: Seq<(String, Vec<DiskEntry>)>) -> nat
    decreases ps.len(),
{
    if ps.len() == 0 {
        0
    } else {
        spec_total_seq(ps[0].1@) + spec_pending_total(ps.subrange(1, ps.len() as int))
    }
}

/// The summed node count of every tree parked in a pending-children table.
pub open spec fn spec_pending_count(ps: Seq<(String, Vec<DiskEntry>)>) -> nat
    decreases ps.len(),
{
    if ps.len() == 0 {
        0
    } else {
        spec_count_seq(ps[0].1@) + spec_pending_count(ps.subrange(1, ps.len() as int))
    }
}

/// No two rows of the table carry the same path.
pub open spec fn spec_keys_distinct(ps: Seq<(String, Vec<DiskEntry>)>) -> bool {
    forall|i: int, j: int| 0 <= i < j < ps.len() ==> (#[trigger] ps[i]).0@ != (#[trigger] ps[j]).0@
}

/// The parked total size splits over the table's two halves.
pub proof fn lemma_pending_total_split(ps: Seq<(String, Vec<DiskEntry>)>, k: int)
    requires
        0 <= k <= ps.len(),
    ensures
        spec_pending_total(ps) == spec_pending_total(ps.subrange(0, k)) + spec_pending_total(
            ps.subrange(k, ps.len() as int),
        ),
    decreases k,
{
    if k == 0 {
        assert(ps.subrange(0, 0) =~= Seq::<(String, Vec<DiskEntry>)>::empty());
        assert(ps.subrange(0, ps.len() as int) =~= ps);
    } else {
        let tail = ps.subrange(1, ps.len() as int);
        lemma_pending_total_split(tail, k - 1);
        assert(ps.subrange(0, k).subrange(1, k) =~= tail.subrange(0, k - 1));
        assert(ps.subrange(k, ps.len() as int) =~= tail.subrange(k - 1, tail.len() as int));
        assert(ps.subrange(0, k)[0] == ps[0]);
        assert(spec_pending_total(ps.subrange(0, k)) == spec_total_seq(ps[0].1@)
            + spec_pending_total(tail.subrange(0, k - 1)));
    }
}

/// The parked node count splits over the table's two halves.
pub proof fn lemma_pending_count_split(ps: Seq<(String, Vec<DiskEntry>)>, k: int)
    requires
        0 <= k <= ps.len(),
    ensures
        spec_pending_count(ps) == spec_pending_count(ps.subrange(0, k)) + spec_pending_count(
            ps.subrange(k, ps.len() as int),
        ),
    decreases k,
{
    if k == 0 {
        assert(ps.subrange(0, 0) =~= Seq::<(String, Vec<DiskEntry>)>::empty());
        assert(ps.subrange(0, ps.len() as int) =~= ps);
    } else {
        let tail = ps.subrange(1, ps.len() as int);
        lemma_pending_count_split(tail, k - 1);
        assert(ps.subrange(0, k).subrange(1, k) =~= tail.subrange(0, k - 1));
        assert(ps.subrange(k, ps.len() as int) =~= tail.subrange(k - 1, tail.len() as int));
        assert(ps.subrange(0, k)[0] == ps[0]);
        assert(spec_pending_count(ps.subrange(0, k)) == spec_count_seq(ps[0].1@)
            + spec_pending_count(tail.subrange(0, k - 1)));
    }
}

/// Children that deeper processing attributed to parents not built yet,
/// one row per parent path.
struct PendingMap {
    pairs: Vec<(String, Vec<DiskEntry>)>,
}

impl PendingMap {
    fn new() -> (r: PendingMap)
        ensures
            r.pairs@.len() == 0,
            spec_pending_total(r.pairs@) == 0,
            spec_pending_count(r.pairs@) == 0,
            spec_keys_distinct(r.pairs@),
    {
        PendingMap { pairs: Vec::new() }
    }

    /// Takes the children parked under `path` out of the table; an absent
    /// path yields no children and leaves the table as it was.
    #[verifier::loop_isolation(false)]
    fn take_children(&mut self, path: &String) -> (r: Vec<DiskEntry>)
        requires
            spec_keys_distinct(old(self).pairs@),
        ensures
            spec_keys_distinct(final(self).pairs@),
            spec_pending_total(final(self).pairs@) + spec_total_seq(r@) == spec_pending_total(
                old(self).pairs@,
            ),
            spec_pending_count(final(self).pairs@) + spec_count_seq(r@) == spec_pending_count(
                old(self).pairs@,
            ),
            spec_pending_facts_ms(final(self).pairs@).add(spec_forest_facts_ms(r@))
                =~= spec_pending_facts_ms(old(self).pairs@),
            forall|k2: int|
                0 <= k2 < final(self).pairs@.len() ==> (#[trigger] final(self).pairs@[k2]).0@
                    != path@,
            forall|k2: int|
                0 <= k2 < final(self).pairs@.len() ==> exists|k1: int|
                    0 <= k1 < old(self).pairs@.len() && old(self).pairs@[k1] == #[trigger] final(self).pairs@[k2],
            (forall|k: int|
                0 <= k < old(self).pairs@.len() ==> (#[trigger] old(self).pairs@[k]).0@ != path@)
                ==> r@.len() == 0 && final(self).pairs@ == old(self).pairs@,
            forall|k: int|
                0 <= k < old(self).pairs@.len() && (#[trigger] old(self).pairs@[k]).0@ == path@
                    ==> r == old(self).pairs@[k].1,
    {
        let ghost orig = self.pairs@;
        let mut k: usize = 0;
        while k < self.pairs.len()
            invariant
                0 <= k <= orig.len(),
                self.pairs@ == orig,
                forall|k1: int| 0 <= k1 < k ==> (#[trigger] orig[k1]).0@ != path@,
            decreases orig.len() - k,
        {
            if self.pairs[k].0 == *path {
                let pair = self.pairs.remove(k);
                proof {
                    assert(self.pairs@ =~= orig.remove(k as int));
                    lemma_pending_total_split(orig, k as int);
                    lemma_pending_total_split(orig.remove(k as int), k as int);
                    assert(orig.remove(k as int).subrange(0, k as int) =~= orig.subrange(
                        0,
                        k as int,
                    ));
                    assert(orig.remove(k as int).subrange(
                        k as int,
                        orig.remove(k as int).len() as int,
                    ) =~= orig.subrange(k as int + 1, orig.len() as int));
                    let suf = orig.subrange(k as int, orig.len() as int);
                    assert(suf[0] == orig[k as int]);
                    assert(suf.subrange(1, suf.len() as int) =~= orig.subrange(
                        k as int + 1,
                        orig.len() as int,
                    ));
                    assert(spec_total_seq(pair.1@) == spec_total_seq(orig[k as int].1@));
                    assert(spec_pending_total(suf) == spec_total_seq(orig[k as int].1@)
                        + spec_pending_total(orig.subrange(k as int + 1, orig.len() as int)));
                    lemma_pending_count_split(orig, k as int);
                    lemma_pending_count_split(orig.remove(k as int), k as int);
                    assert(spec_pending_count(suf) == spec_count_seq(orig[k as int].1@)
                        + spec_pending_count(orig.subrange(k as int + 1, orig.len() as int)));
                    lemma_pending_facts_split(orig, k as int);
                    lemma_pending_facts_split(orig.remove(k as int), k as int);
                    assert(spec_pending_facts_ms(suf) == spec_forest_facts_ms(orig[k as int].1@)
                        .add(spec_pending_facts_ms(orig.subrange(k as int + 1, orig.len() as int))));
                    assert(spec_forest_facts_ms(pair.1@) == spec_forest_facts_ms(
                        orig[k as int].1@,
                    ));
                    assert(spec_pending_facts_ms(self.pairs@).add(spec_forest_facts_ms(pair.1@))
                        =~= spec_pending_facts_ms(orig));
                    assert(forall|k2: int|
                        0 <= k2 < self.pairs@.len() ==> #[trigger] self.pairs@[k2] == if k2
                            < k as int {
                            orig[k2]
                        } else {
                            orig[k2 + 1]
                        });
                }
                return pair.1;
            }
            k = k + 1;
        }
        proof {
            assert(spec_total_seq(Seq::<DiskEntry>::empty()) == 0);
            assert(spec_count_seq(Seq::<DiskEntry>::empty()) == 0);
            assert(spec_forest_facts_ms(Seq::<DiskEntry>::empty())
                =~= Multiset::<NodeFacts>::empty());
        }
        Vec::new()
    }

    /// Parks one more finished child under `path`, joining any already
    /// there.
    #[verifier::loop_isolation(false)]
    fn push_child(&mut self, path: String, node: DiskEntry)
        requires
            spec_keys_distinct(old(self).pairs@),
        ensures
            spec_keys_distinct(final(self).pairs@),
            spec_pending_total(final(self).pairs@) == spec_pending_total(old(self).pairs@)
                + spec_total(node),
            spec_pending_count(final(self).pairs@) == spec_pending_count(old(self).pairs@)
                + spec_count(node),
            spec_pending_facts_ms(final(self).pairs@) =~= spec_pending_facts_ms(
                old(self).pairs@,
            ).add(spec_tree_facts_ms(node)),
            forall|k: int|
                0 <= k < old(self).pairs@.len() && (#[trigger] old(self).pairs@[k]).0@ == path@
                    ==> final(self).pairs@.len() == old(self).pairs@.len() && (forall|k2: int|
                    0 <= k2 < old(self).pairs@.len() && k2 != k ==> #[trigger] final(self).pairs@[k2] == old(self).pairs@[k2]) && final(self).pairs@[k].0 == old(self).pairs@[k].0 && final(self).pairs@[k].1@ == old(self).pairs@[k].1@.push(node),
            (forall|k: int|
                0 <= k < old(self).pairs@.len() ==> (#[trigger] old(self).pairs@[k]).0@ != path@)
                ==> final(self).pairs@.len() == old(self).pairs@.len() + 1 && (forall|k2: int|
                0 <= k2 < old(self).pairs@.len() ==> #[trigger] final(self).pairs@[k2] == old(self).pairs@[k2]) && final(self).pairs@[old(self).pairs@.len() as int].0@ == path@
                && final(self).pairs@[old(self).pairs@.len() as int].1@ == seq![node],
    {
        let ghost orig = self.pairs@;
        let mut k: usize = 0;
        while k < self.pairs.len()
            invariant
                0 <= k <= orig.len(),
                self.pairs@ == orig,
                forall|k1: int| 0 <= k1 < k ==> (#[trigger] orig[k1]).0@ != path@,
            decreases orig.len() - k,
        {
            if self.pairs[k].0 == path {
                let ghost old_pair = orig[k as int];
                self.pairs[k].1.push(node);
                proof {
                    let t = self.pairs@;
                    assert(t =~= orig.update(
                        k as int,
                        (old_pair.0, t[k as int].1),
                    ));
                    assert(t[k as int].1@ == old_pair.1@.push(node));
                    lemma_pending_total_split(orig, k as int);
                    lemma_pending_total_split(t, k as int);
                    assert(t.subrange(0, k as int) =~= orig.subrange(0, k as int));
                    let sufo = orig.subrange(k as int, orig.len() as int);
                    let suft = t.subrange(k as int, t.len() as int);
                    assert(sufo[0] == orig[k as int] && suft[0] == t[k as int]);
                    assert(sufo.subrange(1, sufo.len() as int) =~= suft.subrange(
                        1,
                        suft.len() as int,
                    ));
                    assert(old_pair.1@.push(node) =~= old_pair.1@ + seq![node]);
                    lemma_total_seq_split(old_pair.1@ + seq![node], old_pair.1@.len() as int);
                    assert((old_pair.1@ + seq![node]).subrange(0, old_pair.1@.len() as int)
                        =~= old_pair.1@);
                    let single = (old_pair.1@ + seq![node]).subrange(
                        old_pair.1@.len() as int,
                        old_pair.1@.len() as int + 1,
                    );
                    assert(single =~= seq![node]);
                    assert(seq![node][0] == node);
                    assert(seq![node].subrange(1, 1) =~= Seq::<DiskEntry>::empty());
                    assert(spec_total_seq(Seq::<DiskEntry>::empty()) == 0);
                    assert(spec_count_seq(Seq::<DiskEntry>::empty()) == 0);
                    assert(spec_total_seq(seq![node]) == spec_total(node));
                    lemma_count_seq_split(old_pair.1@ + seq![node], old_pair.1@.len() as int);
                    assert(spec_count_seq(seq![node]) == spec_count(node));
                    lemma_pending_count_split(orig, k as int);
                    lemma_pending_count_split(t, k as int);
                    lemma_pending_facts_split(orig, k as int);
                    lemma_pending_facts_split(t, k as int);
                    lemma_forest_facts_split(old_pair.1@ + seq![node], old_pair.1@.len() as int);
                    assert(seq![node][0] == node);
                    assert(seq![node].subrange(1, 1) =~= Seq::<DiskEntry>::empty());
                    assert(spec_forest_facts_ms(Seq::<DiskEntry>::empty())
                        =~= Multiset::<NodeFacts>::empty());
                    assert(spec_forest_facts_ms(seq![node]) =~= spec_tree_facts_ms(node).add(
                        Multiset::<NodeFacts>::empty(),
                    ));
                    assert(spec_pending_facts_ms(sufo) == spec_forest_facts_ms(old_pair.1@).add(
                        spec_pending_facts_ms(sufo.subrange(1, sufo.len() as int)),
                    ));
                    assert(spec_pending_facts_ms(suft) == spec_forest_facts_ms(t[k as int].1@).add(
                        spec_pending_facts_ms(suft.subrange(1, suft.len() as int)),
                    ));
                    assert(spec_forest_facts_ms(t[k as int].1@) =~= spec_forest_facts_ms(
                        old_pair.1@,
                    ).add(spec_tree_facts_ms(node)));
                    assert(spec_pending_facts_ms(t) =~= spec_pending_facts_ms(orig).add(
                        spec_tree_facts_ms(node),
                    ));
                    assert(spec_pending_total(sufo) == spec_total_seq(old_pair.1@)
                        + spec_pending_total(sufo.subrange(1, sufo.len() as int)));
                    assert(spec_pending_total(suft) == spec_total_seq(t[k as int].1@)
                        + spec_pending_total(suft.subrange(1, suft.len() as int)));
                    assert(spec_pending_count(sufo) == spec_count_seq(old_pair.1@)
                        + spec_pending_count(sufo.subrange(1, sufo.len() as int)));
                    assert(spec_pending_count(suft) == spec_count_seq(t[k as int].1@)
                        + spec_pending_count(suft.subrange(1, suft.len() as int)));
                }
                return ;
            }
            k = k + 1;
        }
        let mut fresh: Vec<DiskEntry> = Vec::new();
        fresh.push(node);
        proof {
            assert(fresh@ =~= seq![node]);
            assert(seq![node][0] == node);
            assert(seq![node].subrange(1, 1) =~= Seq::<DiskEntry>::empty());
            assert(spec_total_seq(Seq::<DiskEntry>::empty()) == 0);
            assert(spec_count_seq(Seq::<DiskEntry>::empty()) == 0);
            assert(spec_total_seq(fresh@) == spec_total(node));
            assert(spec_count_seq(fresh@) == spec_count(node));
            assert(spec_forest_facts_ms(Seq::<DiskEntry>::empty())
                =~= Multiset::<NodeFacts>::empty());
            assert(spec_forest_facts_ms(fresh@) =~= spec_tree_facts_ms(node));
        }
        let ghost pre = self.pairs@;
        self.pairs.push((path, fresh));
        proof {
            let t = self.pairs@;
            assert(t == pre.push(t[pre.len() as int]));
            lemma_pending_total_split(t, pre.len() as int);
            assert(t.subrange(0, pre.len() as int) =~= pre);
            let single = t.subrange(pre.len() as int, t.len() as int);
            assert(single[0] == t[pre.len() as int]);
            assert(single.subrange(1, single.len() as int) =~= Seq::<(
                String,
                Vec<DiskEntry>,
            )>::empty());
            assert(spec_pending_total(Seq::<(String, Vec<DiskEntry>)>::empty()) == 0);
            assert(spec_pending_count(Seq::<(String, Vec<DiskEntry>)>::empty()) == 0);
            assert(spec_pending_facts_ms(Seq::<(String, Vec<DiskEntry>)>::empty())
                =~= Multiset::<NodeFacts>::empty());
            assert(spec_pending_total(single) == spec_total_seq(t[pre.len() as int].1@)
                + spec_pending_total(single.subrange(1, single.len() as int)));
            assert(spec_pending_count(single) == spec_count_seq(t[pre.len() as int].1@)
                + spec_pending_count(single.subrange(1, single.len() as int)));
            lemma_pending_count_split(t, pre.len() as int);
            lemma_pending_facts_split(t, pre.len() as int);
            assert(spec_pending_facts_ms(single) == spec_forest_facts_ms(
                t[pre.len() as int].1@,
            ).add(spec_pending_facts_ms(single.subrange(1, single.len() as int))));
            assert(spec_pending_facts_ms(t) =~= spec_pending_facts_ms(pre).add(
                spec_tree_facts_ms(node),
            ));
        }
    }
}


/// Nothing, or the total size of the one tree present.
pub open spec fn spec_opt_total(r: Option<DiskEntry>) -> nat {
    match r {
        Some(t) => spec_total(t),
        None => 0,
    }
}

/// Nothing, or the node count of the one tree present.
pub open spec fn spec_opt_count(r: Option<DiskEntry>) -> nat {
    match r {
        Some(t) => spec_count(t),
        None => 0,
    }
}

/// A sound row of the pending table while the first `k` entries of `s` are
/// still unprocessed: the row's path is still coming; every tree parked in
/// it is well formed, sits one level below that path's entry, hangs its
/// own children under their recorded parents, and was itself reported with
/// the row's path as its parent.
pub open spec fn spec_pair_ok(
    pair: (String, Vec<DiskEntry>),
    s: Seq<FlatEntry>,
    m: Multiset<FlatEntry>,
    k: int,
) -> bool {
    &&& exists|j: int| 0 <= j < k && (#[trigger] s[j]).path@ == pair.0@
    &&& forall|mm: int, j: int|
        #![trigger pair.1@[mm], s[j]]
        0 <= mm < pair.1@.len() && 0 <= j < k && s[j].path@ == pair.0@ ==> spec_tree_wf(
            pair.1@[mm],
        ) && pair.1@[mm].depth == s[j].depth + 1
    &&& forall|mm: int|
        0 <= mm < pair.1@.len() ==> spec_children_linked(#[trigger] pair.1@[mm], m) && (exists|
            f: FlatEntry,
        |
            #[trigger] m.count(f) > 0 && f.path@ == pair.1@[mm].path@ && f.parent is Some && (
            f.parent->0)@ == pair.0@)
}

impl PendingMap {
    /// Every row of the table is sound for `s` with `k` entries left.
    spec fn all_ok(self, s: Seq<FlatEntry>, m: Multiset<FlatEntry>, k: int) -> bool {
        forall|kk: int|
            0 <= kk < self.pairs@.len() ==> spec_pair_ok(#[trigger] self.pairs@[kk], s, m, k)
    }
}

/// In a coherent report, no two places in the list hold root entries.
proof fn lemma_no_two_roots(s: Seq<FlatEntry>, m: Multiset<FlatEntry>, i: int, j: int)
    requires
        spec_entries_wf(m),
        m == s.to_multiset(),
        0 <= i < j < s.len(),
    ensures
        !(s[i].depth == 0 && s[j].depth == 0),
{
    broadcast use group_to_multiset_ensures;

    if s[i].depth == 0 && s[j].depth == 0 {
        assert(s.contains(s[i]));
        assert(s.contains(s[j]));
        assert(m.count(s[i]) > 0);
        assert(m.count(s[j]) > 0);
        if s[i] == s[j] {
            lemma_dup_count(s, i, j);
        } else {
            assert(false);
        }
    }
}

/// In a coherent report, a deeper entry names a parent path; that path's
/// own entry sits one level up and, in a depth-ordered list, strictly
/// before every processed position.
proof fn lemma_parent_facts(s: Seq<FlatEntry>, m: Multiset<FlatEntry>, k: int)
    requires
        spec_entries_wf(m),
        m == s.to_multiset(),
        spec_sorted_by_depth_asc(s),
        1 <= k <= s.len(),
        s[k - 1].depth > 0,
    ensures
        s[k - 1].parent is Some,
        exists|j: int| 0 <= j < k - 1 && (#[trigger] s[j]).path@ == (s[k - 1].parent->0)@,
        forall|j: int|
            0 <= j < k - 1 && (#[trigger] s[j]).path@ == (s[k - 1].parent->0)@ ==> s[j].depth + 1
                == s[k - 1].depth,
{
    broadcast use group_to_multiset_ensures;

    let e = s[k - 1];
    assert(s.contains(e));
    assert(m.count(e) > 0);
    let pe = choose|pe: FlatEntry|
        #[trigger] m.count(pe) > 0 && e.parent is Some && (e.parent->0)@ == pe.path@ && pe.depth
            + 1 == e.depth;
    assert(s.contains(pe));
    let jp = choose|jp: int| 0 <= jp < s.len() && s[jp] == pe;
    assert(jp < k - 1) by {
        if jp >= k - 1 {
            assert(s[k - 1].depth <= s[jp].depth);
        }
    }
    assert(0 <= jp < k - 1 && s[jp].path@ == (e.parent->0)@);
    assert forall|j: int|
        0 <= j < k - 1 && (#[trigger] s[j]).path@ == (e.parent->0)@ implies s[j].depth + 1
            == e.depth by {
        assert(s.contains(s[j]));
        assert(m.count(s[j]) > 0);
        if s[j] != pe {
            assert(s[j].path@ != pe.path@);
            assert(false);
        }
    }
}

/// Sums the own sizes of the whole list, or reports that they pass what a
/// 64-bit counter can hold.
fn total_of_entries(entries: &Vec<FlatEntry>) -> (r: Option<u64>)
    ensures
        r matches Some(t) ==> t == spec_sum_sizes(entries@) && spec_sum_sizes(entries@)
            <= u64::MAX,
        r is None ==> spec_sum_sizes(entries@) > u64::MAX,
    decreases entries@.len(),
{
    let ghost input = entries@;
    let mut sum: u64 = 0;
    let mut i: usize = 0;
    proof {
        assert(input.subrange(0, 0) =~= Seq::<FlatEntry>::empty());
        assert(spec_sum_sizes(Seq::<FlatEntry>::empty()) == 0);
    }
    while i < entries.len()
        invariant
            0 <= i <= input.len(),
            entries@ == input,
            sum == spec_sum_sizes(input.subrange(0, i as int)),
        decreases input.len() - i,
    {
        let sz = entries[i].size;
        proof {
            lemma_sum_sizes_split(input, i as int + 1);
            lemma_sum_sizes_split(input.subrange(0, i as int + 1), i as int);
            assert(input.subrange(0, i as int + 1).subrange(0, i as int) =~= input.subrange(
                0,
                i as int,
            ));
            let single = input.subrange(0, i as int + 1).subrange(i as int, i as int + 1);
            assert(single[0] == input[i as int]);
            assert(single.subrange(1, 1) =~= Seq::<FlatEntry>::empty());
            assert(spec_sum_sizes(Seq::<FlatEntry>::empty()) == 0);
            assert(spec_sum_sizes(single) == input[i as int].size);
            assert(spec_sum_sizes(input) >= spec_sum_sizes(input.subrange(0, i as int + 1)));
        }
        if sz > u64::MAX - sum {
            return None;
        }
        sum = sum + sz;
        i = i + 1;
    }
    proof {
        assert(input.subrange(0, input.len() as int) =~= input);
    }
    Some(sum)
}

/// Assembles the flat walk report into a single ownership tree. Entries are
/// taken deepest first, so every node's children are finished before the
/// node itself; a finished node waits in a pending table under its parent's
/// path until that parent's own entry is reached. A report that is empty,
/// that holds no root entry, or whose sizes together pass what a 64-bit
/// counter can hold is rejected.
#[verifier::rlimit(100)]
#[verifier::spinoff_prover]
pub fn build_tree(flat_entries: Vec<FlatEntry>) -> (r: Result<DiskEntry, DuskError>)
    ensures
        (r is Ok) <==> (flat_entries@.len() > 0 && spec_has_root(flat_entries@.to_multiset())
            && spec_sum_sizes(flat_entries@) <= u64::MAX),
        r matches Ok(t) ==> t.depth == 0 && spec_total(t) <= spec_sum_sizes(flat_entries@)
            && spec_count(t) <= flat_entries@.len(),
        r matches Ok(t) ==> (spec_entries_wf(flat_entries@.to_multiset()) ==> spec_total(t)
            == spec_sum_sizes(flat_entries@) && spec_count(t) == flat_entries@.len()
            && spec_tree_wf(t)),
        r matches Ok(t) ==> (spec_entries_wf(flat_entries@.to_multiset()) ==> spec_tree_facts_ms(
            t,
        ) =~= spec_entry_facts_ms(flat_entries@) && spec_children_linked(
            t,
            flat_entries@.to_multiset(),
        )),
        r matches Err(e) ==> e is TraversalError,
        flat_entries@.len() == 0 ==> (r matches Err(e)
            && e matches DuskError::TraversalError(msg) && msg@
            == "no entries found during traversal"@),
        flat_entries@.len() > 0 && spec_sum_sizes(flat_entries@) > u64::MAX ==> (r matches Err(e)
            && e matches DuskError::TraversalError(msg) && msg@
            == "total size exceeds the supported range"@),
        flat_entries@.len() > 0 && spec_sum_sizes(flat_entries@) <= u64::MAX && !spec_has_root(
            flat_entries@.to_multiset(),
        ) ==> (r matches Err(e) && e matches DuskError::TraversalError(msg) && msg@
            == "no root entry found"@),
{
    broadcast use group_to_multiset_ensures;

    let ghost input = flat_entries@;
    let ghost m = input.to_multiset();

    if flat_entries.is_empty() {
        return Err(DuskError::TraversalError("no entries found during traversal".to_owned()));
    }

    let grand_total = match total_of_entries(&flat_entries) {
        Some(total) => total,
        None => {
            return Err(DuskError::TraversalError(
                "total size exceeds the supported range".to_owned(),
            ));
        },
    };
    proof {
        assert(grand_total == spec_sum_sizes(input));
    }

    let mut stack = sort_by_depth(flat_entries);
    let ghost s = stack@;
    proof {
        lemma_sum_sizes_permutation(s, input);
    }

    let mut pending = PendingMap::new();
    let mut root: Option<DiskEntry> = None;
    proof {
        assert(s.subrange(0, s.len() as int) =~= s);
        assert(s.subrange(s.len() as int, s.len() as int) =~= Seq::<FlatEntry>::empty());
        assert(spec_sum_sizes(Seq::<FlatEntry>::empty()) == 0);
        assert(spec_entry_facts_ms(Seq::<FlatEntry>::empty()) =~= Multiset::<NodeFacts>::empty());
        lemma_entry_facts_permutation(s, input);
    }
    while stack.len() > 0
        invariant
            m == input.to_multiset(),
            s.to_multiset() == m,
            s.len() == input.len(),
            spec_sum_sizes(s) == spec_sum_sizes(input),
            spec_sum_sizes(s) <= u64::MAX,
            spec_sorted_by_depth_asc(s),
            stack@ =~= s.subrange(0, stack@.len() as int),
            spec_keys_distinct(pending.pairs@),
            spec_pending_total(pending.pairs@) + spec_opt_total(root) <= spec_sum_sizes(
                s.subrange(stack@.len() as int, s.len() as int),
            ),
            spec_pending_count(pending.pairs@) + spec_opt_count(root) <= s.len() - stack@.len(),
            (root is Some) <==> exists|j: int|
                stack@.len() <= j < s.len() && (#[trigger] s[j]).depth == 0,
            root matches Some(t) ==> t.depth == 0,
            spec_entries_wf(m) ==> spec_pending_total(pending.pairs@) + spec_opt_total(root)
                == spec_sum_sizes(s.subrange(stack@.len() as int, s.len() as int)),
            spec_entries_wf(m) ==> spec_pending_count(pending.pairs@) + spec_opt_count(root)
                == s.len() - stack@.len(),
            spec_entries_wf(m) ==> pending.all_ok(s, m, stack@.len() as int),
            spec_entries_wf(m) ==> (root matches Some(t) ==> spec_tree_wf(t)
                && spec_children_linked(t, m)),
            spec_entries_wf(m) ==> spec_pending_facts_ms(pending.pairs@).add(
                spec_opt_facts_ms(root),
            ) =~= spec_entry_facts_ms(s.subrange(stack@.len() as int, s.len() as int)),
        decreases stack@.len(),
    {
        broadcast use group_to_multiset_ensures;

        let ghost k = stack@.len() as int;
        let ghost done_old = s.subrange(k, s.len() as int);
        let ghost done_new = s.subrange(k - 1, s.len() as int);
        let e = stack.pop().unwrap();
        proof {
            assert(stack@ =~= s.subrange(0, k - 1));
            assert(e == s[k - 1]);
            assert(s.contains(e));
            assert(m.count(e) > 0);
            assert(done_new[0] == s[k - 1]);
            assert(done_new.subrange(1, done_new.len() as int) =~= done_old);
            assert(spec_sum_sizes(done_new) == e.size + spec_sum_sizes(done_old));
            assert(spec_entry_facts_ms(done_new) == spec_entry_facts_ms(done_old).insert(
                spec_entry_facts(e),
            ));
            lemma_sum_sizes_split(s, k - 1);
        }
        let ghost ps_before = pending.pairs@;
        let children = pending.take_children(&e.path);
        proof {
            if spec_entries_wf(m) {
                if exists|kk: int|
                    0 <= kk < ps_before.len() && (#[trigger] ps_before[kk]).0@ == e.path@ {
                    let kk = choose|kk: int|
                        0 <= kk < ps_before.len() && (#[trigger] ps_before[kk]).0@ == e.path@;
                    assert(spec_pair_ok(ps_before[kk], s, m, k));
                    assert(children == ps_before[kk].1);
                    assert forall|mm: int| 0 <= mm < children@.len() implies spec_tree_wf(
                        #[trigger] children@[mm],
                    ) && children@[mm].depth == e.depth + 1 && spec_children_linked(
                        children@[mm],
                        m,
                    ) && (exists|f: FlatEntry|
                        #[trigger] m.count(f) > 0 && f.path@ == children@[mm].path@
                            && f.parent is Some && (f.parent->0)@ == e.path@) by {
                        assert(children@[mm] == ps_before[kk].1@[mm]);
                        assert(s[k - 1].path@ == ps_before[kk].0@);
                        assert(spec_tree_wf(ps_before[kk].1@[mm]) && ps_before[kk].1@[mm].depth
                            == s[k - 1].depth + 1);
                    }
                } else {
                    assert(children@.len() == 0);
                }
                assert(forall|mm: int|
                    0 <= mm < children@.len() ==> spec_tree_wf(#[trigger] children@[mm])
                        && children@[mm].depth == e.depth + 1);
                assert(forall|mm: int|
                    0 <= mm < children@.len() ==> spec_children_linked(
                        #[trigger] children@[mm],
                        m,
                    ) && (exists|f: FlatEntry|
                        #[trigger] m.count(f) > 0 && f.path@ == children@[mm].path@
                            && f.parent is Some && (f.parent->0)@ == e.path@));
            }
            assert(spec_total_seq(Seq::<DiskEntry>::empty()) == 0);
            assert(spec_count_seq(Seq::<DiskEntry>::empty()) == 0);
        }
        let ghost ch = children@;
        let node = DiskEntry {
            path: e.path,
            size_bytes: e.size,
            entry_type: e.entry_type,
            depth: e.depth,
            children,
        };
        proof {
            assert(node.children@ == ch);
            assert(spec_total(node) == e.size + spec_total_seq(ch));
            assert(spec_count(node) == 1 + spec_count_seq(ch));
            assert(spec_tree_facts_ms(node) == spec_forest_facts_ms(ch).insert(
                spec_node_facts(node),
            ));
            assert(spec_node_facts(node) == spec_entry_facts(e));
            if spec_entries_wf(m) {
                assert(spec_tree_wf(node)) by {
                    assert(forall|mm: int|
                        0 <= mm < node.children@.len() ==> (#[trigger] node.children@[mm]).depth
                            == node.depth + 1 && spec_tree_wf(node.children@[mm]));
                }
                assert(spec_children_linked(node, m)) by {
                    assert(forall|mm: int|
                        0 <= mm < node.children@.len() ==> (exists|f: FlatEntry|
                            #[trigger] m.count(f) > 0 && f.path@
                                == (#[trigger] node.children@[mm]).path@ && f.parent is Some && (
                            f.parent->0)@ == node.path@) && spec_children_linked(
                            node.children@[mm],
                            m,
                        ));
                }
            }
        }
        if node.depth == 0 {
            proof {
                if spec_entries_wf(m) && root is Some {
                    let j = choose|j: int| k <= j < s.len() && (#[trigger] s[j]).depth == 0;
                    lemma_no_two_roots(s, m, k - 1, j);
                    assert(false);
                }
            }
            root = Some(node);
            proof {
                assert((root is Some) <==> exists|j: int|
                    k - 1 <= j < s.len() && (#[trigger] s[j]).depth == 0) by {
                    assert(s[k - 1].depth == 0);
                }
            }
        } else {
            proof {
                if spec_entries_wf(m) {
                    lemma_parent_facts(s, m, k);
                }
            }
            match e.parent {
                Some(p) => {
                    let ghost ps_mid = pending.pairs@;
                    pending.push_child(p, node);
                    proof {
                        if spec_entries_wf(m) {
                            assert forall|kk: int|
                                0 <= kk < pending.pairs@.len() implies spec_pair_ok(
                                #[trigger] pending.pairs@[kk],
                                s,
                                m,
                                k - 1,
                            ) by {
                                assert(m.count(e) > 0 && e.path@ == node.path@ && e.parent is Some
                                    && (e.parent->0)@ == p@);
                                lemma_pair_ok_after_push(
                                    ps_mid,
                                    pending.pairs@,
                                    s,
                                    m,
                                    k,
                                    kk,
                                    p@,
                                    node,
                                    e,
                                );
                            }
                        }
                    }
                },
                None => {
                    proof {
                        if spec_entries_wf(m) {
                            assert(e.parent is Some);
                            assert(false);
                        }
                    }
                },
            }
            proof {
                assert((root is Some) <==> exists|j: int|
                    k - 1 <= j < s.len() && (#[trigger] s[j]).depth == 0) by {
                    if root is Some {
                        let j = choose|j: int| k <= j < s.len() && (#[trigger] s[j]).depth == 0;
                        assert(k - 1 <= j < s.len() && s[j].depth == 0);
                    }
                    if exists|j: int| k - 1 <= j < s.len() && (#[trigger] s[j]).depth == 0 {
                        let j = choose|j: int|
                            k - 1 <= j < s.len() && (#[trigger] s[j]).depth == 0;
                        assert(s[k - 1].depth != 0);
                        assert(k <= j < s.len() && s[j].depth == 0);
                    }
                }
            }
        }
    }
    proof {
        assert(s.subrange(0 as int, s.len() as int) =~= s);
        if spec_entries_wf(m) && pending.pairs@.len() > 0 {
            assert(spec_pair_ok(pending.pairs@[0], s, m, 0));
            assert(false);
        }
        if spec_entries_wf(m) {
            assert(pending.pairs@.len() == 0);
            assert(spec_pending_total(pending.pairs@) == 0);
            assert(spec_pending_count(pending.pairs@) == 0);
            assert(spec_pending_facts_ms(pending.pairs@) =~= Multiset::<NodeFacts>::empty());
            if root is Some {
                let t = root->0;
                assert(spec_tree_facts_ms(t) =~= spec_entry_facts_ms(s));
                assert(spec_tree_facts_ms(t) =~= spec_entry_facts_ms(input));
            }
        }
        assert((root is Some) <==> spec_has_root(m)) by {
            if root is Some {
                let j = choose|j: int| 0 <= j < s.len() && (#[trigger] s[j]).depth == 0;
                assert(s.contains(s[j]));
                assert(m.count(s[j]) > 0);
            }
            if spec_has_root(m) {
                let e0 = choose|e0: FlatEntry| #[trigger] m.count(e0) > 0 && e0.depth == 0;
                assert(s.contains(e0));
                let j = choose|j: int| 0 <= j < s.len() && s[j] == e0;
            }
        }
    }
    match root {
        Some(t) => Ok(t),
        None => Err(DuskError::TraversalError("no root entry found".to_owned())),
    }
}

/// After one child is parked, every row of the table is still sound for a
/// report with one entry fewer to come.
proof fn lemma_pair_ok_after_push(
    before: Seq<(String, Vec<DiskEntry>)>,
    after: Seq<(String, Vec<DiskEntry>)>,
    s: Seq<FlatEntry>,
    m: Multiset<FlatEntry>,
    k: int,
    kk: int,
    key: Seq<char>,
    node: DiskEntry,
    e: FlatEntry,
)
    requires
        0 <= kk < after.len(),
        1 <= k <= s.len(),
        e == s[k - 1],
        forall|k1: int| 0 <= k1 < before.len() ==> spec_pair_ok(#[trigger] before[k1], s, m, k)
            && before[k1].0@ != e.path@,
        exists|j: int| 0 <= j < k - 1 && (#[trigger] s[j]).path@ == key,
        forall|j: int| 0 <= j < k - 1 && (#[trigger] s[j]).path@ == key ==> s[j].depth + 1
            == e.depth,
        spec_tree_wf(node),
        node.depth == e.depth,
        spec_children_linked(node, m),
        exists|f: FlatEntry|
            #[trigger] m.count(f) > 0 && f.path@ == node.path@ && f.parent is Some && (
            f.parent->0)@ == key,
        // the push either extended one row or appended a new one
        (exists|k1: int| 0 <= k1 < before.len() && (#[trigger] before[k1]).0@ == key)
            ==> (after.len() == before.len() && (forall|k1: int|
            0 <= k1 < before.len() && (#[trigger] before[k1]).0@ == key ==> (forall|k2: int|
                0 <= k2 < before.len() && k2 != k1 ==> #[trigger] after[k2] == before[k2])
                && after[k1].0 == before[k1].0 && after[k1].1@ == before[k1].1@.push(node))),
        (forall|k1: int| 0 <= k1 < before.len() ==> (#[trigger] before[k1]).0@ != key) ==> (
        after.len() == before.len() + 1 && (forall|k2: int|
            0 <= k2 < before.len() ==> #[trigger] after[k2] == before[k2]) && after[before.len()
            as int].0@ == key && after[before.len() as int].1@ == seq![node]),
    ensures
        spec_pair_ok(after[kk], s, m, k - 1),
{
    if exists|k1: int| 0 <= k1 < before.len() && (#[trigger] before[k1]).0@ == key {
        let k1 = choose|k1: int| 0 <= k1 < before.len() && (#[trigger] before[k1]).0@ == key;
        if kk == k1 {
            assert(after[kk].0@ == key);
            assert(forall|mm: int|
                0 <= mm < before[k1].1@.len() ==> #[trigger] after[kk].1@[mm] == before[k1].1@[mm]);
            assert(after[kk].1@[before[k1].1@.len() as int] == node);
            assert(spec_pair_ok(before[k1], s, m, k));
            lemma_pair_ok_narrow(before[k1], s, m, k, e);
            assert forall|mm: int, j: int|
                0 <= mm < after[kk].1@.len() && 0 <= j < k - 1 && s[j].path@ == after[kk].0@
                    implies spec_tree_wf(#[trigger] after[kk].1@[mm]) && after[kk].1@[mm].depth
                    == (#[trigger] s[j]).depth + 1 by {
                if mm < before[k1].1@.len() {
                    assert(after[kk].1@[mm] == before[k1].1@[mm]);
                } else {
                    assert(after[kk].1@[mm] == node);
                    assert(s[j].depth + 1 == e.depth);
                }
            }
            assert forall|mm: int| 0 <= mm < after[kk].1@.len() implies spec_children_linked(
                #[trigger] after[kk].1@[mm],
                m,
            ) && (exists|f: FlatEntry|
                #[trigger] m.count(f) > 0 && f.path@ == after[kk].1@[mm].path@ && f.parent is Some
                    && (f.parent->0)@ == after[kk].0@) by {
                if mm < before[k1].1@.len() {
                    assert(after[kk].1@[mm] == before[k1].1@[mm]);
                } else {
                    assert(after[kk].1@[mm] == node);
                }
            }
        } else {
            assert(after[kk] == before[kk]);
            lemma_pair_ok_narrow(before[kk], s, m, k, e);
        }
    } else {
        if kk < before.len() {
            assert(after[kk] == before[kk]);
            lemma_pair_ok_narrow(before[kk], s, m, k, e);
        } else {
            assert(kk == before.len());
            assert(after[kk].0@ == key);
            assert(after[kk].1@ == seq![node]);
            assert(seq![node][0] == node);
            assert forall|mm: int, j: int|
                0 <= mm < after[kk].1@.len() && 0 <= j < k - 1 && s[j].path@ == after[kk].0@
                    implies spec_tree_wf(#[trigger] after[kk].1@[mm]) && after[kk].1@[mm].depth
                    == (#[trigger] s[j]).depth + 1 by {
                assert(after[kk].1@[mm] == node);
                assert(s[j].depth + 1 == e.depth);
            }
            assert forall|mm: int| 0 <= mm < after[kk].1@.len() implies spec_children_linked(
                #[trigger] after[kk].1@[mm],
                m,
            ) && (exists|f: FlatEntry|
                #[trigger] m.count(f) > 0 && f.path@ == after[kk].1@[mm].path@ && f.parent is Some
                    && (f.parent->0)@ == after[kk].0@) by {
                assert(after[kk].1@[mm] == node);
            }
        }
    }
}

/// A row sound while `k` entries were left, whose path is not the entry
/// just processed, is still sound with `k - 1` left.
proof fn lemma_pair_ok_narrow(
    pair: (String, Vec<DiskEntry>),
    s: Seq<FlatEntry>,
    m: Multiset<FlatEntry>,
    k: int,
    e: FlatEntry,
)
    requires
        1 <= k <= s.len(),
        e == s[k - 1],
        spec_pair_ok(pair, s, m, k),
        pair.0@ != e.path@,
    ensures
        spec_pair_ok(pair, s, m, k - 1),
{
    let j = choose|j: int| 0 <= j < k && (#[trigger] s[j]).path@ == pair.0@;
    assert(j != k - 1);
    assert(0 <= j < k - 1 && s[j].path@ == pair.0@);
}

#[verifier::external_type_specification]
#[verifier::external_body]
pub struct ExDirEntry(walkdir::DirEntry);

#[verifier::external_type_specification]
#[verifier::external_body]
pub struct ExThreadPool(rayon::ThreadPool);

/// Relies on Path::canonicalize: resolves the root to a real, absolute
/// path, or reports that it cannot be resolved.
#[verifier::external_body]
fn canonicalize_path(path: &str) -> Option<String> {
    match std::path::Path::new(path).canonicalize() {
        Ok(p) => Some(p.to_string_lossy().into_owned()),
        Err(_) => None,
    }
}

/// Relies on walkdir's WalkDir: enumerates the root and every reachable
/// descendant without following symbolic links; entries that cannot be
/// read are skipped.
#[verifier::external_body]
fn walk_dir_entries(root: &String) -> Vec<walkdir::DirEntry> {
    WalkDir::new(root.as_str()).follow_links(false).into_iter().filter_map(|r| r.ok()).collect()
}

/// Relies on walkdir's DirEntry::path: the entry's full path.
#[verifier::external_body]
fn entry_path(de: &walkdir::DirEntry) -> String {
    de.path().to_string_lossy().into_owned()
}

/// Relies on Path::parent: the path of the directory holding this entry,
/// or nothing for a filesystem root.
#[verifier::external_body]
fn entry_parent(de: &walkdir::DirEntry) -> Option<String> {
    match de.path().parent() {
        Some(p) => Some(p.to_string_lossy().into_owned()),
        None => None,
    }
}

/// Relies on DirEntry::metadata and Metadata::len: the entry's own size in
/// bytes, taken as zero when the metadata cannot be read.
#[verifier::external_body]
fn entry_size(de: &walkdir::DirEntry) -> u64 {
    de.metadata().map(|md| md.len()).unwrap_or(0)
}

/// Relies on DirEntry::file_type and FileType::is_dir: whether the entry
/// is a directory.
#[verifier::external_body]
fn entry_is_dir(de: &walkdir::DirEntry) -> bool {
    de.file_type().is_dir()
}

/// Relies on DirEntry::file_type and FileType::is_symlink: whether the
/// entry is a symbolic link.
#[verifier::external_body]
fn entry_is_symlink(de: &walkdir::DirEntry) -> bool {
    de.file_type().is_symlink()
}

/// Relies on DirEntry::file_type and FileType::is_file: whether the entry
/// is a regular file.
#[verifier::external_body]
fn entry_is_file(de: &walkdir::DirEntry) -> bool {
    de.file_type().is_file()
}

/// The kind an entry with these three test results counts as: a directory
/// first, else a symbolic link, else a regular file, else one of the
/// special kinds — a device, a pipe, a socket.
pub open spec fn spec_classify_kind(is_dir: bool, is_symlink: bool, is_file: bool) -> EntryType {
    if is_dir {
        EntryType::Directory
    } else if is_symlink {
        EntryType::Symlink
    } else if is_file {
        EntryType::File
    } else {
        EntryType::Other
    }
}

/// Decides the kind of an entry from its three filesystem-type tests.
pub fn classify_kind(is_dir: bool, is_symlink: bool, is_file: bool) -> (r: EntryType)
    ensures
        r == spec_classify_kind(is_dir, is_symlink, is_file),
{
    if is_dir {
        EntryType::Directory
    } else if is_symlink {
        EntryType::Symlink
    } else if is_file {
        EntryType::File
    } else {
        EntryType::Other
    }
}

/// Which of the four kinds of filesystem object the entry is, decided by
/// `classify_kind` over the walk's type tests.
fn entry_kind(de: &walkdir::DirEntry) -> EntryType {
    let is_dir = entry_is_dir(de);
    let is_symlink = entry_is_symlink(de);
    let is_file = entry_is_file(de);
    classify_kind(is_dir, is_symlink, is_file)
}

/// Relies on DirEntry::depth: how many steps below the walk's root the
/// entry sits, zero for the root itself.
#[verifier::external_body]
fn entry_depth(de: &walkdir::DirEntry) -> usize {
    de.depth()
}

/// Resolves one enumerated entry to the flat record the tree builder
/// consumes.
fn flat_entry_of(de: &walkdir::DirEntry) -> FlatEntry {
    let path = entry_path(de);
    let parent = entry_parent(de);
    let size = entry_size(de);
    let entry_type = entry_kind(de);
    let depth = entry_depth(de);
    FlatEntry { path, parent, size, entry_type, depth }
}

/// Relies on rayon's ThreadPoolBuilder: a worker pool of the asked-for
/// width, or of rayon's default width — ordinarily one worker per logical
/// processor — when none is named; the error is the builder's own account
/// of why no pool could be made.
#[verifier::external_body]
fn build_worker_pool(num_threads: Option<usize>) -> Result<rayon::ThreadPool, String> {
    let builder = match num_threads {
        Some(n) => rayon::ThreadPoolBuilder::new().num_threads(n),
        None => rayon::ThreadPoolBuilder::new(),
    };
    builder.build().map_err(|e| e.to_string())
}

/// Relies on rayon's parallel iterator: maps every enumerated entry to its
/// flat record on the pool's workers, one output per input.
#[verifier::external_body]
fn collect_entries_parallel(pool: &rayon::ThreadPool, des: &Vec<walkdir::DirEntry>) -> (r: Vec<
    FlatEntry,
>)
    ensures
        r@.len() == des@.len(),
{
    pool.install(|| des.par_iter().map(|de| flat_entry_of(de)).collect())
}

/// Walks the filesystem from `path` and builds the tree, reading each
/// entry's metadata in turn; an optional depth limit collapses the result.
pub fn traverse(path: &str, max_depth: Option<usize>) -> (r: Result<DiskEntry, DuskError>)
    ensures
        r matches Ok(t) ==> t.depth == 0 && spec_total(t) <= u64::MAX,
        r matches Ok(t) ==> (max_depth matches Some(d) ==> spec_collapsed(t, 0, d as int)),
        r matches Err(e) ==> e is PathNotFound || e is TraversalError,
        r matches Err(e) ==> (e matches DuskError::PathNotFound(p) ==> p@ == path@),
{
    let root = match canonicalize_path(path) {
        Some(root) => root,
        None => {
            return Err(DuskError::PathNotFound(path.to_owned()));
        },
    };
    let dir_entries = walk_dir_entries(&root);
    let mut flat_entries: Vec<FlatEntry> = Vec::new();
    let mut i: usize = 0;
    while i < dir_entries.len()
        decreases dir_entries@.len() - i,
    {
        let fe = flat_entry_of(&dir_entries[i]);
        flat_entries.push(fe);
        i = i + 1;
    }
    finish_tree(flat_entries, max_depth)
}

/// Walks the filesystem from `path` and builds the tree, reading the
/// entries' metadata on a worker pool; an optional depth limit collapses
/// the result.
pub fn traverse_parallel(path: &str, max_depth: Option<usize>, num_threads: Option<usize>) -> (r:
    Result<DiskEntry, DuskError>)
    ensures
        r matches Ok(t) ==> t.depth == 0 && spec_total(t) <= u64::MAX,
        r matches Ok(t) ==> (max_depth matches Some(d) ==> spec_collapsed(t, 0, d as int)),
        r matches Err(e) ==> e is PathNotFound || e is TraversalError,
        r matches Err(e) ==> (e matches DuskError::PathNotFound(p) ==> p@ == path@),
{
    let root = match canonicalize_path(path) {
        Some(root) => root,
        None => {
            return Err(DuskError::PathNotFound(path.to_owned()));
        },
    };
    let dir_entries = walk_dir_entries(&root);
    let pool = match build_worker_pool(num_threads) {
        Ok(pool) => pool,
        Err(msg) => {
            return Err(DuskError::TraversalError(msg));
        },
    };
    let flat_entries = collect_entries_parallel(&pool, &dir_entries);
    finish_tree(flat_entries, max_depth)
}

/// The shared tail of both walks: build the tree from the flat records and
/// apply the depth limit.
fn finish_tree(flat_entries: Vec<FlatEntry>, max_depth: Option<usize>) -> (r: Result<
    DiskEntry,
    DuskError,
>)
    ensures
        (r is Ok) <==> (flat_entries@.len() > 0 && spec_has_root(flat_entries@.to_multiset())
            && spec_sum_sizes(flat_entries@) <= u64::MAX),
        r matches Ok(t) ==> t.depth == 0 && spec_total(t) <= spec_sum_sizes(flat_entries@)
            && spec_total(t) <= u64::MAX,
        r matches Ok(t) ==> (spec_entries_wf(flat_entries@.to_multiset()) ==> spec_total(t)
            == spec_sum_sizes(flat_entries@)),
        r matches Ok(t) ==> (spec_entries_wf(flat_entries@.to_multiset()) && max_depth is None
            ==> spec_count(t) == flat_entries@.len() && spec_tree_wf(t) && spec_tree_facts_ms(t)
            =~= spec_entry_facts_ms(flat_entries@) && spec_children_linked(
            t,
            flat_entries@.to_multiset(),
        )),
        r matches Ok(t) ==> (max_depth matches Some(d) ==> spec_collapsed(t, 0, d as int)),
        r matches Err(e) ==> e is TraversalError,
{
    let ghost input = flat_entries@;
    match build_tree(flat_entries) {
        Ok(mut tree) => {
            proof {
                assert(spec_total(tree) <= spec_sum_sizes(input));
            }
            match max_depth {
                Some(d) => {
                    tree.collapse_to_depth(d);
                },
                None => {},
            }
            Ok(tree)
        },
        Err(e) => Err(e),
    }
}

} // verus!
