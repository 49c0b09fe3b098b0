//! The disk-usage tree: node type, size accounting, depth collapsing and
//! recursive sorting of children.

use vstd::prelude::*;

verus! {

use vstd::utf8::encode_utf8;

/// The kind of filesystem object a tree node stands for.
#[derive(Debug, Clone, PartialEq, Eq, Structural)]
pub enum EntryType {
    File,
    Directory,
    Symlink,
    Other,
}

/// How the children of every directory node are ordered by `sort_entries`.
#[derive(Debug, Clone, PartialEq, Eq, Structural)]
pub enum SortOrder {
    Unsorted,
    SizeAscending,
    SizeDescending,
    Name,
}

impl SortOrder {
    /// Parses the command-line spelling of a sort order.
    pub fn parse(s: &str) -> (r: Option<SortOrder>)
        ensures
            s@ == "none"@ ==> r == Some(SortOrder::Unsorted),
            s@ == "size"@ ==> r == Some(SortOrder::SizeDescending),
            s@ == "size-asc"@ ==> r == Some(SortOrder::SizeAscending),
            s@ == "name"@ ==> r == Some(SortOrder::Name),
            s@ != "none"@ && s@ != "size"@ && s@ != "size-asc"@ && s@ != "name"@ ==> r is None,
    {
        proof {
            reveal_strlit("none");
            reveal_strlit("size");
            reveal_strlit("size-asc");
            reveal_strlit("name");
            assert("none"@[0] == 'n');
            assert("none"@[1] == 'o');
            assert("size"@[0] == 's');
            assert("size"@[1] == 'i');
            assert("name"@[0] == 'n');
            assert("name"@[1] == 'a');
            assert("none"@.len() == 4);
            assert("size"@.len() == 4);
            assert("name"@.len() == 4);
            assert("size-asc"@.len() == 8);
        }
        let t = s.to_owned();
        if t == "none".to_owned() {
            Some(SortOrder::Unsorted)
        } else if t == "size".to_owned() {
            Some(SortOrder::SizeDescending)
        } else if t == "size-asc".to_owned() {
            Some(SortOrder::SizeAscending)
        } else if t == "name".to_owned() {
            Some(SortOrder::Name)
        } else {
            None
        }
    }
}

/// One node of the disk-usage tree. `size_bytes` is the size attributed to
/// the node itself; the sizes of descendants live in `children`.
#[derive(Debug)]
pub struct DiskEntry {
    pub path: String,
    pub size_bytes: u64,
    pub entry_type: EntryType,
    pub depth: usize,
    pub children: Vec<DiskEntry>,
}

/// The total size of a node: its own size plus the total size of every child.
pub open spec fn spec_total(e: DiskEntry) -> nat
    decreases e,
{
    (e.size_bytes as nat) + spec_total_seq(e.children@)
}

/// The summed total size of a sequence of nodes.
pub open spec fn spec_total_seq(s: Seq<DiskEntry>) -> nat
    decreases s,
{
    if s.len() == 0 {
        0
    } else {
        spec_total(s[0]) + spec_total_seq(s.subrange(1, s.len() as int))
    }
}

/// The number of nodes in a tree.
pub open spec fn spec_count(e: DiskEntry) -> nat
    decreases e,
{
    (1 as nat) + spec_count_seq(e.children@)
}

/// The number of nodes in a forest.
pub open spec fn spec_count_seq(s: Seq<DiskEntry>) -> nat
    decreases s,
{
    if s.len() == 0 {
        0
    } else {
        spec_count(s[0]) + spec_count_seq(s.subrange(1, s.len() as int))
    }
}

/// A structurally well-formed tree: every child sits one level below its
/// parent, so exactly one node (the root itself) carries the root's depth.
pub open spec fn spec_tree_wf(e: DiskEntry) -> bool
    decreases e,
{
    forall|i: int|
        0 <= i < e.children@.len() ==> (#[trigger] e.children@[i]).depth == e.depth + 1
            && spec_tree_wf(e.children@[i])
}

/// The height of a tree: one more than the height of its tallest child.
pub open spec fn spec_height(e: DiskEntry) -> nat
    decreases e,
{
    1 + spec_height_seq(e.children@)
}

/// The height of the tallest tree in a forest.
pub open spec fn spec_height_seq(s: Seq<DiskEntry>) -> nat
    decreases s,
{
    if s.len() == 0 {
        0
    } else if spec_height(s[0]) >= spec_height_seq(s.subrange(1, s.len() as int)) {
        spec_height(s[0])
    } else {
        spec_height_seq(s.subrange(1, s.len() as int))
    }
}

/// Every tree in a forest is at most as tall as the forest.
pub proof fn lemma_height_seq_bound(s: Seq<DiskEntry>, i: int)
    requires
        0 <= i < s.len(),
    ensures
        spec_height(s[i]) <= spec_height_seq(s),
    decreases s.len(),
{
    if i > 0 {
        let tail = s.subrange(1, s.len() as int);
        lemma_height_seq_bound(tail, i - 1);
        assert(tail[i - 1] == s[i]);
    }
}

/// After a collapse pass that visited this node at recursion depth `at`,
/// no node at or below the limit keeps a child.
pub open spec fn spec_collapsed(e: DiskEntry, at: int, max_depth: int) -> bool
    decreases e,
{
    &&& (at >= max_depth ==> e.children@.len() == 0)
    &&& forall|i: int|
        0 <= i < e.children@.len() ==> spec_collapsed(#[trigger] e.children@[i], at + 1, max_depth)
}

/// `after` is exactly what collapsing `before` at recursion depth `at`
/// yields: a node at the limit absorbs its total size and loses its
/// children; a node above it keeps its own size and every child, each
/// collapsed in turn; path, kind and stored depth never change.
pub open spec fn spec_collapsed_from(
    after: DiskEntry,
    before: DiskEntry,
    at: int,
    max_depth: int,
) -> bool
    decreases before,
{
    &&& after.path == before.path
    &&& after.entry_type == before.entry_type
    &&& after.depth == before.depth
    &&& if at >= max_depth {
        after.size_bytes == spec_total(before) && after.children@.len() == 0
    } else {
        after.size_bytes == before.size_bytes && after.children@.len() == before.children@.len()
            && forall|i: int|
            0 <= i < before.children@.len() ==> spec_collapsed_from(
                #[trigger] after.children@[i],
                before.children@[i],
                at + 1,
                max_depth,
            )
    }
}

/// Two forests of equal length whose trees agree in total size have the
/// same summed total size.
pub proof fn lemma_total_seq_pointwise(s1: Seq<DiskEntry>, s2: Seq<DiskEntry>)
    requires
        s1.len() == s2.len(),
        forall|i: int| 0 <= i < s1.len() ==> spec_total(#[trigger] s1[i]) == spec_total(s2[i]),
    ensures
        spec_total_seq(s1) == spec_total_seq(s2),
    decreases s1.len(),
{
    if s1.len() > 0 {
        let t1 = s1.subrange(1, s1.len() as int);
        let t2 = s2.subrange(1, s2.len() as int);
        assert(forall|i: int| 0 <= i < t1.len() ==> spec_total(#[trigger] t1[i]) == spec_total(
            t2[i],
        )) by {
            assert(forall|i: int| 0 <= i < t1.len() ==> t1[i] == s1[i + 1] && t2[i] == s2[i + 1]);
        }
        lemma_total_seq_pointwise(t1, t2);
    }
}

/// Two forests of equal length whose trees agree in node count have the
/// same summed node count.
pub proof fn lemma_count_seq_pointwise(s1: Seq<DiskEntry>, s2: Seq<DiskEntry>)
    requires
        s1.len() == s2.len(),
        forall|i: int| 0 <= i < s1.len() ==> spec_count(#[trigger] s1[i]) == spec_count(s2[i]),
    ensures
        spec_count_seq(s1) == spec_count_seq(s2),
    decreases s1.len(),
{
    if s1.len() > 0 {
        let t1 = s1.subrange(1, s1.len() as int);
        let t2 = s2.subrange(1, s2.len() as int);
        assert(forall|i: int| 0 <= i < t1.len() ==> spec_count(#[trigger] t1[i]) == spec_count(
            t2[i],
        )) by {
            assert(forall|i: int| 0 <= i < t1.len() ==> t1[i] == s1[i + 1] && t2[i] == s2[i + 1]);
        }
        lemma_count_seq_pointwise(t1, t2);
    }
}

/// Summing a forest splits over its two halves.
pub proof fn lemma_total_seq_split(s: Seq<DiskEntry>, k: int)
    requires
        0 <= k <= s.len(),
    ensures
        spec_total_seq(s) == spec_total_seq(s.subrange(0, k)) + spec_total_seq(
            s.subrange(k, s.len() as int),
        ),
    decreases k,
{
    if k == 0 {
        assert(s.subrange(0, 0) =~= Seq::<DiskEntry>::empty());
        assert(s.subrange(0, s.len() as int) =~= s);
    } else {
        let tail = s.subrange(1, s.len() as int);
        lemma_total_seq_split(tail, k - 1);
        assert(s.subrange(0, k).subrange(1, k) =~= tail.subrange(0, k - 1));
        assert(s.subrange(k, s.len() as int) =~= tail.subrange(k - 1, tail.len() as int));
        assert(s.subrange(0, k)[0] == s[0]);
        assert(spec_total_seq(s.subrange(0, k)) == spec_total(s[0]) + spec_total_seq(
            tail.subrange(0, k - 1),
        ));
    }
}

/// Counting a forest splits over its two halves.
pub proof fn lemma_count_seq_split(s: Seq<DiskEntry>, k: int)
    requires
        0 <= k <= s.len(),
    ensures
        spec_count_seq(s) == spec_count_seq(s.subrange(0, k)) + spec_count_seq(
            s.subrange(k, s.len() as int),
        ),
    decreases k,
{
    if k == 0 {
        assert(s.subrange(0, 0) =~= Seq::<DiskEntry>::empty());
        assert(s.subrange(0, s.len() as int) =~= s);
    } else {
        let tail = s.subrange(1, s.len() as int);
        lemma_count_seq_split(tail, k - 1);
        assert(s.subrange(0, k).subrange(1, k) =~= tail.subrange(0, k - 1));
        assert(s.subrange(k, s.len() as int) =~= tail.subrange(k - 1, tail.len() as int));
        assert(s.subrange(0, k)[0] == s[0]);
        assert(spec_count_seq(s.subrange(0, k)) == spec_count(s[0]) + spec_count_seq(
            tail.subrange(0, k - 1),
        ));
    }
}

/// Byte-wise lexicographic order, the order `str` comparison uses.
pub open spec fn spec_bytes_le(a: Seq<u8>, b: Seq<u8>) -> bool
    decreases a.len(),
{
    if a.len() == 0 {
        true
    } else if b.len() == 0 {
        false
    } else if a[0] < b[0] {
        true
    } else if a[0] > b[0] {
        false
    } else {
        spec_bytes_le(a.subrange(1, a.len() as int), b.subrange(1, b.len() as int))
    }
}

/// The byte-wise order is total.
pub proof fn lemma_bytes_le_total(a: Seq<u8>, b: Seq<u8>)
    ensures
        spec_bytes_le(a, b) || spec_bytes_le(b, a),
    decreases a.len(),
{
    if a.len() > 0 && b.len() > 0 && a[0] == b[0] {
        lemma_bytes_le_total(a.subrange(1, a.len() as int), b.subrange(1, b.len() as int));
    }
}

/// The byte-wise order is transitive.
pub proof fn lemma_bytes_le_trans(a: Seq<u8>, b: Seq<u8>, c: Seq<u8>)
    requires
        spec_bytes_le(a, b),
        spec_bytes_le(b, c),
    ensures
        spec_bytes_le(a, c),
    decreases a.len(),
{
    if a.len() == 0 {
    } else if b.len() == 0 {
        assert(false);
    } else if c.len() == 0 {
        assert(false);
    } else if a[0] == b[0] && b[0] == c[0] {
        lemma_bytes_le_trans(
            a.subrange(1, a.len() as int),
            b.subrange(1, b.len() as int),
            c.subrange(1, c.len() as int),
        );
    }
}

/// Comparing two byte strings that agree on their first `i` bytes comes
/// down to comparing what follows.
pub proof fn lemma_bytes_le_skip(a: Seq<u8>, b: Seq<u8>, i: int)
    requires
        0 <= i <= a.len(),
        i <= b.len(),
        forall|j: int| 0 <= j < i ==> a[j] == b[j],
    ensures
        spec_bytes_le(a, b) == spec_bytes_le(
            a.subrange(i, a.len() as int),
            b.subrange(i, b.len() as int),
        ),
    decreases i,
{
    if i == 0 {
        assert(a.subrange(0, a.len() as int) =~= a);
        assert(b.subrange(0, b.len() as int) =~= b);
    } else {
        let a1 = a.subrange(1, a.len() as int);
        let b1 = b.subrange(1, b.len() as int);
        assert(forall|j: int| 0 <= j < i - 1 ==> a1[j] == b1[j]);
        lemma_bytes_le_skip(a1, b1, i - 1);
        assert(a1.subrange(i - 1, a1.len() as int) =~= a.subrange(i, a.len() as int));
        assert(b1.subrange(i - 1, b1.len() as int) =~= b.subrange(i, b.len() as int));
    }
}

/// Whether `a` may stand before `b` under the given sort order.
pub open spec fn spec_before(a: DiskEntry, b: DiskEntry, order: SortOrder) -> bool {
    match order {
        SortOrder::Unsorted => true,
        SortOrder::SizeAscending => spec_total(a) <= spec_total(b),
        SortOrder::SizeDescending => spec_total(a) >= spec_total(b),
        SortOrder::Name => spec_bytes_le(encode_utf8(a.path@), encode_utf8(b.path@)),
    }
}

/// Any two nodes are ordered one way or the other.
pub proof fn lemma_before_total(a: DiskEntry, b: DiskEntry, order: SortOrder)
    ensures
        spec_before(a, b, order) || spec_before(b, a, order),
{
    if order == SortOrder::Name {
        lemma_bytes_le_total(encode_utf8(a.path@), encode_utf8(b.path@));
    }
}

/// The order relation is transitive.
pub proof fn lemma_before_trans(a: DiskEntry, b: DiskEntry, c: DiskEntry, order: SortOrder)
    requires
        spec_before(a, b, order),
        spec_before(b, c, order),
    ensures
        spec_before(a, c, order),
{
    if order == SortOrder::Name {
        lemma_bytes_le_trans(
            encode_utf8(a.path@),
            encode_utf8(b.path@),
            encode_utf8(c.path@),
        );
    }
}

/// Two nodes the order does not tell apart: each may stand before the
/// other.
pub open spec fn spec_tie(a: DiskEntry, b: DiskEntry, order: SortOrder) -> bool {
    spec_before(a, b, order) && spec_before(b, a, order)
}

/// Each neighbouring pair of the forest is ordered.
pub open spec fn spec_children_sorted(s: Seq<DiskEntry>, order: SortOrder) -> bool {
    forall|i: int| 0 <= i < s.len() - 1 ==> spec_before(#[trigger] s[i], s[i + 1], order)
}

/// The children of every node in the tree are ordered.
pub open spec fn spec_sorted_by(e: DiskEntry, order: SortOrder) -> bool
    decreases e,
{
    &&& spec_children_sorted(e.children@, order)
    &&& forall|i: int|
        0 <= i < e.children@.len() ==> spec_sorted_by(#[trigger] e.children@[i], order)
}

/// No tree in a forest outweighs the forest's summed total size.
pub proof fn lemma_total_elem_bound(s: Seq<DiskEntry>, i: int)
    requires
        0 <= i < s.len(),
    ensures
        spec_total(s[i]) <= spec_total_seq(s),
{
    lemma_total_seq_split(s, i);
    assert(s.subrange(i, s.len() as int)[0] == s[i]);
}

/// Inserting a tree anywhere in a forest adds its total size to the sum.
pub proof fn lemma_total_seq_insert(s: Seq<DiskEntry>, k: int, x: DiskEntry)
    requires
        0 <= k <= s.len(),
    ensures
        spec_total_seq(s.insert(k, x)) == spec_total_seq(s) + spec_total(x),
{
    let t = s.insert(k, x);
    lemma_total_seq_split(t, k);
    lemma_total_seq_split(s, k);
    assert(t.subrange(0, k) =~= s.subrange(0, k));
    let suf = t.subrange(k, t.len() as int);
    assert(suf[0] == x);
    assert(suf.subrange(1, suf.len() as int) =~= s.subrange(k, s.len() as int));
}

/// Inserting a tree anywhere in a forest adds its node count to the count.
pub proof fn lemma_count_seq_insert(s: Seq<DiskEntry>, k: int, x: DiskEntry)
    requires
        0 <= k <= s.len(),
    ensures
        spec_count_seq(s.insert(k, x)) == spec_count_seq(s) + spec_count(x),
{
    let t = s.insert(k, x);
    lemma_count_seq_split(t, k);
    lemma_count_seq_split(s, k);
    assert(t.subrange(0, k) =~= s.subrange(0, k));
    let suf = t.subrange(k, t.len() as int);
    assert(suf[0] == x);
    assert(suf.subrange(1, suf.len() as int) =~= s.subrange(k, s.len() as int));
}

/// An index map that permutes `n` positions: every position named once,
/// all in range.
pub open spec fn spec_perm_map(f: Seq<int>, n: int) -> bool {
    &&& f.len() == n
    &&& forall|i: int| 0 <= i < n ==> 0 <= #[trigger] f[i] < n
    &&& forall|i: int, j: int| 0 <= i < j < n ==> f[i] != f[j]
}

/// `after` is `before` with, at every node, the same path, size, kind and
/// depth, and the children a permutation of the old ones, each a
/// reordering of the child it came from — the same subtrees, only
/// reordered — and the permutation stable: children the order does not
/// tell apart keep their relative order.
pub open spec fn spec_reordered(after: DiskEntry, before: DiskEntry, order: SortOrder) -> bool
    decreases after,
{
    &&& after.path == before.path
    &&& after.size_bytes == before.size_bytes
    &&& after.entry_type == before.entry_type
    &&& after.depth == before.depth
    &&& after.children@.len() == before.children@.len()
    &&& exists|f: Seq<int>|
        #[trigger] spec_perm_map(f, before.children@.len() as int) && (forall|i: int|
            0 <= i < after.children@.len() ==> spec_reordered(
                #[trigger] after.children@[i],
                before.children@[f[i]],
                order,
            )) && (forall|i: int, j: int|
            0 <= i < j < after.children@.len() && spec_tie(
                after.children@[i],
                after.children@[j],
                order,
            ) ==> #[trigger] f[i] < #[trigger] f[j])
}

/// A tree is a reordering of itself, under any order.
pub proof fn lemma_reordered_refl(e: DiskEntry, order: SortOrder)
    ensures
        spec_reordered(e, e, order),
    decreases e,
{
    let n = e.children@.len() as int;
    let f = Seq::new(n as nat, |i: int| i);
    assert(spec_perm_map(f, n));
    assert forall|i: int| 0 <= i < n implies spec_reordered(
        #[trigger] e.children@[i],
        e.children@[f[i]],
        order,
    ) by {
        lemma_reordered_refl(e.children@[i], order);
        assert(f[i] == i);
    }
    assert(forall|i: int, j: int| 0 <= i < j < n ==> #[trigger] f[i] < #[trigger] f[j]);
}

/// A reordering of a collapsed tree is still collapsed: permuting
/// children moves whole subtrees and cannot give a node at the limit a
/// child back.
pub proof fn lemma_reordered_collapsed(
    after: DiskEntry,
    before: DiskEntry,
    order: SortOrder,
    at: int,
    max_depth: int,
)
    requires
        spec_reordered(after, before, order),
        spec_collapsed(before, at, max_depth),
    ensures
        spec_collapsed(after, at, max_depth),
    decreases after,
{
    let n = before.children@.len() as int;
    let f = choose|f: Seq<int>|
        #[trigger] spec_perm_map(f, n) && (forall|i: int|
            0 <= i < after.children@.len() ==> spec_reordered(
                #[trigger] after.children@[i],
                before.children@[f[i]],
                order,
            )) && (forall|i: int, j: int|
            0 <= i < j < after.children@.len() && spec_tie(
                after.children@[i],
                after.children@[j],
                order,
            ) ==> #[trigger] f[i] < #[trigger] f[j]);
    assert forall|i: int| 0 <= i < after.children@.len() implies spec_collapsed(
        #[trigger] after.children@[i],
        at + 1,
        max_depth,
    ) by {
        assert(spec_collapsed(before.children@[f[i]], at + 1, max_depth));
        lemma_reordered_collapsed(after.children@[i], before.children@[f[i]], order, at + 1, max_depth);
    }
}

/// Byte-wise comparison of two strings, the order `Ord` on `str` gives.
fn string_le(a: &String, b: &String) -> (r: bool)
    ensures
        r == spec_bytes_le(encode_utf8(a@), encode_utf8(b@)),
{
    let ab = a.as_str().as_bytes();
    let bb = b.as_str().as_bytes();
    let mut i: usize = 0;
    loop
        invariant
            0 <= i <= ab@.len(),
            i <= bb@.len(),
            ab@ == encode_utf8(a@),
            bb@ == encode_utf8(b@),
            forall|j: int| 0 <= j < i ==> ab@[j] == bb@[j],
        decreases ab@.len() - i,
    {
        if i >= ab.len() {
            proof {
                lemma_bytes_le_skip(ab@, bb@, i as int);
                assert(ab@.subrange(i as int, ab@.len() as int).len() == 0);
            }
            return true;
        }
        if i >= bb.len() {
            proof {
                lemma_bytes_le_skip(ab@, bb@, i as int);
                assert(ab@.subrange(i as int, ab@.len() as int).len() > 0);
                assert(bb@.subrange(i as int, bb@.len() as int).len() == 0);
            }
            return false;
        }
        let x = ab[i];
        let y = bb[i];
        if x < y {
            proof {
                lemma_bytes_le_skip(ab@, bb@, i as int);
                assert(ab@.subrange(i as int, ab@.len() as int)[0] == x);
                assert(bb@.subrange(i as int, bb@.len() as int)[0] == y);
            }
            return true;
        }
        if x > y {
            proof {
                lemma_bytes_le_skip(ab@, bb@, i as int);
                assert(ab@.subrange(i as int, ab@.len() as int)[0] == x);
                assert(bb@.subrange(i as int, bb@.len() as int)[0] == y);
            }
            return false;
        }
        i = i + 1;
    }
}

/// Whether `a` may stand before `b`, decided as the chosen order asks.
fn entry_before(a: &DiskEntry, b: &DiskEntry, order: &SortOrder) -> (r: bool)
    requires
        spec_total(*a) <= u64::MAX,
        spec_total(*b) <= u64::MAX,
    ensures
        r == spec_before(*a, *b, *order),
{
    match order {
        SortOrder::Unsorted => true,
        SortOrder::SizeAscending => a.total_size() <= b.total_size(),
        SortOrder::SizeDescending => a.total_size() >= b.total_size(),
        SortOrder::Name => string_le(&a.path, &b.path),
    }
}

impl DiskEntry {
    /// Creates a childless node.
    pub fn new(path: String, size_bytes: u64, entry_type: EntryType, depth: usize) -> (r:
        DiskEntry)
        ensures
            r.path == path,
            r.size_bytes == size_bytes,
            r.entry_type == entry_type,
            r.depth == depth,
            r.children@ == Seq::<DiskEntry>::empty(),
            spec_total(r) == size_bytes,
            spec_count(r) == 1,
    {
        let r = DiskEntry { path, size_bytes, entry_type, depth, children: Vec::new() };
        proof {
            assert(spec_total_seq(r.children@) == 0);
            assert(spec_count_seq(r.children@) == 0);
        }
        r
    }

    /// The node's own size plus the recursively summed size of its children.
    pub fn total_size(&self) -> (r: u64)
        requires
            spec_total(*self) <= u64::MAX,
        ensures
            r == spec_total(*self),
        decreases *self,
    {
        let mut acc: u64 = self.size_bytes;
        let mut i: usize = 0;
        proof {
            assert(self.children@.subrange(0, 0) =~= Seq::<DiskEntry>::empty());
        }
        while i < self.children.len()
            invariant
                0 <= i <= self.children@.len(),
                spec_total(*self) <= u64::MAX,
                acc == self.size_bytes + spec_total_seq(self.children@.subrange(0, i as int)),
            decreases self.children@.len() - i,
        {
            proof {
                lemma_total_seq_split(self.children@, i as int);
                assert(self.children@.subrange(i as int, self.children@.len() as int)[0]
                    == self.children@[i as int]);
                lemma_total_seq_split(self.children@.subrange(0, i as int + 1), i as int);
                assert(self.children@.subrange(0, i as int + 1).subrange(0, i as int)
                    =~= self.children@.subrange(0, i as int));
                assert(self.children@.subrange(0, i as int + 1).subrange(i as int, i + 1)
                    =~= seq![self.children@[i as int]]);
                assert(spec_total_seq(seq![self.children@[i as int]]) == spec_total(
                    self.children@[i as int],
                ) + spec_total_seq(seq![self.children@[i as int]].subrange(1, 1)));
                assert(seq![self.children@[i as int]].subrange(1, 1)
                    =~= Seq::<DiskEntry>::empty());
            }
            let child_total = self.children[i].total_size();
            acc = acc + child_total;
            i = i + 1;
        }
        proof {
            assert(self.children@.subrange(0, self.children@.len() as int) =~= self.children@);
        }
        acc
    }

    /// Truncates the tree to `max_depth` levels below this node. A node at
    /// the limit absorbs the total size of its descendants and loses its
    /// children; the total size of the whole tree does not change.
    pub fn collapse_to_depth(&mut self, max_depth: usize)
        requires
            spec_total(*old(self)) <= u64::MAX,
        ensures
            spec_total(*final(self)) == spec_total(*old(self)),
            spec_collapsed(*final(self), 0, max_depth as int),
            spec_collapsed_from(*final(self), *old(self), 0, max_depth as int),
            final(self).path == old(self).path,
            final(self).entry_type == old(self).entry_type,
            final(self).depth == old(self).depth,
            max_depth == 0 ==> final(self).children@.len() == 0 && final(self).size_bytes
                == spec_total(*old(self)),
    {
        self.collapse_recursive(0, max_depth);
    }

    /// Collapses the subtree rooted here, knowing it sits `current_depth`
    /// recursion steps below the node the pass started at.
    #[verifier::loop_isolation(false)]
    fn collapse_recursive(&mut self, current_depth: usize, max_depth: usize)
        requires
            spec_total(*old(self)) <= u64::MAX,
        ensures
            spec_total(*final(self)) == spec_total(*old(self)),
            spec_collapsed(*final(self), current_depth as int, max_depth as int),
            spec_collapsed_from(*final(self), *old(self), current_depth as int, max_depth as int),
            final(self).path == old(self).path,
            final(self).entry_type == old(self).entry_type,
            final(self).depth == old(self).depth,
            current_depth >= max_depth ==> final(self).children@.len() == 0
                && final(self).size_bytes == spec_total(*old(self)),
            current_depth < max_depth ==> final(self).size_bytes == old(self).size_bytes,
        decreases spec_height(*old(self)),
    {
        if current_depth >= max_depth {
            let total = self.total_size();
            self.size_bytes = total;
            self.children.clear();
            proof {
                assert(spec_total_seq(self.children@) == 0);
            }
        } else {
            let ghost orig = *self;
            let mut i: usize = 0;
            while i < self.children.len()
                invariant
                    0 <= i <= self.children@.len(),
                    self.children@.len() == orig.children@.len(),
                    self.path == orig.path,
                    self.entry_type == orig.entry_type,
                    self.depth == orig.depth,
                    self.size_bytes == orig.size_bytes,
                    spec_total(orig) <= u64::MAX,
                    current_depth < max_depth,
                    forall|j: int|
                        i <= j < self.children@.len() ==> self.children@[j] == orig.children@[j],
                    forall|j: int|
                        0 <= j < i ==> spec_total(#[trigger] self.children@[j]) == spec_total(
                            orig.children@[j],
                        ) && spec_collapsed(
                            self.children@[j],
                            current_depth + 1,
                            max_depth as int,
                        ) && spec_collapsed_from(
                            self.children@[j],
                            orig.children@[j],
                            current_depth + 1,
                            max_depth as int,
                        ),
                decreases self.children@.len() - i,
            {
                proof {
                    lemma_total_seq_pointwise(self.children@, orig.children@);
                    lemma_total_seq_split(orig.children@, i as int);
                    assert(orig.children@.subrange(i as int, orig.children@.len() as int)[0]
                        == orig.children@[i as int]);
                    assert(spec_total(orig.children@[i as int]) <= spec_total_seq(
                        orig.children@.subrange(i as int, orig.children@.len() as int),
                    ));
                    lemma_height_seq_bound(orig.children@, i as int);
                    assert(spec_height(orig.children@[i as int]) < spec_height(orig));
                }
                self.children[i].collapse_recursive(current_depth + 1, max_depth);
                i = i + 1;
            }
            proof {
                lemma_total_seq_pointwise(self.children@, orig.children@);
            }
        }
    }

    /// Reorders the children of every directory node, recursively, using
    /// the chosen order; ties keep their earlier relative order. The total
    /// size and the node count of the tree do not change.
    #[verifier::rlimit(100)]
    #[verifier::spinoff_prover]
    #[verifier::loop_isolation(false)]
    pub fn sort_entries(&mut self, order: &SortOrder)
        requires
            spec_total(*old(self)) <= u64::MAX,
        ensures
            spec_total(*final(self)) == spec_total(*old(self)),
            spec_count(*final(self)) == spec_count(*old(self)),
            final(self).path == old(self).path,
            final(self).size_bytes == old(self).size_bytes,
            final(self).entry_type == old(self).entry_type,
            final(self).depth == old(self).depth,
            spec_sorted_by(*final(self), *order),
            spec_reordered(*final(self), *old(self), *order),
            *order == SortOrder::Unsorted ==> *final(self) == *old(self),
        decreases spec_height(*old(self)),
    {
        if let SortOrder::Unsorted = order {
            proof {
                lemma_sorted_unsorted(*self);
                lemma_reordered_refl(*self, *order);
            }
            return;
        }
        let ghost orig = *self;
        let mut i: usize = 0;
        while i < self.children.len()
            invariant
                0 <= i <= self.children@.len(),
                self.children@.len() == orig.children@.len(),
                self.path == orig.path,
                self.entry_type == orig.entry_type,
                self.depth == orig.depth,
                self.size_bytes == orig.size_bytes,
                forall|j: int|
                    i <= j < self.children@.len() ==> self.children@[j] == orig.children@[j],
                forall|j: int|
                    0 <= j < i ==> spec_total(#[trigger] self.children@[j]) == spec_total(
                        orig.children@[j],
                    ) && spec_count(self.children@[j]) == spec_count(orig.children@[j])
                        && spec_sorted_by(self.children@[j], *order) && spec_reordered(
                        self.children@[j],
                        orig.children@[j],
                        *order,
                    ),
            decreases self.children@.len() - i,
        {
            proof {
                lemma_total_elem_bound(orig.children@, i as int);
                lemma_height_seq_bound(orig.children@, i as int);
                assert(spec_total_seq(orig.children@) <= spec_total(orig));
            }
            self.children[i].sort_entries(order);
            i = i + 1;
        }
        proof {
            lemma_total_seq_pointwise(self.children@, orig.children@);
            lemma_count_seq_pointwise(self.children@, orig.children@);
        }
        let ghost src = self.children@;
        let mut sorted_children: Vec<DiskEntry> = Vec::new();
        let ghost mut taken: int = 0;
        let ghost mut src_of: Seq<int> = Seq::empty();
        proof {
            assert(spec_total_seq(sorted_children@) == 0);
            assert(spec_count_seq(sorted_children@) == 0);
            assert(self.children@ =~= src.subrange(0, src.len() as int));
        }
        while self.children.len() > 0
            invariant
                0 <= taken <= src.len(),
                taken == src.len() - self.children@.len(),
                self.children@ == src.subrange(taken, src.len() as int),
                sorted_children@.len() + self.children@.len() == src.len(),
                src_of.len() == sorted_children@.len(),
                forall|m: int| 0 <= m < src_of.len() ==> 0 <= #[trigger] src_of[m] < taken,
                forall|m1: int, m2: int|
                    0 <= m1 < m2 < src_of.len() ==> src_of[m1] != src_of[m2],
                forall|m: int|
                    0 <= m < src_of.len() ==> #[trigger] sorted_children@[m] == src[src_of[m]],
                spec_total_seq(sorted_children@) + spec_total_seq(self.children@)
                    == spec_total_seq(src),
                spec_count_seq(sorted_children@) + spec_count_seq(self.children@)
                    == spec_count_seq(src),
                spec_total_seq(self.children@) <= spec_total_seq(src),
                forall|m1: int, m2: int|
                    0 <= m1 < m2 < sorted_children@.len() ==> spec_before(
                        #[trigger] sorted_children@[m1],
                        #[trigger] sorted_children@[m2],
                        *order,
                    ),
                forall|m1: int, m2: int|
                    0 <= m1 < m2 < sorted_children@.len() && spec_tie(
                        sorted_children@[m1],
                        sorted_children@[m2],
                        *order,
                    ) ==> #[trigger] src_of[m1] < #[trigger] src_of[m2],
                forall|m: int|
                    0 <= m < sorted_children@.len() ==> spec_sorted_by(
                        #[trigger] sorted_children@[m],
                        *order,
                    ) && spec_total(sorted_children@[m]) <= u64::MAX,
                forall|m: int|
                    0 <= m < self.children@.len() ==> spec_sorted_by(
                        #[trigger] self.children@[m],
                        *order,
                    ),
                self.path == orig.path,
                self.entry_type == orig.entry_type,
                self.depth == orig.depth,
                self.size_bytes == orig.size_bytes,
            decreases self.children@.len(),
        {
            let ghost pre = self.children@;
            proof {
                lemma_total_elem_bound(pre, 0);
            }
            let x = self.children.remove(0);
            proof {
                assert(self.children@ =~= pre.subrange(1, pre.len() as int));
                assert(spec_total_seq(pre) == spec_total(x) + spec_total_seq(self.children@));
                assert(spec_count_seq(pre) == spec_count(x) + spec_count_seq(self.children@));
                assert(forall|m: int|
                    0 <= m < self.children@.len() ==> self.children@[m] == pre[m + 1]);
                assert(spec_total_seq(src) <= spec_total(orig));
                assert(spec_total(x) <= u64::MAX);
                assert(x == src[taken]);
                assert(self.children@ =~= src.subrange(taken + 1, src.len() as int));
            }
            let mut k: usize = 0;
            while k < sorted_children.len() && entry_before(&sorted_children[k], &x, order)
                invariant
                    0 <= k <= sorted_children@.len(),
                    forall|m: int|
                        0 <= m < k ==> spec_before(#[trigger] sorted_children@[m], x, *order),
                decreases sorted_children@.len() - k,
            {
                k = k + 1;
            }
            proof {
                if (k as int) < sorted_children@.len() {
                    lemma_before_total(sorted_children@[k as int], x, *order);
                }
                lemma_total_seq_insert(sorted_children@, k as int, x);
                lemma_count_seq_insert(sorted_children@, k as int, x);
                sorted_children@.insert_ensures(k as int, x);
            }
            let ghost before_insert = sorted_children@;
            let ghost src_of_before = src_of;
            sorted_children.insert(k, x);
            proof {
                src_of = src_of_before.insert(k as int, taken);
                src_of_before.insert_ensures(k as int, taken);
                taken = taken + 1;
                let t = sorted_children@;
                assert(t == before_insert.insert(k as int, x));
                assert forall|m: int| 0 <= m < src_of.len() implies #[trigger] sorted_children@[m]
                    == src[src_of[m]] by {
                    if m < k {
                        assert(t[m] == before_insert[m] && src_of[m] == src_of_before[m]);
                    } else if m == k {
                        assert(t[m] == x && src_of[m] == taken - 1);
                    } else {
                        assert(t[m] == before_insert[m - 1] && src_of[m] == src_of_before[m - 1]);
                    }
                }
                assert forall|m1: int, m2: int| 0 <= m1 < m2 < src_of.len() implies src_of[m1]
                    != src_of[m2] by {
                    if m1 == k || m2 == k {
                    } else {
                        let p1: int = if m1 < k { m1 } else { m1 - 1 };
                        let p2: int = if m2 < k { m2 } else { m2 - 1 };
                        assert(src_of[m1] == src_of_before[p1] && src_of[m2]
                            == src_of_before[p2]);
                    }
                }
                assert forall|m2: int| k < m2 < t.len() implies spec_before(
                    x,
                    #[trigger] t[m2],
                    *order,
                ) by {
                    let p = m2 - 1;
                    assert(t[m2] == before_insert[p]);
                    lemma_before_total(before_insert[k as int], x, *order);
                    if !spec_before(x, before_insert[p], *order) {
                        lemma_before_total(before_insert[p], x, *order);
                        lemma_before_trans(
                            before_insert[k as int],
                            before_insert[p],
                            x,
                            *order,
                        );
                        assert(false);
                    }
                }
                assert forall|m1: int, m2: int| 0 <= m1 < m2 < t.len() implies spec_before(
                    #[trigger] t[m1],
                    #[trigger] t[m2],
                    *order,
                ) by {
                    if m2 < k {
                        assert(t[m1] == before_insert[m1] && t[m2] == before_insert[m2]);
                    } else if m1 > k {
                        assert(t[m1] == before_insert[m1 - 1] && t[m2] == before_insert[m2 - 1]);
                    } else if m1 < k && m2 == k {
                        assert(t[m1] == before_insert[m1] && t[m2] == x);
                    } else if m1 < k && m2 > k {
                        assert(t[m1] == before_insert[m1] && t[m2] == before_insert[m2 - 1]);
                    } else if m1 == k && m2 > k {
                        lemma_before_total(before_insert[k as int], x, *order);
                        assert(spec_before(x, t[m2], *order));
                    }
                }
                assert forall|m1: int, m2: int|
                    0 <= m1 < m2 < t.len() && spec_tie(t[m1], t[m2], *order) implies #[trigger] src_of[m1]
                    < #[trigger] src_of[m2] by {
                    if m2 < k {
                        assert(t[m1] == before_insert[m1] && t[m2] == before_insert[m2]);
                        assert(src_of[m1] == src_of_before[m1] && src_of[m2]
                            == src_of_before[m2]);
                    } else if m1 > k {
                        assert(t[m1] == before_insert[m1 - 1] && t[m2] == before_insert[m2 - 1]);
                        assert(src_of[m1] == src_of_before[m1 - 1] && src_of[m2]
                            == src_of_before[m2 - 1]);
                    } else if m1 < k && m2 == k {
                        assert(src_of[m1] == src_of_before[m1] && src_of[m1] < taken - 1);
                        assert(src_of[m2] == taken - 1);
                    } else if m1 < k && m2 > k {
                        assert(t[m1] == before_insert[m1] && t[m2] == before_insert[m2 - 1]);
                        assert(src_of[m1] == src_of_before[m1] && src_of[m2]
                            == src_of_before[m2 - 1]);
                    } else if m1 == k && m2 > k {
                        // x never ties with what it was inserted before
                        let p = m2 - 1;
                        assert(t[m2] == before_insert[p]);
                        lemma_before_total(before_insert[k as int], x, *order);
                        if p > k {
                            lemma_before_trans(
                                before_insert[k as int],
                                before_insert[p],
                                x,
                                *order,
                            );
                        }
                        assert(false);
                    }
                }
            }
        }
        proof {
            assert(spec_total_seq(self.children@) == 0);
            assert(spec_count_seq(self.children@) == 0);
        }
        self.children = sorted_children;
        proof {
            let n = orig.children@.len() as int;
            assert(spec_perm_map(src_of, n));
            assert forall|i: int| 0 <= i < self.children@.len() implies spec_reordered(
                #[trigger] self.children@[i],
                orig.children@[src_of[i]],
                *order,
            ) by {
                assert(self.children@[i] == src[src_of[i]]);
                assert(spec_reordered(src[src_of[i]], orig.children@[src_of[i]], *order));
            }
            assert(forall|i: int, j: int|
                0 <= i < j < self.children@.len() && spec_tie(
                    self.children@[i],
                    self.children@[j],
                    *order,
                ) ==> #[trigger] src_of[i] < #[trigger] src_of[j]);
            assert(spec_children_sorted(self.children@, *order)) by {
                assert(forall|m: int|
                    0 <= m < self.children@.len() - 1 ==> spec_before(
                        #[trigger] self.children@[m],
                        self.children@[m + 1],
                        *order,
                    ));
            }
            assert(spec_reordered(*self, orig, *order));
        }
    }
}

/// Under no ordering at all, every tree counts as sorted.
pub proof fn lemma_sorted_unsorted(e: DiskEntry)
    ensures
        spec_sorted_by(e, SortOrder::Unsorted),
    decreases e,
{
    assert(forall|i: int|
        0 <= i < e.children@.len() - 1 ==> spec_before(
            #[trigger] e.children@[i],
            e.children@[i + 1],
            SortOrder::Unsorted,
        ));
    assert forall|i: int| 0 <= i < e.children@.len() implies spec_sorted_by(
        #[trigger] e.children@[i],
        SortOrder::Unsorted,
    ) by {
        lemma_sorted_unsorted(e.children@[i]);
    }
}

} // verus!
