//! Sibling ordering: the sort policy and the sorted view of a node's
//! children.
//!
//! The sorted view is specified exactly, as a stable insertion sort
//! (`sort_pairs`) of the children in the tree's own iteration order, so it is
//! a pure function of the tree snapshot, the node and the policy.
use crate::traverse::entry_view;
use crate::traverse::is_child_of;
use crate::traverse::node_entry;
use crate::traverse::tree_children;
use crate::traverse::tree_entries;
use crate::traverse::tree_wf;
use crate::traverse::EntryData;
use crate::traverse::EntryView;
use crate::traverse::Tree;
use vstd::prelude::*;

verus! {

/// The active ordering rule for siblings. Alphabetical ordering is by name
/// bytes; size orderings break ties by name.
#[derive(Clone, Copy, Debug, PartialEq, Eq, Structural)]
pub enum Sorting {
    AlphabeticalByFileName,
    SizeAscending,
    SizeDescending,
}

impl Default for Sorting {
    /// A session starts ordered alphabetically by file name.
    fn default() -> (r: Self)
        ensures
            r == Sorting::AlphabeticalByFileName,
    {
        Sorting::AlphabeticalByFileName
    }
}

impl Sorting {
    /// Where one toggle of the size ordering leads.
    pub open spec fn toggled(self) -> Sorting {
        match self {
            Sorting::AlphabeticalByFileName => Sorting::SizeAscending,
            Sorting::SizeAscending => Sorting::SizeDescending,
            Sorting::SizeDescending => Sorting::SizeAscending,
        }
    }

    /// Toggle between the two size orderings; from the alphabetical policy,
    /// switch the active dimension to size (ascending first).
    pub fn toggle_size(&mut self)
        ensures
            *final(self) == old(self).toggled(),
    {
        *self = match *self {
            Sorting::AlphabeticalByFileName => Sorting::SizeAscending,
            Sorting::SizeAscending => Sorting::SizeDescending,
            Sorting::SizeDescending => Sorting::SizeAscending,
        };
    }
}

/// Strict lexicographic order on name bytes: a total, locale-independent
/// byte ordering, with a proper prefix ordered first.
pub open spec fn name_lt(a: Seq<u8>, b: Seq<u8>) -> bool
    decreases a.len(),
{
    if b.len() == 0 {
        false
    } else if a.len() == 0 {
        true
    } else if a[0] < b[0] {
        true
    } else if a[0] > b[0] {
        false
    } else {
        name_lt(a.skip(1), b.skip(1))
    }
}

/// `a` must come strictly before `b` under the policy. Entries tied under
/// the policy (same name, or same size and name) keep their tree order.
pub open spec fn entry_lt(s: Sorting, a: EntryView, b: EntryView) -> bool {
    match s {
        Sorting::AlphabeticalByFileName => name_lt(a.0, b.0),
        Sorting::SizeAscending => a.1 < b.1 || (a.1 == b.1 && name_lt(a.0, b.0)),
        Sorting::SizeDescending => a.1 > b.1 || (a.1 == b.1 && name_lt(a.0, b.0)),
    }
}

fn name_lt_exec(a: &Vec<u8>, b: &Vec<u8>) -> (r: bool)
    ensures
        r == name_lt(a@, b@),
{
    let mut i: usize = 0;
    proof {
        assert(a@.skip(0) =~= a@);
        assert(b@.skip(0) =~= b@);
    }
    loop
        invariant
            i <= a.len(),
            i <= b.len(),
            name_lt(a@, b@) == name_lt(a@.skip(i as int), b@.skip(i as int)),
        decreases a@.len() - i,
    {
        if i == a.len() || i == b.len() {
            return a.len() < b.len();
        }
        let x = a[i];
        let y = b[i];
        if x < y {
            return true;
        }
        if y < x {
            return false;
        }
        proof {
            assert(a@.skip(i as int).skip(1) =~= a@.skip(i as int + 1));
            assert(b@.skip(i as int).skip(1) =~= b@.skip(i as int + 1));
        }
        i = i + 1;
    }
}

fn entry_lt_exec(s: Sorting, a: &EntryData, b: &EntryData) -> (r: bool)
    ensures
        r == entry_lt(s, entry_view(*a), entry_view(*b)),
{
    match s {
        Sorting::AlphabeticalByFileName => name_lt_exec(&a.name, &b.name),
        Sorting::SizeAscending => a.size < b.size || (a.size == b.size && name_lt_exec(
            &a.name,
            &b.name,
        )),
        Sorting::SizeDescending => a.size > b.size || (a.size == b.size && name_lt_exec(
            &a.name,
            &b.name,
        )),
    }
}

/// Insert `x` into an already sorted sequence, after every element it is not
/// strictly before (so equals keep their existing order).
pub open spec fn insert_sorted(s: Sorting, x: (nat, EntryView), l: Seq<(nat, EntryView)>) -> Seq<
    (nat, EntryView),
>
    decreases l.len(),
{
    if l.len() == 0 {
        seq![x]
    } else if entry_lt(s, x.1, l[0].1) {
        seq![x] + l
    } else {
        seq![l[0]] + insert_sorted(s, x, l.skip(1))
    }
}

/// Stable insertion sort: the elements of `l` in policy order, elements tied
/// under the policy keeping their order in `l`.
pub open spec fn sort_pairs(s: Sorting, l: Seq<(nat, EntryView)>) -> Seq<(nat, EntryView)>
    decreases l.len(),
{
    if l.len() == 0 {
        Seq::empty()
    } else {
        insert_sorted(s, l.last(), sort_pairs(s, l.drop_last()))
    }
}

/// A node's children paired with their entries, in tree order.
pub open spec fn child_pairs(t: &Tree, node: nat) -> Seq<(nat, EntryView)> {
    tree_children(t, node).map_values(|c: nat| (c, tree_entries(t)[c]))
}

/// The sorted view of a node's children: a pure function of the tree
/// snapshot, the node and the policy.
pub open spec fn sorted_view(t: &Tree, node: nat, s: Sorting) -> Seq<(nat, EntryView)> {
    sort_pairs(s, child_pairs(t, node))
}

/// The view of one produced pair.
pub open spec fn pair_view(p: (usize, EntryData)) -> (nat, EntryView) {
    (p.0 as nat, entry_view(p.1))
}

proof fn lemma_insert_sorted_at(s: Sorting, x: (nat, EntryView), l: Seq<(nat, EntryView)>, j: int)
    requires
        0 <= j <= l.len(),
        forall|k: int| 0 <= k < j ==> !entry_lt(s, x.1, (#[trigger] l[k]).1),
        j < l.len() ==> entry_lt(s, x.1, l[j].1),
    ensures
        insert_sorted(s, x, l) == l.take(j) + seq![x] + l.skip(j),
    decreases l.len(),
{
    if j == 0 {
        assert(insert_sorted(s, x, l) =~= l.take(0) + seq![x] + l.skip(0));
    } else {
        assert(!entry_lt(s, x.1, l[0].1));
        let l1 = l.skip(1);
        assert(forall|k: int| 0 <= k < j - 1 ==> (#[trigger] l1[k]) == l[k + 1]);
        lemma_insert_sorted_at(s, x, l1, j - 1);
        assert(insert_sorted(s, x, l) == seq![l[0]] + insert_sorted(s, x, l1));
        assert(seq![l[0]] + (l1.take(j - 1) + seq![x] + l1.skip(j - 1)) =~= l.take(j) + seq![x]
            + l.skip(j));
    }
}

proof fn lemma_insert_sorted_len(s: Sorting, x: (nat, EntryView), l: Seq<(nat, EntryView)>)
    ensures
        insert_sorted(s, x, l).len() == l.len() + 1,
    decreases l.len(),
{
    if l.len() != 0 && !entry_lt(s, x.1, l[0].1) {
        lemma_insert_sorted_len(s, x, l.skip(1));
    }
}

proof fn lemma_insert_sorted_contains(
    s: Sorting,
    x: (nat, EntryView),
    l: Seq<(nat, EntryView)>,
    y: (nat, EntryView),
)
    ensures
        insert_sorted(s, x, l).contains(y) <==> (y == x || l.contains(y)),
    decreases l.len(),
{
    if l.len() == 0 {
        assert(insert_sorted(s, x, l)[0] == x);
    } else if entry_lt(s, x.1, l[0].1) {
        let r = seq![x] + l;
        assert(r[0] == x);
        assert(forall|k: int| 0 <= k < l.len() ==> r[k + 1] == #[trigger] l[k]);
        if r.contains(y) {
            let k = choose|k: int| 0 <= k < r.len() && r[k] == y;
            if k > 0 {
                assert(l[k - 1] == y);
            }
        }
    } else {
        lemma_insert_sorted_contains(s, x, l.skip(1), y);
        let rest = insert_sorted(s, x, l.skip(1));
        let r = seq![l[0]] + rest;
        assert(insert_sorted(s, x, l) == r);
        assert(forall|k: int| 0 <= k < rest.len() ==> r[k + 1] == #[trigger] rest[k]);
        if r.contains(y) {
            let k = choose|k: int| 0 <= k < r.len() && r[k] == y;
            if k == 0 {
                assert(l[0] == y);
            } else {
                assert(rest[k - 1] == y);
                if y != x {
                    assert(l.skip(1).contains(y));
                    let m = choose|m: int| 0 <= m < l.skip(1).len() && l.skip(1)[m] == y;
                    assert(l[m + 1] == y);
                }
            }
        }
        if y == x {
            assert(rest.contains(y));
            let k = choose|k: int| 0 <= k < rest.len() && rest[k] == y;
            assert(r[k + 1] == y);
        } else if l.contains(y) {
            let k = choose|k: int| 0 <= k < l.len() && l[k] == y;
            if k == 0 {
                assert(r[0] == y);
            } else {
                assert(l.skip(1)[k - 1] == y);
                assert(l.skip(1).contains(y));
                let m = choose|m: int| 0 <= m < rest.len() && rest[m] == y;
                assert(r[m + 1] == y);
            }
        }
    }
}

/// The sorted view holds exactly the elements handed to it.
pub proof fn lemma_sort_pairs_contains(s: Sorting, l: Seq<(nat, EntryView)>, y: (nat, EntryView))
    ensures
        sort_pairs(s, l).contains(y) <==> l.contains(y),
    decreases l.len(),
{
    if l.len() != 0 {
        lemma_sort_pairs_contains(s, l.drop_last(), y);
        lemma_insert_sorted_contains(s, l.last(), sort_pairs(s, l.drop_last()), y);
        if y == l.last() {
            assert(l[l.len() - 1] == y);
        }
        if l.contains(y) && y != l.last() {
            let k = choose|k: int| 0 <= k < l.len() && l[k] == y;
            if k < l.len() - 1 {
                assert(l.drop_last()[k] == y);
            }
        }
        if l.drop_last().contains(y) {
            let k = choose|k: int| 0 <= k < l.drop_last().len() && l.drop_last()[k] == y;
            assert(l[k] == y);
        }
    }
}

/// The sorted view is as long as the list handed to it.
pub proof fn lemma_sort_pairs_len(s: Sorting, l: Seq<(nat, EntryView)>)
    ensures
        sort_pairs(s, l).len() == l.len(),
    decreases l.len(),
{
    if l.len() != 0 {
        lemma_sort_pairs_len(s, l.drop_last());
        lemma_insert_sorted_len(s, l.last(), sort_pairs(s, l.drop_last()));
    }
}

/// Every identity in the sorted view of a node is one of that node's
/// children, the view is exactly as long as the child list, and every child
/// appears in it.
pub proof fn lemma_sorted_view_members(t: &Tree, node: nat, s: Sorting)
    ensures
        sorted_view(t, node, s).len() == tree_children(t, node).len(),
        forall|i: int|
            0 <= i < sorted_view(t, node, s).len() ==> tree_children(t, node).contains(
                #[trigger] sorted_view(t, node, s)[i].0,
            ),
        forall|c: nat|
            tree_children(t, node).contains(c) ==> exists|i: int|
                0 <= i < sorted_view(t, node, s).len() && (#[trigger] sorted_view(
                    t,
                    node,
                    s,
                )[i]).0 == c,
{
    let cp = child_pairs(t, node);
    let sv = sorted_view(t, node, s);
    lemma_sort_pairs_len(s, cp);
    assert forall|i: int| 0 <= i < sv.len() implies tree_children(t, node).contains(
        #[trigger] sv[i].0,
    ) by {
        lemma_sort_pairs_contains(s, cp, sv[i]);
        assert(cp.contains(sv[i]));
        let k = choose|k: int| 0 <= k < cp.len() && cp[k] == sv[i];
        assert(tree_children(t, node)[k] == sv[i].0);
    }
    assert forall|c: nat| tree_children(t, node).contains(c) implies exists|i: int|
        0 <= i < sv.len() && (#[trigger] sv[i]).0 == c by {
        let k = choose|k: int| 0 <= k < tree_children(t, node).len() && tree_children(t, node)[k]
            == c;
        let y = (c, tree_entries(t)[c]);
        assert(cp[k] == y);
        assert(cp.contains(y));
        lemma_sort_pairs_contains(s, cp, y);
        let i = choose|i: int| 0 <= i < sv.len() && sv[i] == y;
        assert(sv[i].0 == c);
    }
}

proof fn lemma_name_lt_asym(a: Seq<u8>, b: Seq<u8>)
    ensures
        name_lt(a, b) ==> !name_lt(b, a),
    decreases a.len(),
{
    if a.len() > 0 && b.len() > 0 && a[0] == b[0] {
        lemma_name_lt_asym(a.skip(1), b.skip(1));
    }
}

proof fn lemma_name_lt_connected(a: Seq<u8>, b: Seq<u8>)
    ensures
        !name_lt(a, b) && !name_lt(b, a) ==> a == b,
    decreases a.len(),
{
    if a.len() == 0 && b.len() == 0 {
        assert(a =~= b);
    } else if a.len() > 0 && b.len() > 0 && a[0] == b[0] {
        lemma_name_lt_connected(a.skip(1), b.skip(1));
        if !name_lt(a, b) && !name_lt(b, a) {
            assert(a.skip(1) == b.skip(1));
            assert(a =~= b) by {
                assert(a.len() == b.len());
                assert(forall|i: int|
                    1 <= i < a.len() ==> a[i] == a.skip(1)[i - 1] && b[i] == b.skip(1)[i - 1]);
            }
        }
    }
}

proof fn lemma_name_lt_trans(a: Seq<u8>, b: Seq<u8>, c: Seq<u8>)
    ensures
        name_lt(a, b) && name_lt(b, c) ==> name_lt(a, c),
    decreases a.len() + b.len() + c.len(),
{
    if a.len() > 0 && b.len() > 0 && c.len() > 0 && a[0] == b[0] && b[0] == c[0] {
        lemma_name_lt_trans(a.skip(1), b.skip(1), c.skip(1));
    }
}

/// Everything the entry order needs of the name order on three names.
proof fn lemma_name_order_facts(x: Seq<u8>, y: Seq<u8>, z: Seq<u8>)
    ensures
        name_lt(x, y) ==> !name_lt(y, x),
        name_lt(y, z) ==> !name_lt(z, y),
        name_lt(x, z) ==> !name_lt(z, x),
        !name_lt(x, y) && !name_lt(y, x) ==> x == y,
        !name_lt(y, z) && !name_lt(z, y) ==> y == z,
        !name_lt(x, z) && !name_lt(z, x) ==> x == z,
        name_lt(x, y) && name_lt(y, z) ==> name_lt(x, z),
        name_lt(z, y) && name_lt(y, x) ==> name_lt(z, x),
{
    lemma_name_lt_asym(x, y);
    lemma_name_lt_asym(y, z);
    lemma_name_lt_asym(x, z);
    lemma_name_lt_connected(x, y);
    lemma_name_lt_connected(y, z);
    lemma_name_lt_connected(x, z);
    lemma_name_lt_trans(x, y, z);
    lemma_name_lt_trans(z, y, x);
}

/// The entry order never holds both ways round.
proof fn lemma_entry_lt_asym(s: Sorting, a: EntryView, b: EntryView)
    ensures
        entry_lt(s, a, b) ==> !entry_lt(s, b, a),
{
    lemma_name_lt_asym(a.0, b.0);
}

/// "Not strictly before" is transitive, which makes the entry order a
/// strict weak order.
proof fn lemma_entry_le_trans(s: Sorting, a: EntryView, b: EntryView, c: EntryView)
    requires
        !entry_lt(s, b, a),
        !entry_lt(s, c, b),
    ensures
        !entry_lt(s, c, a),
{
    lemma_name_order_facts(a.0, b.0, c.0);
}

/// An ordered sequence: no later entry is strictly before an earlier one.
pub open spec fn pairs_ordered(s: Sorting, l: Seq<(nat, EntryView)>) -> bool {
    forall|i: int, j: int|
        0 <= i < j < l.len() ==> !entry_lt(s, (#[trigger] l[j]).1, (#[trigger] l[i]).1)
}

proof fn lemma_insert_sorted_ordered(s: Sorting, x: (nat, EntryView), l: Seq<(nat, EntryView)>)
    requires
        pairs_ordered(s, l),
    ensures
        pairs_ordered(s, insert_sorted(s, x, l)),
    decreases l.len(),
{
    if l.len() == 0 {
    } else if entry_lt(s, x.1, l[0].1) {
        let r = seq![x] + l;
        assert forall|i: int, j: int|
            0 <= i < j < r.len() implies !entry_lt(s, (#[trigger] r[j]).1, (#[trigger] r[i]).1) by {
            assert(r[j] == l[j - 1]);
            lemma_entry_lt_asym(s, x.1, l[0].1);
            if i == 0 {
                if j > 1 {
                    lemma_entry_le_trans(s, x.1, l[0].1, l[j - 1].1);
                }
            } else {
                assert(r[i] == l[i - 1]);
            }
        }
    } else {
        let l1 = l.skip(1);
        assert(forall|k: int| 0 <= k < l1.len() ==> (#[trigger] l1[k]) == l[k + 1]);
        assert(pairs_ordered(s, l1));
        lemma_insert_sorted_ordered(s, x, l1);
        let rest = insert_sorted(s, x, l1);
        let r = seq![l[0]] + rest;
        assert(insert_sorted(s, x, l) == r);
        assert forall|i: int, j: int|
            0 <= i < j < r.len() implies !entry_lt(s, (#[trigger] r[j]).1, (#[trigger] r[i]).1) by {
            if i == 0 {
                assert(rest.contains(rest[j - 1]));
                lemma_insert_sorted_contains(s, x, l1, rest[j - 1]);
                if rest[j - 1] == x {
                    assert(!entry_lt(s, x.1, l[0].1));
                } else {
                    let k = choose|k: int| 0 <= k < l1.len() && l1[k] == rest[j - 1];
                    assert(l[k + 1] == rest[j - 1]);
                }
            } else {
                assert(r[i] == rest[i - 1]);
                assert(r[j] == rest[j - 1]);
            }
        }
    }
}

proof fn lemma_sort_pairs_ordered(s: Sorting, l: Seq<(nat, EntryView)>)
    ensures
        pairs_ordered(s, sort_pairs(s, l)),
    decreases l.len(),
{
    if l.len() != 0 {
        lemma_sort_pairs_ordered(s, l.drop_last());
        lemma_insert_sorted_ordered(s, l.last(), sort_pairs(s, l.drop_last()));
    }
}

/// Ordering determinism: the sorted view is a pure function of the tree
/// snapshot, the node and the policy, so any two results that each meet
/// `sorted_entries`'s contract for the same arguments are the same sequence.
pub proof fn lemma_sorted_view_deterministic(
    t: &Tree,
    node: nat,
    s: Sorting,
    r1: Seq<(nat, EntryView)>,
    r2: Seq<(nat, EntryView)>,
)
    requires
        r1 == sorted_view(t, node, s),
        r2 == sorted_view(t, node, s),
    ensures
        r1 == r2,
{
}

/// The sorted view is ordered by the policy: under the alphabetical policy
/// by name bytes, under a size policy by size in the chosen direction with
/// ties broken by name; entries tied under the policy keep their tree order
/// (the sort is stable), so no later entry is strictly before an earlier
/// one.
pub proof fn lemma_sorted_view_ordered(t: &Tree, node: nat, s: Sorting)
    ensures
        pairs_ordered(s, sorted_view(t, node, s)),
{
    lemma_sort_pairs_ordered(s, child_pairs(t, node));
}

fn insert_position(s: Sorting, out: &Vec<(usize, EntryData)>, e: &EntryData) -> (j: usize)
    ensures
        j <= out@.len(),
        forall|k: int|
            0 <= k < j ==> !entry_lt(s, entry_view(*e), entry_view((#[trigger] out@[k]).1)),
        j < out@.len() ==> entry_lt(s, entry_view(*e), entry_view(out@[j as int].1)),
{
    let mut j: usize = 0;
    while j < out.len()
        invariant
            j <= out@.len(),
            forall|k: int|
                0 <= k < j ==> !entry_lt(s, entry_view(*e), entry_view((#[trigger] out@[k]).1)),
        decreases out@.len() - j,
    {
        if entry_lt_exec(s, e, &out[j].1) {
            return j;
        }
        j = j + 1;
    }
    j
}

fn insert_pair(s: Sorting, out: &mut Vec<(usize, EntryData)>, id: usize, e: EntryData)
    ensures
        final(out)@.map_values(|p: (usize, EntryData)| pair_view(p)) == insert_sorted(
            s,
            (id as nat, entry_view(e)),
            old(out)@.map_values(|p: (usize, EntryData)| pair_view(p)),
        ),
{
    let ghost xv = (id as nat, entry_view(e));
    let ghost l0 = out@.map_values(|p: (usize, EntryData)| pair_view(p));
    let j = insert_position(s, out, &e);
    proof {
        assert(forall|k: int| 0 <= k < j ==> (#[trigger] l0[k]) == pair_view(out@[k]));
        assert(j < out.len() ==> l0[j as int] == pair_view(out@[j as int]));
        lemma_insert_sorted_at(s, xv, l0, j as int);
    }
    let ghost pre = out@;
    out.insert(j, (id, e));
    proof {
        pre.insert_ensures(j as int, (id, e));
        assert(out@.map_values(|p: (usize, EntryData)| pair_view(p)) =~= l0.take(j as int)
            + seq![xv] + l0.skip(j as int));
    }
}

/// The ordered sequence of `(child identity, entry)` for every direct child
/// of `node`, under the given policy: exactly the stable policy-order sort
/// of the children in tree order. A node with no children (or absent from
/// the tree) yields the empty sequence.
pub fn sorted_entries(t: &Tree, node: usize, sorting: Sorting) -> (r: Vec<(usize, EntryData)>)
    requires
        tree_wf(t),
    ensures
        r@.map_values(|p: (usize, EntryData)| pair_view(p)) == sorted_view(
            t,
            node as nat,
            sorting,
        ),
{
    let kids = crate::traverse::children_of(t, node);
    let ghost cp = child_pairs(t, node as nat);
    let mut out: Vec<(usize, EntryData)> = Vec::new();
    let mut i: usize = 0;
    proof {
        assert(out@.map_values(|p: (usize, EntryData)| pair_view(p)) =~= sort_pairs(
            sorting,
            cp.take(0),
        ));
    }
    while i < kids.len()
        invariant
            tree_wf(t),
            i <= kids.len(),
            kids@.map_values(|c: usize| c as nat) == tree_children(t, node as nat),
            cp == child_pairs(t, node as nat),
            out@.map_values(|p: (usize, EntryData)| pair_view(p)) == sort_pairs(
                sorting,
                cp.take(i as int),
            ),
        decreases kids@.len() - i,
    {
        let id = kids[i];
        proof {
            assert(kids@.map_values(|c: usize| c as nat)[i as int] == id as nat);
            assert(tree_children(t, node as nat).contains(id as nat));
            assert(is_child_of(t, id as nat, node as nat));
        }
        let e = match node_entry(t, id) {
            Some(e) => e,
            None => {
                proof {
                    assert(false);
                }
                unreached()
            },
        };
        insert_pair(sorting, &mut out, id, e);
        proof {
            assert(cp[i as int] == (id as nat, entry_view(e)));
            assert(cp.take(i as int + 1).drop_last() =~= cp.take(i as int));
            assert(cp.take(i as int + 1).last() == cp[i as int]);
            assert(sort_pairs(sorting, cp.take(i as int + 1)) == insert_sorted(
                sorting,
                cp[i as int],
                sort_pairs(sorting, cp.take(i as int)),
            ));
        }
        i = i + 1;
    }
    proof {
        assert(cp.take(i as int) =~= cp);
    }
    out
}

} // verus!
