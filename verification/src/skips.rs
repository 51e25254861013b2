//! Which blobs a tree walk records as skipped: every blob entry that is
//! not excluded and contributes nothing is recorded as unrecognized, binary
//! or huge, as `skip_recorded` says of one entry; and what the skip sets are
//! after a walk, as `after_meeting` says of one entry, met in turn.
use crate::counter::{after_meeting, skip_recorded};
use crate::excludes::{advance, pruned};
use crate::world::{EntryKind, EntryView, Oid, World};
use vstd::prelude::*;

verus! {

/// The skip sets: unrecognized, binary, huge.
pub type SkipSets = (Set<Oid>, Set<Oid>, Set<Oid>);

/// Each set of `a` is held in the same set of `b`.
pub open spec fn sets_le(a: SkipSets, b: SkipSets) -> bool {
    a.0.subset_of(b.0) && a.1.subset_of(b.1) && a.2.subset_of(b.2)
}

/// With `fuel` levels of nesting, every blob entry met walking the tree
/// `oid` with the exclude state `active` is recorded in `sets`.
pub open spec fn tree_skips_fuel(
    w: World,
    pats: Seq<Seq<Seq<u8>>>,
    oid: Oid,
    active: Seq<(usize, usize)>,
    sets: SkipSets,
    fuel: nat,
) -> bool
    decreases fuel, 0nat,
{
    if fuel == 0 {
        false
    } else {
        let entries = (w.tree)(oid);
        entries_skips(w, pats, entries, active, sets, (fuel - 1) as nat, entries.len())
    }
}

/// The first `k` entries are recorded.
pub open spec fn entries_skips(
    w: World,
    pats: Seq<Seq<Seq<u8>>>,
    entries: Seq<EntryView>,
    active: Seq<(usize, usize)>,
    sets: SkipSets,
    fuel: nat,
    k: nat,
) -> bool
    decreases fuel, k + 1,
{
    if k == 0 {
        true
    } else {
        entries_skips(w, pats, entries, active, sets, fuel, (k - 1) as nat) && entry_skips(
            w,
            pats,
            entries[k - 1],
            active,
            sets,
            fuel,
        )
    }
}

/// One entry is recorded: it is excluded, a link or a submodule, a blob
/// recorded as `skip_recorded` says, or a tree whose entries are.
pub open spec fn entry_skips(
    w: World,
    pats: Seq<Seq<Seq<u8>>>,
    e: EntryView,
    active: Seq<(usize, usize)>,
    sets: SkipSets,
    fuel: nat,
) -> bool
    decreases fuel, 1nat,
{
    if pruned(pats, active, e.name) {
        true
    } else {
        match e.kind {
            EntryKind::Tree => tree_skips_fuel(
                w,
                pats,
                e.oid,
                advance(pats, active, e.name),
                sets,
                fuel,
            ),
            EntryKind::Blob | EntryKind::BlobExecutable => skip_recorded(sets, w, e.name, e.oid),
            _ => true,
        }
    }
}

/// Every blob entry met walking the tree is recorded in `sets`.
pub open spec fn tree_skips(
    w: World,
    pats: Seq<Seq<Seq<u8>>>,
    oid: Oid,
    active: Seq<(usize, usize)>,
    sets: SkipSets,
) -> bool {
    exists|fuel: nat| #[trigger] tree_skips_fuel(w, pats, oid, active, sets, fuel)
}

/// Some fuel records the first `k` entries.
pub open spec fn skips_reach(
    w: World,
    pats: Seq<Seq<Seq<u8>>>,
    entries: Seq<EntryView>,
    active: Seq<(usize, usize)>,
    sets: SkipSets,
    k: nat,
) -> bool {
    exists|fuel: nat| #[trigger] entries_skips(w, pats, entries, active, sets, fuel, k)
}

/// Recording more keeps a blob recorded.
pub proof fn lemma_skip_recorded_grows(a: SkipSets, b: SkipSets, w: World, name: Seq<u8>, oid: Oid)
    requires
        sets_le(a, b),
        skip_recorded(a, w, name, oid),
    ensures
        skip_recorded(b, w, name, oid),
{
    assert(a.0.contains(oid) ==> b.0.contains(oid));
    assert(a.1.contains(oid) ==> b.1.contains(oid));
    assert(a.2.contains(oid) ==> b.2.contains(oid));
}

/// More fuel and more recorded blobs keep a tree recorded.
pub proof fn lemma_tree_skips_grow(
    w: World,
    pats: Seq<Seq<Seq<u8>>>,
    oid: Oid,
    active: Seq<(usize, usize)>,
    a: SkipSets,
    b: SkipSets,
    f1: nat,
    f2: nat,
)
    requires
        sets_le(a, b),
        f1 <= f2,
        tree_skips_fuel(w, pats, oid, active, a, f1),
    ensures
        tree_skips_fuel(w, pats, oid, active, b, f2),
    decreases f1, 0nat,
{
    let entries = (w.tree)(oid);
    lemma_entries_skips_grow(
        w,
        pats,
        entries,
        active,
        a,
        b,
        (f1 - 1) as nat,
        (f2 - 1) as nat,
        entries.len(),
    );
}

/// More fuel and more recorded blobs keep entries recorded.
pub proof fn lemma_entries_skips_grow(
    w: World,
    pats: Seq<Seq<Seq<u8>>>,
    entries: Seq<EntryView>,
    active: Seq<(usize, usize)>,
    a: SkipSets,
    b: SkipSets,
    f1: nat,
    f2: nat,
    k: nat,
)
    requires
        sets_le(a, b),
        f1 <= f2,
        k <= entries.len(),
        entries_skips(w, pats, entries, active, a, f1, k),
    ensures
        entries_skips(w, pats, entries, active, b, f2, k),
    decreases f1, k + 1,
{
    if k > 0 {
        let m = (k - 1) as nat;
        lemma_entries_skips_grow(w, pats, entries, active, a, b, f1, f2, m);
        let e = entries[m as int];
        assert(entry_skips(w, pats, e, active, a, f1));
        if !pruned(pats, active, e.name) {
            match e.kind {
                EntryKind::Tree => {
                    lemma_tree_skips_grow(
                        w,
                        pats,
                        e.oid,
                        advance(pats, active, e.name),
                        a,
                        b,
                        f1,
                        f2,
                    );
                },
                EntryKind::Blob | EntryKind::BlobExecutable => {
                    lemma_skip_recorded_grows(a, b, w, e.name, e.oid);
                },
                _ => {},
            }
        }
        assert(entry_skips(w, pats, e, active, b, f2));
    }
}

/// A recorded tree stays recorded as more is recorded.
pub proof fn lemma_tree_skips_sets(
    w: World,
    pats: Seq<Seq<Seq<u8>>>,
    oid: Oid,
    active: Seq<(usize, usize)>,
    a: SkipSets,
    b: SkipSets,
)
    requires
        sets_le(a, b),
        tree_skips(w, pats, oid, active, a),
    ensures
        tree_skips(w, pats, oid, active, b),
{
    let f = choose|f: nat| #[trigger] tree_skips_fuel(w, pats, oid, active, a, f);
    lemma_tree_skips_grow(w, pats, oid, active, a, b, f, f);
}

/// Recorded entries stay recorded as more is recorded.
pub proof fn lemma_skips_reach_sets(
    w: World,
    pats: Seq<Seq<Seq<u8>>>,
    entries: Seq<EntryView>,
    active: Seq<(usize, usize)>,
    a: SkipSets,
    b: SkipSets,
    k: nat,
)
    requires
        sets_le(a, b),
        k <= entries.len(),
        skips_reach(w, pats, entries, active, a, k),
    ensures
        skips_reach(w, pats, entries, active, b, k),
{
    let f = choose|f: nat| #[trigger] entries_skips(w, pats, entries, active, a, f, k);
    lemma_entries_skips_grow(w, pats, entries, active, a, b, f, f, k);
}

/// No entries need recording.
pub proof fn lemma_skips_start(
    w: World,
    pats: Seq<Seq<Seq<u8>>>,
    entries: Seq<EntryView>,
    active: Seq<(usize, usize)>,
    sets: SkipSets,
)
    ensures
        skips_reach(w, pats, entries, active, sets, 0),
{
    assert(entries_skips(w, pats, entries, active, sets, 0, 0));
}

/// An entry that is excluded, a link, a submodule, or a recorded blob
/// extends the recorded entries.
pub proof fn lemma_skips_flat(
    w: World,
    pats: Seq<Seq<Seq<u8>>>,
    entries: Seq<EntryView>,
    active: Seq<(usize, usize)>,
    sets: SkipSets,
    k: nat,
)
    requires
        skips_reach(w, pats, entries, active, sets, k),
        k < entries.len(),
        pruned(pats, active, entries[k as int].name) || entries[k as int].kind == EntryKind::Link
            || entries[k as int].kind == EntryKind::Commit || ((entries[k as int].kind
            == EntryKind::Blob || entries[k as int].kind == EntryKind::BlobExecutable)
            && skip_recorded(sets, w, entries[k as int].name, entries[k as int].oid)),
    ensures
        skips_reach(w, pats, entries, active, sets, k + 1),
{
    let f = choose|f: nat| #[trigger] entries_skips(w, pats, entries, active, sets, f, k);
    assert(entry_skips(w, pats, entries[k as int], active, sets, f));
    assert(entries_skips(w, pats, entries, active, sets, f, k + 1));
}

/// A recorded subtree extends the recorded entries.
pub proof fn lemma_skips_subtree(
    w: World,
    pats: Seq<Seq<Seq<u8>>>,
    entries: Seq<EntryView>,
    active: Seq<(usize, usize)>,
    sets: SkipSets,
    k: nat,
)
    requires
        skips_reach(w, pats, entries, active, sets, k),
        k < entries.len(),
        entries[k as int].kind == EntryKind::Tree,
        tree_skips(
            w,
            pats,
            entries[k as int].oid,
            advance(pats, active, entries[k as int].name),
            sets,
        ),
    ensures
        skips_reach(w, pats, entries, active, sets, k + 1),
{
    let e = entries[k as int];
    let child = advance(pats, active, e.name);
    let f = choose|f: nat| #[trigger] entries_skips(w, pats, entries, active, sets, f, k);
    let fc = choose|fc: nat| #[trigger] tree_skips_fuel(w, pats, e.oid, child, sets, fc);
    let g: nat = if f >= fc {
        f
    } else {
        fc
    };
    lemma_entries_skips_grow(w, pats, entries, active, sets, sets, f, g, k);
    lemma_tree_skips_grow(w, pats, e.oid, child, sets, sets, fc, g);
    assert(entry_skips(w, pats, e, active, sets, g));
    assert(entries_skips(w, pats, entries, active, sets, g, k + 1));
}

/// A tree whose entries are all recorded is recorded.
pub proof fn lemma_skips_done(
    w: World,
    pats: Seq<Seq<Seq<u8>>>,
    oid: Oid,
    active: Seq<(usize, usize)>,
    sets: SkipSets,
)
    requires
        skips_reach(w, pats, (w.tree)(oid), active, sets, (w.tree)(oid).len()),
    ensures
        tree_skips(w, pats, oid, active, sets),
{
    let entries = (w.tree)(oid);
    let f = choose|f: nat| #[trigger] entries_skips(w, pats, entries, active, sets, f, entries.len());
    assert(tree_skips_fuel(w, pats, oid, active, sets, f + 1));
}

/// With `fuel` levels of nesting, the skip sets after walking the tree
/// `oid` with the exclude state `active` from `sets`, meeting its blob
/// entries in order; `None` where the fuel runs out.
pub open spec fn tree_meet_fuel(
    w: World,
    pats: Seq<Seq<Seq<u8>>>,
    oid: Oid,
    active: Seq<(usize, usize)>,
    sets: SkipSets,
    fuel: nat,
) -> Option<SkipSets>
    decreases fuel, 0nat,
{
    if fuel == 0 {
        None
    } else {
        let entries = (w.tree)(oid);
        entries_meet(w, pats, entries, active, sets, (fuel - 1) as nat, entries.len())
    }
}

/// The skip sets after meeting the first `k` entries from `sets`.
pub open spec fn entries_meet(
    w: World,
    pats: Seq<Seq<Seq<u8>>>,
    entries: Seq<EntryView>,
    active: Seq<(usize, usize)>,
    sets: SkipSets,
    fuel: nat,
    k: nat,
) -> Option<SkipSets>
    decreases fuel, k + 1,
{
    if k == 0 {
        Some(sets)
    } else {
        match entries_meet(w, pats, entries, active, sets, fuel, (k - 1) as nat) {
            None => None,
            Some(mid) => entry_meet(w, pats, entries[k - 1], active, mid, fuel),
        }
    }
}

/// The skip sets after meeting one entry: unchanged for an excluded entry,
/// a link or a submodule, `after_meeting` for a blob, and the walk of a
/// tree.
pub open spec fn entry_meet(
    w: World,
    pats: Seq<Seq<Seq<u8>>>,
    e: EntryView,
    active: Seq<(usize, usize)>,
    sets: SkipSets,
    fuel: nat,
) -> Option<SkipSets>
    decreases fuel, 1nat,
{
    if pruned(pats, active, e.name) {
        Some(sets)
    } else {
        match e.kind {
            EntryKind::Tree => tree_meet_fuel(w, pats, e.oid, advance(pats, active, e.name), sets, fuel),
            EntryKind::Blob | EntryKind::BlobExecutable => Some(after_meeting(sets, w, e.name, e.oid)),
            _ => Some(sets),
        }
    }
}

/// Walking the tree from the skip sets `a` ends with the skip sets `b`.
pub open spec fn tree_meets(
    w: World,
    pats: Seq<Seq<Seq<u8>>>,
    oid: Oid,
    active: Seq<(usize, usize)>,
    a: SkipSets,
    b: SkipSets,
) -> bool {
    exists|fuel: nat| #[trigger] tree_meet_fuel(w, pats, oid, active, a, fuel) == Some(b)
}

/// Meeting the first `k` entries from `a` ends with `b`.
pub open spec fn meets_reach(
    w: World,
    pats: Seq<Seq<Seq<u8>>>,
    entries: Seq<EntryView>,
    active: Seq<(usize, usize)>,
    a: SkipSets,
    b: SkipSets,
    k: nat,
) -> bool {
    exists|fuel: nat| #[trigger] entries_meet(w, pats, entries, active, a, fuel, k) == Some(b)
}

/// Meeting a blob entry that is already recorded changes no skip set.
pub proof fn lemma_meeting_recorded(sets: SkipSets, w: World, name: Seq<u8>, oid: Oid)
    requires
        skip_recorded(sets, w, name, oid),
    ensures
        after_meeting(sets, w, name, oid) == sets,
{
    let m = after_meeting(sets, w, name, oid);
    assert(m.0 =~= sets.0);
    assert(m.1 =~= sets.1);
    assert(m.2 =~= sets.2);
}

/// More fuel walks a tree to the same skip sets.
pub proof fn lemma_tree_meet_fuel(
    w: World,
    pats: Seq<Seq<Seq<u8>>>,
    oid: Oid,
    active: Seq<(usize, usize)>,
    sets: SkipSets,
    f1: nat,
    f2: nat,
)
    requires
        f1 <= f2,
        tree_meet_fuel(w, pats, oid, active, sets, f1) is Some,
    ensures
        tree_meet_fuel(w, pats, oid, active, sets, f2) == tree_meet_fuel(w, pats, oid, active, sets, f1),
    decreases f1, 0nat,
{
    let entries = (w.tree)(oid);
    lemma_entries_meet_fuel(w, pats, entries, active, sets, (f1 - 1) as nat, (f2 - 1) as nat, entries.len());
}

/// More fuel meets entries to the same skip sets.
pub proof fn lemma_entries_meet_fuel(
    w: World,
    pats: Seq<Seq<Seq<u8>>>,
    entries: Seq<EntryView>,
    active: Seq<(usize, usize)>,
    sets: SkipSets,
    f1: nat,
    f2: nat,
    k: nat,
)
    requires
        f1 <= f2,
        k <= entries.len(),
        entries_meet(w, pats, entries, active, sets, f1, k) is Some,
    ensures
        entries_meet(w, pats, entries, active, sets, f2, k) == entries_meet(w, pats, entries, active, sets, f1, k),
    decreases f1, k + 1,
{
    if k > 0 {
        let m = (k - 1) as nat;
        assert(entries_meet(w, pats, entries, active, sets, f1, m) is Some);
        lemma_entries_meet_fuel(w, pats, entries, active, sets, f1, f2, m);
        let mid = entries_meet(w, pats, entries, active, sets, f1, m).unwrap();
        let e = entries[m as int];
        assert(entries_meet(w, pats, entries, active, sets, f1, k) == entry_meet(w, pats, e, active, mid, f1));
        assert(entries_meet(w, pats, entries, active, sets, f2, k) == entry_meet(w, pats, e, active, mid, f2));
        if !pruned(pats, active, e.name) && e.kind == EntryKind::Tree {
            lemma_tree_meet_fuel(w, pats, e.oid, advance(pats, active, e.name), mid, f1, f2);
        }
    }
}

/// A walk ends with one set of skips: walking the same tree with the same
/// patterns from the same skip sets (with memoization or without) ends with
/// the same skip sets, in the world that gave the answers.
pub proof fn lemma_skips_determined(
    w: World,
    pats: Seq<Seq<Seq<u8>>>,
    oid: Oid,
    active: Seq<(usize, usize)>,
    a: SkipSets,
    b1: SkipSets,
    b2: SkipSets,
)
    requires
        tree_meets(w, pats, oid, active, a, b1),
        tree_meets(w, pats, oid, active, a, b2),
    ensures
        b1 == b2,
{
    let f1 = choose|f: nat| #[trigger] tree_meet_fuel(w, pats, oid, active, a, f) == Some(b1);
    let f2 = choose|f: nat| #[trigger] tree_meet_fuel(w, pats, oid, active, a, f) == Some(b2);
    if f1 <= f2 {
        lemma_tree_meet_fuel(w, pats, oid, active, a, f1, f2);
    } else {
        lemma_tree_meet_fuel(w, pats, oid, active, a, f2, f1);
    }
}

/// Meeting no entries changes nothing.
pub proof fn lemma_meets_start(
    w: World,
    pats: Seq<Seq<Seq<u8>>>,
    entries: Seq<EntryView>,
    active: Seq<(usize, usize)>,
    a: SkipSets,
)
    ensures
        meets_reach(w, pats, entries, active, a, a, 0),
{
    assert(entries_meet(w, pats, entries, active, a, 0, 0) == Some(a));
}

/// An excluded entry, a link or a submodule changes no skip set.
pub proof fn lemma_meets_flat(
    w: World,
    pats: Seq<Seq<Seq<u8>>>,
    entries: Seq<EntryView>,
    active: Seq<(usize, usize)>,
    a: SkipSets,
    b: SkipSets,
    k: nat,
)
    requires
        meets_reach(w, pats, entries, active, a, b, k),
        k < entries.len(),
        pruned(pats, active, entries[k as int].name) || entries[k as int].kind == EntryKind::Link
            || entries[k as int].kind == EntryKind::Commit,
    ensures
        meets_reach(w, pats, entries, active, a, b, k + 1),
{
    let f = choose|f: nat| #[trigger] entries_meet(w, pats, entries, active, a, f, k) == Some(b);
    assert(entry_meet(w, pats, entries[k as int], active, b, f) == Some(b));
    assert(entries_meet(w, pats, entries, active, a, f, k + 1) == Some(b));
}

/// A blob entry is met as `after_meeting` says.
pub proof fn lemma_meets_blob(
    w: World,
    pats: Seq<Seq<Seq<u8>>>,
    entries: Seq<EntryView>,
    active: Seq<(usize, usize)>,
    a: SkipSets,
    b: SkipSets,
    k: nat,
)
    requires
        meets_reach(w, pats, entries, active, a, b, k),
        k < entries.len(),
        !pruned(pats, active, entries[k as int].name),
        entries[k as int].kind == EntryKind::Blob || entries[k as int].kind == EntryKind::BlobExecutable,
    ensures
        meets_reach(
            w,
            pats,
            entries,
            active,
            a,
            after_meeting(b, w, entries[k as int].name, entries[k as int].oid),
            k + 1,
        ),
{
    let f = choose|f: nat| #[trigger] entries_meet(w, pats, entries, active, a, f, k) == Some(b);
    let c = after_meeting(b, w, entries[k as int].name, entries[k as int].oid);
    assert(entry_meet(w, pats, entries[k as int], active, b, f) == Some(c));
    assert(entries_meet(w, pats, entries, active, a, f, k + 1) == Some(c));
}

/// A subtree is met as its walk says.
pub proof fn lemma_meets_subtree(
    w: World,
    pats: Seq<Seq<Seq<u8>>>,
    entries: Seq<EntryView>,
    active: Seq<(usize, usize)>,
    a: SkipSets,
    b: SkipSets,
    c: SkipSets,
    k: nat,
)
    requires
        meets_reach(w, pats, entries, active, a, b, k),
        k < entries.len(),
        !pruned(pats, active, entries[k as int].name),
        entries[k as int].kind == EntryKind::Tree,
        tree_meets(
            w,
            pats,
            entries[k as int].oid,
            advance(pats, active, entries[k as int].name),
            b,
            c,
        ),
    ensures
        meets_reach(w, pats, entries, active, a, c, k + 1),
{
    let e = entries[k as int];
    let child = advance(pats, active, e.name);
    let f = choose|f: nat| #[trigger] entries_meet(w, pats, entries, active, a, f, k) == Some(b);
    let fc = choose|fc: nat| #[trigger] tree_meet_fuel(w, pats, e.oid, child, b, fc) == Some(c);
    let g: nat = if f >= fc {
        f
    } else {
        fc
    };
    lemma_entries_meet_fuel(w, pats, entries, active, a, f, g, k);
    lemma_tree_meet_fuel(w, pats, e.oid, child, b, fc, g);
    assert(entry_meet(w, pats, e, active, b, g) == Some(c));
    assert(entries_meet(w, pats, entries, active, a, g, k + 1) == Some(c));
}

/// Meeting every entry of a tree is walking it.
pub proof fn lemma_meets_done(
    w: World,
    pats: Seq<Seq<Seq<u8>>>,
    oid: Oid,
    active: Seq<(usize, usize)>,
    a: SkipSets,
    b: SkipSets,
)
    requires
        meets_reach(w, pats, (w.tree)(oid), active, a, b, (w.tree)(oid).len()),
    ensures
        tree_meets(w, pats, oid, active, a, b),
{
    let entries = (w.tree)(oid);
    let f = choose|f: nat| #[trigger] entries_meet(w, pats, entries, active, a, f, entries.len()) == Some(b);
    assert(tree_meet_fuel(w, pats, oid, active, a, f + 1) == Some(b));
}

/// Walking a tree whose blob entries are all recorded changes no skip set.
pub proof fn lemma_recorded_tree_meets(
    w: World,
    pats: Seq<Seq<Seq<u8>>>,
    oid: Oid,
    active: Seq<(usize, usize)>,
    sets: SkipSets,
)
    requires
        tree_skips(w, pats, oid, active, sets),
    ensures
        tree_meets(w, pats, oid, active, sets, sets),
{
    let f = choose|f: nat| #[trigger] tree_skips_fuel(w, pats, oid, active, sets, f);
    lemma_recorded_tree_meet_fuel(w, pats, oid, active, sets, f);
}

proof fn lemma_recorded_tree_meet_fuel(
    w: World,
    pats: Seq<Seq<Seq<u8>>>,
    oid: Oid,
    active: Seq<(usize, usize)>,
    sets: SkipSets,
    fuel: nat,
)
    requires
        tree_skips_fuel(w, pats, oid, active, sets, fuel),
    ensures
        tree_meet_fuel(w, pats, oid, active, sets, fuel) == Some(sets),
    decreases fuel, 0nat,
{
    let entries = (w.tree)(oid);
    lemma_recorded_entries_meet(w, pats, entries, active, sets, (fuel - 1) as nat, entries.len());
}

proof fn lemma_recorded_entries_meet(
    w: World,
    pats: Seq<Seq<Seq<u8>>>,
    entries: Seq<EntryView>,
    active: Seq<(usize, usize)>,
    sets: SkipSets,
    fuel: nat,
    k: nat,
)
    requires
        k <= entries.len(),
        entries_skips(w, pats, entries, active, sets, fuel, k),
    ensures
        entries_meet(w, pats, entries, active, sets, fuel, k) == Some(sets),
    decreases fuel, k + 1,
{
    if k > 0 {
        let m = (k - 1) as nat;
        lemma_recorded_entries_meet(w, pats, entries, active, sets, fuel, m);
        let e = entries[m as int];
        assert(entry_skips(w, pats, e, active, sets, fuel));
        assert(entries_meet(w, pats, entries, active, sets, fuel, k) == entry_meet(
            w,
            pats,
            e,
            active,
            sets,
            fuel,
        ));
        if !pruned(pats, active, e.name) {
            match e.kind {
                EntryKind::Tree => {
                    lemma_recorded_tree_meet_fuel(w, pats, e.oid, advance(pats, active, e.name), sets, fuel);
                },
                EntryKind::Blob | EntryKind::BlobExecutable => {
                    lemma_meeting_recorded(sets, w, e.name, e.oid);
                },
                _ => {},
            }
        }
    }
}

} // verus!
