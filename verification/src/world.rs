//! The model that the counting is specified against.
//!
//! Everything the counter learns from outside (a tree's entries, a blob's
//! size and bytes, the language a name or a first line is detected as) is
//! an *observation*. A `World` assigns an answer to every such question.
//! The counter's results are stated for every world that agrees with all
//! it observed: where the repository answers each question the same way
//! every time it is asked, the results are the ones that world determines,
//! whether or not anything was cached.
use crate::blob::{first_line, is_binary, is_huge, name_has_extension, starts_with_shebang};
use crate::counts::{add_to, merge_totals, tally_fits, tally_le, tally_of, totals_fit, Tally};
use crate::excludes::{advance, completes, pruned};
use crate::languages::{
    is_jupyter_language, lossy_text, tokei_folded_counts, tokei_top_level_counts,
};
use vstd::prelude::*;
use vstd::utf8::encode_utf8;

verus! {

/// A git object id (SHA-1): its first sixteen bytes and its last four, both
/// big-endian.
pub type Oid = (u128, u32);

/// The index of a tokei language.
pub type LangId = u32;

/// The kind of a tree entry.
#[derive(Clone, Copy, PartialEq, Eq, Structural, Debug)]
pub enum EntryKind {
    Tree,
    Blob,
    BlobExecutable,
    Link,
    Commit,
}

/// The model of a tree entry: its file name, the object it names, and its
/// kind.
pub struct EntryView {
    pub name: Seq<u8>,
    pub oid: Oid,
    pub kind: EntryKind,
}

/// The models of decoded tree entries.
pub open spec fn entry_views(s: Seq<(Vec<u8>, Oid, EntryKind)>) -> Seq<EntryView> {
    s.map_values(|e: (Vec<u8>, Oid, EntryKind)| EntryView { name: e.0@, oid: e.1, kind: e.2 })
}

/// An answer to every question the counter asks outside.
pub struct World {
    /// The entries of a tree.
    pub tree: spec_fn(Oid) -> Seq<EntryView>,
    /// The size a blob's header declares.
    pub size: spec_fn(Oid) -> u64,
    /// A blob's bytes.
    pub data: spec_fn(Oid) -> Seq<u8>,
    /// The language of a tree entry name (decoded lossily as UTF-8).
    pub name_language: spec_fn(Seq<char>) -> Option<LangId>,
    /// The language of a first line that starts with a shebang.
    pub shebang_language: spec_fn(Seq<u8>) -> Option<LangId>,
}

/// One answer the counter received.
pub enum Observation {
    Tree(Oid, Seq<EntryView>),
    Size(Oid, u64),
    Data(Oid, Seq<u8>),
    NameLanguage(Seq<char>, Option<LangId>),
    ShebangLanguage(Seq<u8>, Option<LangId>),
}

/// The world gives the observed answer.
pub open spec fn agrees(w: World, o: Observation) -> bool {
    match o {
        Observation::Tree(oid, entries) => (w.tree)(oid) == entries,
        Observation::Size(oid, size) => (w.size)(oid) == size,
        Observation::Data(oid, data) => (w.data)(oid) == data,
        Observation::NameLanguage(name, lang) => (w.name_language)(name) == lang,
        Observation::ShebangLanguage(line, lang) => (w.shebang_language)(line) == lang,
    }
}

/// The world gives every observed answer.
pub open spec fn consistent(w: World, log: Seq<Observation>) -> bool {
    forall|i: int| 0 <= i < log.len() ==> #[trigger] agrees(w, log[i])
}

/// Two answers do not contradict each other: where they answer the same
/// question, they give the same answer.
pub open spec fn same_answer(a: Observation, b: Observation) -> bool {
    match (a, b) {
        (Observation::Tree(x, e), Observation::Tree(y, f)) => x == y ==> e == f,
        (Observation::Size(x, s), Observation::Size(y, t)) => x == y ==> s == t,
        (Observation::Data(x, d), Observation::Data(y, e)) => x == y ==> d == e,
        (Observation::NameLanguage(n, l), Observation::NameLanguage(m, k)) => n == m ==> l == k,
        (Observation::ShebangLanguage(n, l), Observation::ShebangLanguage(m, k)) => n == m ==> l
            == k,
        _ => true,
    }
}

/// No question in the log got two different answers.
pub open spec fn coherent(log: Seq<Observation>) -> bool {
    forall|i: int, j: int|
        0 <= i < log.len() && 0 <= j < log.len() ==> #[trigger] same_answer(log[i], log[j])
}

spec fn answers_tree(o: Observation, oid: Oid) -> bool {
    o matches Observation::Tree(x, _) && x == oid
}

spec fn answers_size(o: Observation, oid: Oid) -> bool {
    o matches Observation::Size(x, _) && x == oid
}

spec fn answers_data(o: Observation, oid: Oid) -> bool {
    o matches Observation::Data(x, _) && x == oid
}

spec fn answers_name(o: Observation, name: Seq<char>) -> bool {
    o matches Observation::NameLanguage(x, _) && x == name
}

spec fn answers_line(o: Observation, line: Seq<u8>) -> bool {
    o matches Observation::ShebangLanguage(x, _) && x == line
}

/// A world that gives each answer of the log, and answers every question
/// the log does not hold with nothing.
spec fn world_of(log: Seq<Observation>) -> World {
    World {
        tree: |oid: Oid|
            if exists|i: int| 0 <= i < log.len() && #[trigger] answers_tree(log[i], oid) {
                let i = choose|i: int| 0 <= i < log.len() && #[trigger] answers_tree(log[i], oid);
                log[i]->Tree_1
            } else {
                Seq::empty()
            },
        size: |oid: Oid|
            if exists|i: int| 0 <= i < log.len() && #[trigger] answers_size(log[i], oid) {
                let i = choose|i: int| 0 <= i < log.len() && #[trigger] answers_size(log[i], oid);
                log[i]->Size_1
            } else {
                0
            },
        data: |oid: Oid|
            if exists|i: int| 0 <= i < log.len() && #[trigger] answers_data(log[i], oid) {
                let i = choose|i: int| 0 <= i < log.len() && #[trigger] answers_data(log[i], oid);
                log[i]->Data_1
            } else {
                Seq::empty()
            },
        name_language: |name: Seq<char>|
            if exists|i: int| 0 <= i < log.len() && #[trigger] answers_name(log[i], name) {
                let i = choose|i: int| 0 <= i < log.len() && #[trigger] answers_name(log[i], name);
                log[i]->NameLanguage_1
            } else {
                None
            },
        shebang_language: |line: Seq<u8>|
            if exists|i: int| 0 <= i < log.len() && #[trigger] answers_line(log[i], line) {
                let i = choose|i: int| 0 <= i < log.len() && #[trigger] answers_line(log[i], line);
                log[i]->ShebangLanguage_1
            } else {
                None
            },
    }
}

/// Some world gives every answer of a log exactly where no question in
/// the log got two different answers: the results stated for the worlds
/// that agree with the counter's log hold of at least one world whenever
/// the repository answered each question the same way each time.
pub proof fn lemma_world_exists(log: Seq<Observation>)
    ensures
        coherent(log) <==> exists|w: World| consistent(w, log),
{
    if coherent(log) {
        let w = world_of(log);
        assert forall|i: int| 0 <= i < log.len() implies #[trigger] agrees(w, log[i]) by {
            match log[i] {
                Observation::Tree(oid, _) => {
                    assert(answers_tree(log[i], oid));
                    let j = choose|j: int| 0 <= j < log.len() && #[trigger] answers_tree(log[j], oid);
                    assert(same_answer(log[j], log[i]));
                },
                Observation::Size(oid, _) => {
                    assert(answers_size(log[i], oid));
                    let j = choose|j: int| 0 <= j < log.len() && #[trigger] answers_size(log[j], oid);
                    assert(same_answer(log[j], log[i]));
                },
                Observation::Data(oid, _) => {
                    assert(answers_data(log[i], oid));
                    let j = choose|j: int| 0 <= j < log.len() && #[trigger] answers_data(log[j], oid);
                    assert(same_answer(log[j], log[i]));
                },
                Observation::NameLanguage(name, _) => {
                    assert(answers_name(log[i], name));
                    let j = choose|j: int| 0 <= j < log.len() && #[trigger] answers_name(log[j], name);
                    assert(same_answer(log[j], log[i]));
                },
                Observation::ShebangLanguage(line, _) => {
                    assert(answers_line(log[i], line));
                    let j = choose|j: int| 0 <= j < log.len() && #[trigger] answers_line(log[j], line);
                    assert(same_answer(log[j], log[i]));
                },
            }
        }
        assert(consistent(w, log));
    }
    if exists|w: World| consistent(w, log) {
        let w = choose|w: World| consistent(w, log);
        assert forall|i: int, j: int|
            0 <= i < log.len() && 0 <= j < log.len() implies #[trigger] same_answer(log[i], log[j]) by {
            assert(agrees(w, log[i]));
            assert(agrees(w, log[j]));
        }
    }
}

/// The later log holds the earlier one as its beginning.
pub open spec fn extends(later: Seq<Observation>, earlier: Seq<Observation>) -> bool {
    earlier.len() <= later.len() && later.take(earlier.len() as int) == earlier
}

/// A world that gives every answer of a log gives every answer of its
/// beginning.
pub proof fn lemma_extends_consistent(w: World, later: Seq<Observation>, earlier: Seq<Observation>)
    requires
        extends(later, earlier),
        consistent(w, later),
    ensures
        consistent(w, earlier),
{
    assert forall|i: int| 0 <= i < earlier.len() implies #[trigger] agrees(w, earlier[i]) by {
        assert(earlier[i] == later.take(earlier.len() as int)[i]);
        assert(agrees(w, later[i]));
    }
}

/// Every log extends itself.
pub proof fn lemma_extends_refl(log: Seq<Observation>)
    ensures
        extends(log, log),
{
    assert(log.take(log.len() as int) =~= log);
}

/// `extends` is transitive.
pub proof fn lemma_extends_trans(a: Seq<Observation>, b: Seq<Observation>, c: Seq<Observation>)
    requires
        extends(a, b),
        extends(b, c),
    ensures
        extends(a, c),
{
    assert(a.take(c.len() as int) =~= b.take(c.len() as int));
}

/// Appending an answer extends a log.
pub proof fn lemma_extends_push(log: Seq<Observation>, o: Observation)
    ensures
        extends(log.push(o), log),
{
    assert(log.push(o).take(log.len() as int) =~= log);
}

/// A world consistent with a log with an answer appended gives that
/// answer and is consistent with the log before it.
pub proof fn lemma_push(w: World, log: Seq<Observation>, o: Observation)
    ensures
        consistent(w, log.push(o)) ==> consistent(w, log) && agrees(w, o),
{
    lemma_extends_push(log, o);
    if consistent(w, log.push(o)) {
        assert(agrees(w, log.push(o)[log.len() as int]));
        lemma_extends_consistent(w, log.push(o), log);
    }
}

/// The language a blob is detected as from its first line: none for a huge
/// blob, otherwise the shebang language of its first line where that line
/// starts with `#!` after leading whitespace.
pub open spec fn shebang_language_of(w: World, oid: Oid) -> Option<LangId> {
    if is_huge((w.size)(oid)) {
        None
    } else {
        let line = first_line((w.data)(oid));
        if starts_with_shebang(line) {
            (w.shebang_language)(line)
        } else {
            None
        }
    }
}

/// The language of a blob entry: by its name, decoded lossily as UTF-8,
/// and for a name without an extension by its first line.
pub open spec fn blob_language(w: World, name: Seq<u8>, oid: Oid) -> Option<LangId> {
    let text = lossy_text(name);
    match (w.name_language)(text) {
        Some(lang) => Some(lang),
        None => if name_has_extension(encode_utf8(text)) {
            None
        } else {
            shebang_language_of(w, oid)
        },
    }
}

/// The counts of a text blob parsed as `lang`: one file, and tokei's line
/// counts of the lossily decoded text, with embedded languages folded in
/// except for notebooks, whose top level already holds their cells.
pub open spec fn text_tally(data: Seq<u8>, lang: LangId) -> Tally {
    let text = lossy_text(data);
    let c = if is_jupyter_language(lang) {
        tokei_top_level_counts(lang, text)
    } else {
        tokei_folded_counts(lang, text)
    };
    Tally { files: 1, code: c.0 as nat, comments: c.1 as nat, blanks: c.2 as nat }
}

/// What a blob entry adds to its tree: nothing for an unrecognized, huge or
/// binary blob, otherwise its language and counts.
pub open spec fn blob_contribution(w: World, name: Seq<u8>, oid: Oid) -> Option<(LangId, Tally)> {
    match blob_language(w, name, oid) {
        None => None,
        Some(lang) => if is_huge((w.size)(oid)) || is_binary((w.data)(oid)) {
            None
        } else {
            Some((lang, text_tally((w.data)(oid), lang)))
        },
    }
}

/// The totals of the tree `oid`, walked with the exclude state `active`,
/// with `fuel` levels of nesting allowed; `None` where the tree is deeper.
pub open spec fn tree_totals_fuel(
    w: World,
    pats: Seq<Seq<Seq<u8>>>,
    oid: Oid,
    active: Seq<(usize, usize)>,
    fuel: nat,
) -> Option<Map<LangId, Tally>>
    decreases fuel, 0nat,
{
    if fuel == 0 {
        None
    } else {
        let entries = (w.tree)(oid);
        entries_totals(w, pats, entries, active, (fuel - 1) as nat, entries.len())
    }
}

/// The totals of the first `k` of `entries`.
pub open spec fn entries_totals(
    w: World,
    pats: Seq<Seq<Seq<u8>>>,
    entries: Seq<EntryView>,
    active: Seq<(usize, usize)>,
    fuel: nat,
    k: nat,
) -> Option<Map<LangId, Tally>>
    decreases fuel, k + 1,
{
    if k == 0 {
        Some(Map::empty())
    } else {
        match entries_totals(w, pats, entries, active, fuel, (k - 1) as nat) {
            None => None,
            Some(prev) => entry_step(w, pats, entries[k - 1], active, fuel, prev),
        }
    }
}

/// The totals after adding one entry to `prev`.
pub open spec fn entry_step(
    w: World,
    pats: Seq<Seq<Seq<u8>>>,
    e: EntryView,
    active: Seq<(usize, usize)>,
    fuel: nat,
    prev: Map<LangId, Tally>,
) -> Option<Map<LangId, Tally>>
    decreases fuel, 1nat,
{
    if pruned(pats, active, e.name) {
        Some(prev)
    } else {
        match e.kind {
            EntryKind::Tree => match tree_totals_fuel(
                w,
                pats,
                e.oid,
                advance(pats, active, e.name),
                fuel,
            ) {
                None => None,
                Some(child) => Some(merge_totals(prev, child)),
            },
            EntryKind::Blob | EntryKind::BlobExecutable => match blob_contribution(w, e.name, e.oid) {
                None => Some(prev),
                Some((lang, t)) => Some(add_to(prev, lang, t)),
            },
            _ => Some(prev),
        }
    }
}

/// The tree has totals: its nesting is finite.
pub open spec fn has_totals(
    w: World,
    pats: Seq<Seq<Seq<u8>>>,
    oid: Oid,
    active: Seq<(usize, usize)>,
) -> bool {
    exists|fuel: nat| #[trigger] tree_totals_fuel(w, pats, oid, active, fuel) is Some
}

/// The totals of the tree `oid` under the exclude state `active`: the sum,
/// over its entries that are not excluded, of the totals of its subtrees
/// and of what its blobs contribute.
pub open spec fn tree_totals(
    w: World,
    pats: Seq<Seq<Seq<u8>>>,
    oid: Oid,
    active: Seq<(usize, usize)>,
) -> Map<LangId, Tally> {
    let fuel = choose|fuel: nat| #[trigger] tree_totals_fuel(w, pats, oid, active, fuel) is Some;
    tree_totals_fuel(w, pats, oid, active, fuel)->Some_0
}

/// More fuel never changes totals that enough fuel gave.
pub proof fn lemma_fuel_monotonic(
    w: World,
    pats: Seq<Seq<Seq<u8>>>,
    oid: Oid,
    active: Seq<(usize, usize)>,
    f1: nat,
    f2: nat,
)
    requires
        f1 <= f2,
        tree_totals_fuel(w, pats, oid, active, f1) is Some,
    ensures
        tree_totals_fuel(w, pats, oid, active, f2) == tree_totals_fuel(w, pats, oid, active, f1),
    decreases f1, 0nat,
{
    let entries = (w.tree)(oid);
    lemma_entries_fuel_monotonic(
        w,
        pats,
        entries,
        active,
        (f1 - 1) as nat,
        (f2 - 1) as nat,
        entries.len(),
    );
}

proof fn lemma_entries_fuel_monotonic(
    w: World,
    pats: Seq<Seq<Seq<u8>>>,
    entries: Seq<EntryView>,
    active: Seq<(usize, usize)>,
    f1: nat,
    f2: nat,
    k: nat,
)
    requires
        f1 <= f2,
        k <= entries.len(),
        entries_totals(w, pats, entries, active, f1, k) is Some,
    ensures
        entries_totals(w, pats, entries, active, f2, k) == entries_totals(
            w,
            pats,
            entries,
            active,
            f1,
            k,
        ),
    decreases f1, k + 1,
{
    if k > 0 {
        let m = (k - 1) as nat;
        assert(entries_totals(w, pats, entries, active, f1, m) is Some);
        lemma_entries_fuel_monotonic(w, pats, entries, active, f1, f2, m);
        let prev = entries_totals(w, pats, entries, active, f1, m)->Some_0;
        let e = entries[m as int];
        assert(entries_totals(w, pats, entries, active, f1, k) == entry_step(
            w,
            pats,
            e,
            active,
            f1,
            prev,
        ));
        assert(entries_totals(w, pats, entries, active, f2, k) == entry_step(
            w,
            pats,
            e,
            active,
            f2,
            prev,
        ));
        if !pruned(pats, active, e.name) && e.kind == EntryKind::Tree {
            assert(tree_totals_fuel(w, pats, e.oid, advance(pats, active, e.name), f1) is Some);
            lemma_fuel_monotonic(w, pats, e.oid, advance(pats, active, e.name), f1, f2);
        }
    }
}

/// The totals of a tree that has totals are those any sufficient fuel gives.
pub proof fn lemma_tree_totals(
    w: World,
    pats: Seq<Seq<Seq<u8>>>,
    oid: Oid,
    active: Seq<(usize, usize)>,
    fuel: nat,
)
    requires
        tree_totals_fuel(w, pats, oid, active, fuel) is Some,
    ensures
        has_totals(w, pats, oid, active),
        tree_totals(w, pats, oid, active) == tree_totals_fuel(w, pats, oid, active, fuel)->Some_0,
{
    let f = choose|f: nat| #[trigger] tree_totals_fuel(w, pats, oid, active, f) is Some;
    if f <= fuel {
        lemma_fuel_monotonic(w, pats, oid, active, f, fuel);
    } else {
        lemma_fuel_monotonic(w, pats, oid, active, fuel, f);
    }
}

/// Some fuel makes the first `k` entries total `m`.
pub open spec fn entries_reach(
    w: World,
    pats: Seq<Seq<Seq<u8>>>,
    entries: Seq<EntryView>,
    active: Seq<(usize, usize)>,
    k: nat,
    m: Map<LangId, Tally>,
) -> bool {
    exists|f: nat| #[trigger] entries_totals(w, pats, entries, active, f, k) == Some(m)
}

/// No entries total nothing.
pub proof fn lemma_reach_start(
    w: World,
    pats: Seq<Seq<Seq<u8>>>,
    entries: Seq<EntryView>,
    active: Seq<(usize, usize)>,
)
    ensures
        entries_reach(w, pats, entries, active, 0, Map::empty()),
{
    assert(entries_totals(w, pats, entries, active, 0, 0) == Some(Map::<LangId, Tally>::empty()));
}

/// An excluded entry, a symbolic link or a submodule adds nothing.
pub proof fn lemma_reach_skip(
    w: World,
    pats: Seq<Seq<Seq<u8>>>,
    entries: Seq<EntryView>,
    active: Seq<(usize, usize)>,
    k: nat,
    m: Map<LangId, Tally>,
)
    requires
        entries_reach(w, pats, entries, active, k, m),
        k < entries.len(),
        pruned(pats, active, entries[k as int].name) || entries[k as int].kind == EntryKind::Link
            || entries[k as int].kind == EntryKind::Commit,
    ensures
        entries_reach(w, pats, entries, active, k + 1, m),
{
    let f = choose|f: nat| #[trigger] entries_totals(w, pats, entries, active, f, k) == Some(m);
    assert(entries_totals(w, pats, entries, active, f, k + 1) == entry_step(
        w,
        pats,
        entries[k as int],
        active,
        f,
        m,
    ));
}

/// A blob entry adds what it contributes.
pub proof fn lemma_reach_blob(
    w: World,
    pats: Seq<Seq<Seq<u8>>>,
    entries: Seq<EntryView>,
    active: Seq<(usize, usize)>,
    k: nat,
    m: Map<LangId, Tally>,
)
    requires
        entries_reach(w, pats, entries, active, k, m),
        k < entries.len(),
        !pruned(pats, active, entries[k as int].name),
        entries[k as int].kind == EntryKind::Blob || entries[k as int].kind
            == EntryKind::BlobExecutable,
    ensures
        entries_reach(
            w,
            pats,
            entries,
            active,
            k + 1,
            match blob_contribution(w, entries[k as int].name, entries[k as int].oid) {
                None => m,
                Some((lang, t)) => add_to(m, lang, t),
            },
        ),
{
    let f = choose|f: nat| #[trigger] entries_totals(w, pats, entries, active, f, k) == Some(m);
    let e = entries[k as int];
    let next = match blob_contribution(w, e.name, e.oid) {
        None => m,
        Some((lang, t)) => add_to(m, lang, t),
    };
    assert(entries_totals(w, pats, entries, active, f, k + 1) == entry_step(
        w,
        pats,
        e,
        active,
        f,
        m,
    ));
}

/// A subtree adds its totals.
pub proof fn lemma_reach_subtree(
    w: World,
    pats: Seq<Seq<Seq<u8>>>,
    entries: Seq<EntryView>,
    active: Seq<(usize, usize)>,
    k: nat,
    m: Map<LangId, Tally>,
)
    requires
        entries_reach(w, pats, entries, active, k, m),
        k < entries.len(),
        !pruned(pats, active, entries[k as int].name),
        entries[k as int].kind == EntryKind::Tree,
        has_totals(
            w,
            pats,
            entries[k as int].oid,
            advance(pats, active, entries[k as int].name),
        ),
    ensures
        entries_reach(
            w,
            pats,
            entries,
            active,
            k + 1,
            merge_totals(
                m,
                tree_totals(
                    w,
                    pats,
                    entries[k as int].oid,
                    advance(pats, active, entries[k as int].name),
                ),
            ),
        ),
{
    let e = entries[k as int];
    let child_active = advance(pats, active, e.name);
    let f = choose|f: nat| #[trigger] entries_totals(w, pats, entries, active, f, k) == Some(m);
    let fc = choose|fc: nat| #[trigger] tree_totals_fuel(w, pats, e.oid, child_active, fc) is Some;
    lemma_tree_totals(w, pats, e.oid, child_active, fc);
    let g: nat = if f >= fc {
        f
    } else {
        fc
    };
    lemma_entries_fuel_monotonic(w, pats, entries, active, f, g, k);
    lemma_fuel_monotonic(w, pats, e.oid, child_active, fc, g);
    assert(entries_totals(w, pats, entries, active, g, k + 1) == entry_step(
        w,
        pats,
        e,
        active,
        g,
        m,
    ));
    assert(entries_totals(w, pats, entries, active, g, k + 1) == Some(
        merge_totals(m, tree_totals(w, pats, e.oid, child_active)),
    ));
}

/// A tree whose entries all together total `m` has totals `m`.
pub proof fn lemma_reach_done(
    w: World,
    pats: Seq<Seq<Seq<u8>>>,
    oid: Oid,
    active: Seq<(usize, usize)>,
    m: Map<LangId, Tally>,
)
    requires
        entries_reach(w, pats, (w.tree)(oid), active, (w.tree)(oid).len(), m),
    ensures
        has_totals(w, pats, oid, active),
        tree_totals(w, pats, oid, active) == m,
{
    let entries = (w.tree)(oid);
    let f = choose|f: nat| #[trigger] entries_totals(w, pats, entries, active, f, entries.len()) == Some(m);
    assert(tree_totals_fuel(w, pats, oid, active, f + 1) == Some(m));
    lemma_tree_totals(w, pats, oid, active, f + 1);
}

/// Later entries only add: each language's tally after `k2` entries is
/// at least its tally after `k1 <= k2` entries.
pub proof fn lemma_entries_monotone(
    w: World,
    pats: Seq<Seq<Seq<u8>>>,
    entries: Seq<EntryView>,
    active: Seq<(usize, usize)>,
    f: nat,
    k1: nat,
    k2: nat,
)
    requires
        k1 <= k2 <= entries.len(),
        entries_totals(w, pats, entries, active, f, k2) is Some,
    ensures
        entries_totals(w, pats, entries, active, f, k1) is Some,
        forall|lang: LangId|
            tally_le(
                #[trigger] tally_of(entries_totals(w, pats, entries, active, f, k1)->Some_0, lang),
                tally_of(entries_totals(w, pats, entries, active, f, k2)->Some_0, lang),
            ),
    decreases k2,
{
    if k1 < k2 {
        let m = (k2 - 1) as nat;
        let e = entries[m as int];
        assert(entries_totals(w, pats, entries, active, f, k2) == match entries_totals(
            w,
            pats,
            entries,
            active,
            f,
            m,
        ) {
            None => None,
            Some(prev) => entry_step(w, pats, e, active, f, prev),
        });
        let prev = entries_totals(w, pats, entries, active, f, m)->Some_0;
        let next = entries_totals(w, pats, entries, active, f, k2)->Some_0;
        assert forall|lang: LangId| tally_le(#[trigger] tally_of(prev, lang), tally_of(next, lang)) by {
            if !pruned(pats, active, e.name) {
                match e.kind {
                    EntryKind::Tree => {
                        let child = tree_totals_fuel(w, pats, e.oid, advance(pats, active, e.name), f)->Some_0;
                        assert(next == merge_totals(prev, child));
                    },
                    EntryKind::Blob | EntryKind::BlobExecutable => {
                        match blob_contribution(w, e.name, e.oid) {
                            None => {},
                            Some((l, t)) => {
                                assert(next == add_to(prev, l, t));
                            },
                        }
                    },
                    _ => {},
                }
            }
        }
        lemma_entries_monotone(w, pats, entries, active, f, k1, m);
        let first = entries_totals(w, pats, entries, active, f, k1)->Some_0;
        assert forall|lang: LangId| tally_le(#[trigger] tally_of(first, lang), tally_of(next, lang)) by {
            assert(tally_le(tally_of(first, lang), tally_of(prev, lang)));
            assert(tally_le(tally_of(prev, lang), tally_of(next, lang)));
        }
    }
}

/// Where the first `k` entries of a tree already total more than a `u64`
/// holds for some language, so does the tree.
pub proof fn lemma_overflow_from_reach(
    w: World,
    pats: Seq<Seq<Seq<u8>>>,
    oid: Oid,
    active: Seq<(usize, usize)>,
    k: nat,
    m: Map<LangId, Tally>,
)
    requires
        k <= (w.tree)(oid).len(),
        entries_reach(w, pats, (w.tree)(oid), active, k, m),
        !totals_fit(m),
    ensures
        has_totals(w, pats, oid, active) ==> !totals_fit(tree_totals(w, pats, oid, active)),
{
    if has_totals(w, pats, oid, active) {
        let entries = (w.tree)(oid);
        let big = choose|fuel: nat| #[trigger] tree_totals_fuel(w, pats, oid, active, fuel) is Some;
        lemma_tree_totals(w, pats, oid, active, big);
        let f = choose|f: nat| #[trigger] entries_totals(w, pats, entries, active, f, k) == Some(m);
        let g: nat = if f >= (big - 1) as nat {
            f
        } else {
            (big - 1) as nat
        };
        lemma_entries_fuel_monotonic(w, pats, entries, active, (big - 1) as nat, g, entries.len());
        lemma_entries_fuel_monotonic(w, pats, entries, active, f, g, k);
        lemma_entries_monotone(w, pats, entries, active, g, k, entries.len());
        let total = tree_totals(w, pats, oid, active);
        assert(tree_totals_fuel(w, pats, oid, active, big) == entries_totals(
            w,
            pats,
            entries,
            active,
            (big - 1) as nat,
            entries.len(),
        ));
        assert(entries_totals(w, pats, entries, active, g, entries.len()) == Some(total));
        assert(entries_totals(w, pats, entries, active, g, k) == Some(m));
        let lang = choose|lang: LangId| !tally_fits(#[trigger] tally_of(m, lang));
        assert(tally_le(
            tally_of(entries_totals(w, pats, entries, active, g, k)->Some_0, lang),
            tally_of(entries_totals(w, pats, entries, active, g, entries.len())->Some_0, lang),
        ));
        assert(tally_le(tally_of(m, lang), tally_of(total, lang)));
        assert(!tally_fits(tally_of(total, lang)));
    }
}

/// Where a subtree's totals do not fit in `u64`s, neither do the tree's.
pub proof fn lemma_overflow_from_subtree(
    w: World,
    pats: Seq<Seq<Seq<u8>>>,
    oid: Oid,
    active: Seq<(usize, usize)>,
    k: nat,
)
    requires
        k < (w.tree)(oid).len(),
        !pruned(pats, active, (w.tree)(oid)[k as int].name),
        (w.tree)(oid)[k as int].kind == EntryKind::Tree,
        has_totals(
            w,
            pats,
            (w.tree)(oid)[k as int].oid,
            advance(pats, active, (w.tree)(oid)[k as int].name),
        ) ==> !totals_fit(
            tree_totals(
                w,
                pats,
                (w.tree)(oid)[k as int].oid,
                advance(pats, active, (w.tree)(oid)[k as int].name),
            ),
        ),
    ensures
        has_totals(w, pats, oid, active) ==> !totals_fit(tree_totals(w, pats, oid, active)),
{
    if has_totals(w, pats, oid, active) {
        let entries = (w.tree)(oid);
        let e = entries[k as int];
        let child_active = advance(pats, active, e.name);
        let big = choose|fuel: nat| #[trigger] tree_totals_fuel(w, pats, oid, active, fuel) is Some;
        lemma_tree_totals(w, pats, oid, active, big);
        let f = (big - 1) as nat;
        lemma_entries_monotone(w, pats, entries, active, f, k + 1, entries.len());
        lemma_entries_monotone(w, pats, entries, active, f, k, k + 1);
        let prev = entries_totals(w, pats, entries, active, f, k)->Some_0;
        assert(entries_totals(w, pats, entries, active, f, k + 1) == entry_step(
            w,
            pats,
            e,
            active,
            f,
            prev,
        ));
        assert(tree_totals_fuel(w, pats, e.oid, child_active, f) is Some);
        lemma_tree_totals(w, pats, e.oid, child_active, f);
        let child = tree_totals(w, pats, e.oid, child_active);
        let next = merge_totals(prev, child);
        assert(entries_totals(w, pats, entries, active, f, k + 1) == Some(next));
        let total = tree_totals(w, pats, oid, active);
        let lang = choose|lang: LangId| !tally_fits(#[trigger] tally_of(child, lang));
        assert(tally_of(next, lang) == crate::counts::add_tally(tally_of(prev, lang), tally_of(child, lang)));
        assert(tally_le(tally_of(next, lang), tally_of(total, lang)));
        assert(!tally_fits(tally_of(total, lang)));
    }
}

/// Where a subtree is too deep for `f` levels of fuel, its tree is too
/// deep for `f + 1`.
pub proof fn lemma_too_deep_from_subtree(
    w: World,
    pats: Seq<Seq<Seq<u8>>>,
    oid: Oid,
    active: Seq<(usize, usize)>,
    f: nat,
    k: nat,
)
    requires
        k < (w.tree)(oid).len(),
        !pruned(pats, active, (w.tree)(oid)[k as int].name),
        (w.tree)(oid)[k as int].kind == EntryKind::Tree,
        tree_totals_fuel(
            w,
            pats,
            (w.tree)(oid)[k as int].oid,
            advance(pats, active, (w.tree)(oid)[k as int].name),
            f,
        ) is None,
    ensures
        tree_totals_fuel(w, pats, oid, active, f + 1) is None,
{
    let entries = (w.tree)(oid);
    assert(tree_totals_fuel(w, pats, oid, active, f + 1) == entries_totals(
        w,
        pats,
        entries,
        active,
        f,
        entries.len(),
    ));
    if entries_totals(w, pats, entries, active, f, entries.len()) is Some {
        lemma_entries_monotone(w, pats, entries, active, f, k + 1, entries.len());
        lemma_entries_monotone(w, pats, entries, active, f, k, k + 1);
        let prev = entries_totals(w, pats, entries, active, f, k)->Some_0;
        assert(entries_totals(w, pats, entries, active, f, k + 1) == entry_step(
            w,
            pats,
            entries[k as int],
            active,
            f,
            prev,
        ));
    }
}

/// The entries that are neither symbolic links nor submodules, in order.
pub open spec fn without_links(entries: Seq<EntryView>) -> Seq<EntryView>
    decreases entries.len(),
{
    if entries.len() == 0 {
        entries
    } else {
        let p = without_links(entries.drop_last());
        let e = entries.last();
        if e.kind == EntryKind::Link || e.kind == EntryKind::Commit {
            p
        } else {
            p.push(e)
        }
    }
}

/// The totals of the first `k` entries depend on those entries only.
proof fn lemma_totals_prefix(
    w: World,
    pats: Seq<Seq<Seq<u8>>>,
    a: Seq<EntryView>,
    b: Seq<EntryView>,
    active: Seq<(usize, usize)>,
    fuel: nat,
    k: nat,
)
    requires
        k <= a.len(),
        k <= b.len(),
        a.take(k as int) == b.take(k as int),
    ensures
        entries_totals(w, pats, a, active, fuel, k) == entries_totals(w, pats, b, active, fuel, k),
    decreases k,
{
    if k > 0 {
        assert(a.take(k - 1) =~= a.take(k as int).take(k - 1));
        assert(b.take(k - 1) =~= b.take(k as int).take(k - 1));
        assert(a[k - 1] == a.take(k as int)[k - 1]);
        assert(b[k - 1] == b.take(k as int)[k - 1]);
        lemma_totals_prefix(w, pats, a, b, active, fuel, (k - 1) as nat);
    }
}

/// Symbolic links and submodules count for nothing: a tree's entries give
/// the same totals with them left out.
pub proof fn lemma_links_count_nothing(
    w: World,
    pats: Seq<Seq<Seq<u8>>>,
    entries: Seq<EntryView>,
    active: Seq<(usize, usize)>,
    fuel: nat,
)
    ensures
        entries_totals(w, pats, entries, active, fuel, entries.len()) == entries_totals(
            w,
            pats,
            without_links(entries),
            active,
            fuel,
            without_links(entries).len(),
        ),
    decreases entries.len(),
{
    if entries.len() > 0 {
        let d = entries.drop_last();
        let e = entries.last();
        let wd = without_links(d);
        lemma_links_count_nothing(w, pats, d, active, fuel);
        assert(entries.take(d.len() as int) =~= d.take(d.len() as int));
        lemma_totals_prefix(w, pats, entries, d, active, fuel, d.len());
        assert(d.take(d.len() as int) =~= d);
        let n = entries.len();
        assert(entries[n - 1] == e);
        assert(entries_totals(w, pats, entries, active, fuel, n) == match entries_totals(
            w,
            pats,
            entries,
            active,
            fuel,
            (n - 1) as nat,
        ) {
            None => None,
            Some(prev) => entry_step(w, pats, e, active, fuel, prev),
        });
        if !(e.kind == EntryKind::Link || e.kind == EntryKind::Commit) {
            let wl = wd.push(e);
            assert(without_links(entries) == wl);
            assert(wl.take(wd.len() as int) =~= wd.take(wd.len() as int));
            lemma_totals_prefix(w, pats, wl, wd, active, fuel, wd.len());
            assert(wd.take(wd.len() as int) =~= wd);
            assert(wl[wd.len() as int] == e);
            assert(entries_totals(w, pats, wl, active, fuel, wl.len()) == match entries_totals(
                w,
                pats,
                wl,
                active,
                fuel,
                wd.len(),
            ) {
                None => None,
                Some(prev) => entry_step(w, pats, e, active, fuel, prev),
            });
        } else {
            assert(without_links(entries) == wd);
            match entries_totals(w, pats, d, active, fuel, d.len()) {
                None => {},
                Some(prev) => {
                    assert(entry_step(w, pats, e, active, fuel, prev) == Some(prev));
                },
            }
        }
    }
}

/// With no pattern active, a walk does not depend on the patterns.
proof fn lemma_unpatterned(
    w: World,
    p1: Seq<Seq<Seq<u8>>>,
    p2: Seq<Seq<Seq<u8>>>,
    oid: Oid,
    fuel: nat,
)
    ensures
        tree_totals_fuel(w, p1, oid, Seq::empty(), fuel) == tree_totals_fuel(w, p2, oid, Seq::empty(), fuel),
    decreases fuel, 0nat,
{
    if fuel > 0 {
        let entries = (w.tree)(oid);
        lemma_unpatterned_entries(w, p1, p2, entries, (fuel - 1) as nat, entries.len());
    }
}

proof fn lemma_unpatterned_entries(
    w: World,
    p1: Seq<Seq<Seq<u8>>>,
    p2: Seq<Seq<Seq<u8>>>,
    entries: Seq<EntryView>,
    fuel: nat,
    k: nat,
)
    requires
        k <= entries.len(),
    ensures
        entries_totals(w, p1, entries, Seq::empty(), fuel, k) == entries_totals(
            w,
            p2,
            entries,
            Seq::empty(),
            fuel,
            k,
        ),
    decreases fuel, k + 1,
{
    if k > 0 {
        let m = (k - 1) as nat;
        lemma_unpatterned_entries(w, p1, p2, entries, fuel, m);
        let e = entries[m as int];
        let none = Seq::<(usize, usize)>::empty();
        assert(!pruned(p1, none, e.name));
        assert(!pruned(p2, none, e.name));
        assert(advance(p1, none, e.name) == none);
        assert(advance(p2, none, e.name) == none);
        if e.kind == EntryKind::Tree {
            lemma_unpatterned(w, p1, p2, e.oid, fuel);
        }
        match entries_totals(w, p1, entries, none, fuel, m) {
            None => {},
            Some(prev) => {
                assert(entry_step(w, p1, e, none, fuel, prev) == entry_step(w, p2, e, none, fuel, prev));
            },
        }
    }
}

/// The entries not named `name`, in order.
pub open spec fn without_name(entries: Seq<EntryView>, name: Seq<u8>) -> Seq<EntryView>
    decreases entries.len(),
{
    if entries.len() == 0 {
        entries
    } else {
        let p = without_name(entries.drop_last(), name);
        if entries.last().name == name {
            p
        } else {
            p.push(entries.last())
        }
    }
}

/// Excluding a top-level name leaves out exactly the root's entries of
/// that name: the root's entries counted with the one pattern `name` give
/// the totals of its other entries counted with no pattern, whatever those
/// hold below them (an entry `vendored`, `Vendor` or `x/vendor` still
/// counts).
pub proof fn lemma_exclude_top_level(
    w: World,
    name: Seq<u8>,
    entries: Seq<EntryView>,
    fuel: nat,
)
    ensures
        entries_totals(w, seq![seq![name]], entries, seq![(0usize, 0usize)], fuel, entries.len())
            == entries_totals(
            w,
            Seq::empty(),
            without_name(entries, name),
            Seq::empty(),
            fuel,
            without_name(entries, name).len(),
        ),
    decreases entries.len(),
{
    let pats = seq![seq![name]];
    let act = seq![(0usize, 0usize)];
    let none = Seq::<(usize, usize)>::empty();
    let nopats = Seq::<Seq<Seq<u8>>>::empty();
    if entries.len() > 0 {
        let d = entries.drop_last();
        let e = entries.last();
        let wd = without_name(d, name);
        lemma_exclude_top_level(w, name, d, fuel);
        assert(entries.take(d.len() as int) =~= d.take(d.len() as int));
        lemma_totals_prefix(w, pats, entries, d, act, fuel, d.len());
        assert(d.take(d.len() as int) =~= d);
        let n = entries.len();
        assert(entries[n - 1] == e);
        assert(entries_totals(w, pats, entries, act, fuel, n) == match entries_totals(
            w,
            pats,
            entries,
            act,
            fuel,
            (n - 1) as nat,
        ) {
            None => None,
            Some(prev) => entry_step(w, pats, e, act, fuel, prev),
        });
        assert(pats[0][0] == name);
        if e.name == name {
            assert(completes(pats, act[0], e.name));
            assert(pruned(pats, act, e.name));
            assert(without_name(entries, name) == wd);
        } else {
            assert(!pruned(pats, act, e.name)) by {
                if pruned(pats, act, e.name) {
                    let j = choose|j: int| 0 <= j < act.len() && completes(pats, #[trigger] act[j], e.name);
                    assert(j == 0);
                }
            }
            assert(advance(pats, act.drop_last(), e.name) == none);
            assert(act.drop_last() =~= none);
            assert(advance(pats, act, e.name) == none);
            assert(!pruned(nopats, none, e.name));
            if e.kind == EntryKind::Tree {
                lemma_unpatterned(w, pats, nopats, e.oid, fuel);
            }
            let wl = wd.push(e);
            assert(without_name(entries, name) == wl);
            assert(wl.take(wd.len() as int) =~= wd.take(wd.len() as int));
            lemma_totals_prefix(w, nopats, wl, wd, none, fuel, wd.len());
            assert(wd.take(wd.len() as int) =~= wd);
            assert(wl[wd.len() as int] == e);
            assert(entries_totals(w, nopats, wl, none, fuel, wl.len()) == match entries_totals(
                w,
                nopats,
                wl,
                none,
                fuel,
                wd.len(),
            ) {
                None => None,
                Some(prev) => entry_step(w, nopats, e, none, fuel, prev),
            });
            match entries_totals(w, pats, d, act, fuel, d.len()) {
                None => {},
                Some(prev) => {
                    assert(entry_step(w, pats, e, act, fuel, prev) == entry_step(
                        w,
                        nopats,
                        e,
                        none,
                        fuel,
                        prev,
                    ));
                },
            }
        }
    }
}

/// A counted text blob is one file, whatever its lines: an empty file
/// counts as one file with no lines.
pub proof fn lemma_text_is_one_file(data: Seq<u8>, lang: LangId)
    ensures
        text_tally(data, lang).files == 1,
{
}

/// What a blob adds to its tree is one file of its language, or nothing.
pub proof fn lemma_contribution_one_file(w: World, name: Seq<u8>, oid: Oid)
    ensures
        blob_contribution(w, name, oid) matches Some((lang, t)) ==> t.files == 1 && blob_language(
            w,
            name,
            oid,
        ) == Some(lang),
{
}

} // verus!
