//! The counter: per-language totals of a tree, with exclusion and memoized
//! trees, blob classifications, line counts and shebang detections.
//!
//! Every answer the counter receives from the repository, from tokei or
//! from the file system is appended to its log. Its caches are valid in
//! every world that gives all the logged answers, so a cached result and a
//! freshly computed one are the same function of that world: the totals of
//! a tree do not depend on whether caching is on.
use crate::blob::{
    name_has_extension, first_line_of, has_extension, has_shebang, is_binary, is_huge, sniff_binary, HUGE_BLOB_LIMIT,
    NEWLINE,
};
use crate::counts::{add_tally, add_to, merge_totals, tally_of, totals_fit, Counts, LangTotals, Tally};
use crate::excludes::{
    active_wf, exclude_patterns, initial_active, parse_excludes, patterns_wf, step_excludes,
    text_bytes,
};
use crate::languages::{
    file_language_read, is_language_index, language_is_jupyter, language_of_file_with,
    language_of_name, lossy_text, lossy_utf8, name_language_read, tokei_parse,
};
use crate::skips::{
    lemma_meets_blob, lemma_meets_done, lemma_meets_flat, lemma_meets_start, lemma_meets_subtree,
    lemma_recorded_tree_meets, lemma_skips_done, lemma_skips_flat, lemma_skips_reach_sets,
    lemma_skips_start, lemma_skips_subtree, lemma_tree_skips_sets, meets_reach, sets_le, skips_reach,
    tree_meets, tree_skips, SkipSets,
};
use crate::repo::{
    data_read, decode_tree, find_header_size, read_blob, read_tree_data, size_read, tree_data_read,
    tree_entries,
};
use crate::world::{
    agrees, blob_contribution, blob_language, consistent, entries_reach, entry_views, extends, has_totals,
    lemma_extends_consistent, lemma_extends_push, lemma_extends_refl, lemma_extends_trans, lemma_push,
    lemma_overflow_from_reach, lemma_overflow_from_subtree, lemma_reach_blob, lemma_reach_done,
    lemma_too_deep_from_subtree, tree_totals_fuel, lemma_reach_skip, lemma_reach_start, lemma_reach_subtree,
    shebang_language_of, text_tally, tree_totals, lemma_links_count_nothing, lemma_tree_totals,
    lemma_exclude_top_level, without_links, without_name, EntryKind, EntryView, LangId, Observation, Oid, World,
};
use std::collections::{BTreeMap, BTreeSet};
use vstd::prelude::*;
use vstd::utf8::encode_utf8;

verus! {

/// A directory that does not exist: entry names are joined onto it before
/// tokei sees them, so that tokei's detection by content, which opens the
/// path, can never read a local file in the entry's place.
pub const SENTINEL_DIR: &'static str = "/__loch_no_such_dir__";

/// The nesting the walk follows: as deep as a `usize` counts, which is a
/// measure for the recursion and no bound a repository reaches.
pub const MAX_TREE_DEPTH: usize = usize::MAX;

/// Why counting a tree failed.
#[derive(Debug)]
pub enum StatsError {
    /// The tree object could not be read.
    ReadTree(Oid, gix::objs::find::existing::Error),
    /// The object is not a tree.
    NotATree(Oid, gix::object::try_into::Error),
    /// An entry of the tree could not be decoded.
    CorruptTree(Oid, gix::objs::decode::Error),
    /// The header of the blob could not be read.
    ReadHeader(Oid, gix::objs::find::existing::Error),
    /// The blob could not be read.
    ReadBlob(Oid, gix::objs::find::existing::Error),
    /// The temporary file a first line is handed to tokei in failed.
    TempFile(std::io::Error),
    /// The tree nests more than `MAX_TREE_DEPTH` levels.
    TooDeep(Oid),
    /// A count of the tree exceeds `u64::MAX`.
    CountOverflow(Oid),
}

/// A blob skipped for its size, reported the first time it is met.
#[derive(Debug)]
pub struct HugeBlob {
    /// The name of the entry it was met under; `None` where it was met
    /// while looking for a shebang.
    pub name: Option<Vec<u8>>,
    pub oid: Oid,
    /// The size its header declares.
    pub size: u64,
}

/// How a blob was classified before counting.
pub enum BlobClass {
    Text,
    Binary,
    Huge,
}

/// Every language of the totals is a tokei language.
pub open spec fn languages_only(m: Map<LangId, Tally>) -> bool {
    forall|lang: LangId| #[trigger] m.contains_key(lang) ==> is_language_index(lang)
}

/// The entries were decoded from bytes a read of the tree gave.
pub open spec fn tree_attested(oid: Oid, entries: Seq<EntryView>) -> bool {
    exists|data: Seq<u8>| #[trigger] tree_data_read(oid, data) && tree_entries(data) == entries
}

/// The answer was given by a read of the question it answers.
pub open spec fn attested(o: Observation) -> bool {
    match o {
        Observation::Tree(oid, entries) => tree_attested(oid, entries),
        Observation::Size(oid, size) => size_read(oid, size),
        Observation::Data(oid, data) => data_read(oid, data),
        Observation::NameLanguage(name, lang) => name_language_read(SENTINEL_DIR@, name, lang),
        Observation::ShebangLanguage(line, lang) => file_language_read(line.push(NEWLINE), lang),
    }
}

/// The model of what a blob contributes.
pub open spec fn contribution_view(c: Option<(LangId, Counts)>) -> Option<(LangId, Tally)> {
    match c {
        None => None,
        Some((lang, counts)) => Some((lang, counts.tally())),
    }
}

/// The totals `t` are those of the tree `oid`, walked from the root with
/// the patterns `pats`, in every world that gives every answer of `log`
/// (such a world exists wherever no question in `log` got two different
/// answers: `lemma_world_exists`).
pub open spec fn counted(
    log: Seq<Observation>,
    pats: Seq<Seq<Seq<u8>>>,
    oid: Oid,
    t: LangTotals,
) -> bool {
    &&& t.wf()
    &&& languages_only(t.tallies())
    &&& forall|w: World| #[trigger]
        consistent(w, log) ==> has_totals(w, pats, oid, initial_active(pats.len()))
            && t.tallies() == tree_totals(w, pats, oid, initial_active(pats.len()))
}

/// The error comes from reading the repository or the file system, not
/// from the tree's depth or size.
pub open spec fn is_read_error(e: StatsError) -> bool {
    !(e is TooDeep) && !(e is CountOverflow)
}

/// The set is the earlier one, or the earlier one with `oid` added.
pub open spec fn grows_by(later: Set<Oid>, earlier: Set<Oid>, oid: Oid) -> bool {
    later == earlier || later == earlier.insert(oid)
}

/// Trees recorded with some skips stay recorded as more is recorded.
proof fn lemma_tree_cache_skips(
    w: World,
    pats: Seq<Seq<Seq<u8>>>,
    cache: Map<Oid, LangTotals>,
    a: SkipSets,
    b: SkipSets,
)
    requires
        sets_le(a, b),
        forall|k: Oid| #[trigger] cache.contains_key(k) ==> tree_skips(w, pats, k, Seq::empty(), a),
    ensures
        forall|k: Oid| #[trigger] cache.contains_key(k) ==> tree_skips(w, pats, k, Seq::empty(), b),
{
    assert forall|k: Oid| #[trigger] cache.contains_key(k) implies tree_skips(
        w,
        pats,
        k,
        Seq::empty(),
        b,
    ) by {
        lemma_tree_skips_sets(w, pats, k, Seq::empty(), a, b);
    }
}

/// Growing by the same blob twice grows by it once.
proof fn lemma_grows_by_trans(a: Set<Oid>, b: Set<Oid>, c: Set<Oid>, oid: Oid)
    requires
        grows_by(a, b, oid),
        grows_by(b, c, oid),
    ensures
        grows_by(a, c, oid),
{
    if a != c && a != c.insert(oid) {
        assert(a =~= c.insert(oid));
    }
}

/// The entry name is neither recognized by tokei nor has an extension, so
/// its language is looked for on the blob's first line.
pub open spec fn shebang_path(w: World, name: Seq<u8>) -> bool {
    (w.name_language)(lossy_text(name)) is None && !name_has_extension(encode_utf8(lossy_text(name)))
}

/// The skip sets `(unrecognized, binary, huge)` record the blob entry as
/// what it is: an entry with no language as unrecognized or huge (as huge
/// where it was found huge while its first line was looked for), and a
/// recognized huge or binary blob as huge or binary.
pub open spec fn skip_recorded(
    sets: (Set<Oid>, Set<Oid>, Set<Oid>),
    w: World,
    name: Seq<u8>,
    oid: Oid,
) -> bool {
    match blob_language(w, name, oid) {
        None => (sets.0.contains(oid) || sets.2.contains(oid)) && (is_huge((w.size)(oid))
            && shebang_path(w, name) ==> sets.2.contains(oid)),
        Some(_) => (is_huge((w.size)(oid)) ==> sets.2.contains(oid)) && (!is_huge((w.size)(oid))
            && is_binary((w.data)(oid)) ==> sets.1.contains(oid)),
    }
}

/// The skip sets after a blob entry is met: a blob found huge while its
/// first line is looked for is recorded as huge; then a blob with no
/// language is recorded as unrecognized unless it is recorded as huge, and
/// a recognized huge or binary blob is recorded as what it is.
pub open spec fn after_meeting(
    sets: (Set<Oid>, Set<Oid>, Set<Oid>),
    w: World,
    name: Seq<u8>,
    oid: Oid,
) -> (Set<Oid>, Set<Oid>, Set<Oid>) {
    let huge = is_huge((w.size)(oid));
    let s = if shebang_path(w, name) && huge {
        (sets.0, sets.1, sets.2.insert(oid))
    } else {
        sets
    };
    match blob_language(w, name, oid) {
        None => if s.2.contains(oid) {
            s
        } else {
            (s.0.insert(oid), s.1, s.2)
        },
        Some(_) => if huge {
            (s.0, s.1, s.2.insert(oid))
        } else if is_binary((w.data)(oid)) {
            (s.0, s.1.insert(oid), s.2)
        } else {
            s
        },
    }
}

/// None of the answers the log gained after `earlier` is the bytes of
/// `oid`: the blob's payload was not read.
pub open spec fn bytes_unread(later: Seq<Observation>, earlier: Seq<Observation>, oid: Oid) -> bool {
    forall|i: int|
        earlier.len() <= i < later.len() ==> !(#[trigger] later[i] matches Observation::Data(id, _)
            && id == oid)
}

/// Where tokei knows an entry's name, the name decides its language:
/// whether or not the name has an extension, the blob's language is the
/// name's, and the first line is not consulted.
pub proof fn lemma_name_decides(w: World, name: Seq<u8>, oid: Oid)
    ensures
        (w.name_language)(lossy_text(name)) matches Some(l) ==> blob_language(w, name, oid) == Some(l)
            && !shebang_path(w, name),
{
}

/// The first line is consulted exactly for a name tokei does not know and
/// that has no extension; a known extension that tokei does not know gives
/// no language whatever the blob holds.
pub proof fn lemma_shebang_only_without_name(w: World, name: Seq<u8>, oid: Oid)
    ensures
        shebang_path(w, name) <==> (w.name_language)(lossy_text(name)) is None && !name_has_extension(
            encode_utf8(lossy_text(name)),
        ),
        (w.name_language)(lossy_text(name)) is None && name_has_extension(encode_utf8(lossy_text(name)))
            ==> blob_language(w, name, oid) is None,
        shebang_path(w, name) ==> blob_language(w, name, oid) == shebang_language_of(w, oid),
{
}

/// The blob is neither huge nor binary.
pub open spec fn is_text(w: World, oid: Oid) -> bool {
    !is_huge((w.size)(oid)) && !is_binary((w.data)(oid))
}

/// Counts per-language lines of trees of one repository.
pub struct Counter<'repo> {
    repo: &'repo gix::Repository,
    caching: bool,
    excludes: Vec<Vec<Vec<u8>>>,
    tree_cache: BTreeMap<Oid, LangTotals>,
    parse_cache: BTreeMap<(u128, u32, u32), Counts>,
    class_cache: BTreeMap<Oid, bool>,
    shebang_cache: BTreeMap<Oid, Option<LangId>>,
    skipped_unknown: BTreeSet<Oid>,
    skipped_binary: BTreeSet<Oid>,
    skipped_huge: BTreeSet<Oid>,
    warnings: Vec<HugeBlob>,
    reported: Ghost<Set<Oid>>,
    log: Ghost<Seq<Observation>>,
}

impl<'repo> Counter<'repo> {
    /// The exclude patterns, as component lists.
    pub closed spec fn patterns(&self) -> Seq<Seq<Seq<u8>>> {
        self.excludes.deep_view()
    }

    /// Whether results are memoized.
    pub closed spec fn caching_on(&self) -> bool {
        self.caching
    }

    /// The trees whose totals are memoized.
    pub closed spec fn cached_trees(&self) -> Set<Oid> {
        self.tree_cache@.dom()
    }

    /// Every answer received so far, in order.
    pub closed spec fn log(&self) -> Seq<Observation> {
        self.log@
    }

    /// The huge blobs not yet handed out by `take_warnings`.
    pub closed spec fn pending_warnings(&self) -> Seq<HugeBlob> {
        self.warnings@
    }

    /// The huge blobs already handed out by `take_warnings`.
    pub closed spec fn reported(&self) -> Set<Oid> {
        self.reported@
    }

    /// The blobs skipped as unrecognized, binary and huge.
    pub closed spec fn skipped(&self) -> (Set<Oid>, Set<Oid>, Set<Oid>) {
        (self.skipped_unknown@, self.skipped_binary@, self.skipped_huge@)
    }

    /// Every cache entry and every skip holds in the world `w`.
    pub closed spec fn valid_in(&self, w: World) -> bool {
        let pats = self.excludes.deep_view();
        &&& forall|k: Oid| #[trigger]
            self.tree_cache@.contains_key(k) ==> has_totals(w, pats, k, Seq::empty())
                && self.tree_cache@[k].tallies() == tree_totals(w, pats, k, Seq::empty())
                && tree_skips(w, pats, k, Seq::empty(), self.skipped())
        &&& forall|k: (u128, u32, u32)| #[trigger]
            self.parse_cache@.contains_key(k) ==> is_text(w, (k.0, k.1))
                && self.parse_cache@[k].tally() == text_tally((w.data)((k.0, k.1)), k.2)
        &&& forall|k: Oid| #[trigger]
            self.class_cache@.contains_key(k) ==> if self.class_cache@[k] {
                is_huge((w.size)(k))
            } else {
                !is_huge((w.size)(k)) && is_binary((w.data)(k))
            }
        &&& forall|k: Oid| #[trigger]
            self.shebang_cache@.contains_key(k) ==> self.shebang_cache@[k]
                == shebang_language_of(w, k)
        &&& forall|k: Oid| #[trigger]
            self.shebang_cache@.contains_key(k) ==> (is_huge((w.size)(k))
                ==> self.skipped_huge@.contains(k))
        &&& forall|k: Oid| #[trigger] self.skipped_huge@.contains(k) ==> is_huge((w.size)(k))
        &&& forall|k: Oid| #[trigger]
            self.skipped_binary@.contains(k) ==> !is_huge((w.size)(k)) && is_binary((w.data)(k))
        &&& forall|k: Oid| #[trigger]
            self.skipped_unknown@.contains(k) ==> exists|name: Seq<u8>| #[trigger]
                blob_language(w, name, k) is None
        &&& forall|i: int|
            0 <= i < self.warnings@.len() ==> (w.size)(#[trigger] self.warnings@[i].oid)
                == self.warnings@[i].size
    }

    /// The counter's invariant.
    pub closed spec fn wf(&self) -> bool {
        &&& patterns_wf(self.excludes.deep_view())
        &&& forall|k: (u128, u32, u32)| #[trigger]
            self.parse_cache@.contains_key(k) ==> self.parse_cache@[k].files == 1
        &&& forall|i: int| 0 <= i < self.log@.len() ==> attested(#[trigger] self.log@[i])
        &&& forall|k: Oid| #[trigger]
            self.tree_cache@.contains_key(k) ==> self.tree_cache@[k].wf() && languages_only(
                self.tree_cache@[k].tallies(),
            )
        &&& forall|k: Oid| #[trigger]
            self.shebang_cache@.contains_key(k) ==> (self.shebang_cache@[k] matches Some(lang)
                ==> is_language_index(lang))
        &&& forall|k: Oid| #[trigger]
            self.class_cache@.contains_key(k) ==> if self.class_cache@[k] {
                self.skipped_huge@.contains(k)
            } else {
                self.skipped_binary@.contains(k)
            }
        &&& forall|i: int|
            0 <= i < self.warnings@.len() ==> is_huge(#[trigger] self.warnings@[i].size)
                && self.skipped_huge@.contains(self.warnings@[i].oid)
        &&& forall|i: int, j: int|
            0 <= i < j < self.warnings@.len() ==> (#[trigger] self.warnings@[i]).oid
                != (#[trigger] self.warnings@[j]).oid
        &&& forall|i: int|
            0 <= i < self.warnings@.len() ==> !self.reported@.contains(
                #[trigger] self.warnings@[i].oid,
            )
        &&& forall|k: Oid| #[trigger]
            self.skipped_huge@.contains(k) <==> (self.reported@.contains(k) || exists|i: int|
                0 <= i < self.warnings@.len() && self.warnings@[i].oid == k)
        &&& forall|w: World| #[trigger] consistent(w, self.log@) ==> self.valid_in(w)
    }

    /// A counter over `repo` with the given exclude patterns (see
    /// `parse_excludes`), memoizing results where `caching` is set.
    pub fn new(repo: &'repo gix::Repository, excludes: &[String], caching: bool) -> (r: Counter<
        'repo,
    >)
        ensures
            r.wf(),
            r.patterns() == exclude_patterns(text_bytes(excludes@)),
            r.caching_on() == caching,
            r.log() == Seq::<Observation>::empty(),
            r.pending_warnings() == Seq::<HugeBlob>::empty(),
            r.reported() == Set::<Oid>::empty(),
            r.skipped() == (Set::<Oid>::empty(), Set::<Oid>::empty(), Set::<Oid>::empty()),
    {
        let patterns = parse_excludes(excludes);
        proof {
            lemma_exclude_patterns_wf(text_bytes(excludes@));
        }
        Counter {
            repo,
            caching,
            excludes: patterns,
            tree_cache: BTreeMap::new(),
            parse_cache: BTreeMap::new(),
            class_cache: BTreeMap::new(),
            shebang_cache: BTreeMap::new(),
            skipped_unknown: BTreeSet::new(),
            skipped_binary: BTreeSet::new(),
            skipped_huge: BTreeSet::new(),
            warnings: Vec::new(),
            reported: Ghost(Set::empty()),
            log: Ghost(Seq::empty()),
        }
    }
}

impl<'repo> Counter<'repo> {
    /// The later counter carries on from the earlier one: same patterns,
    /// same caching, a log that extends the earlier log, and every skip the
    /// earlier one recorded.
    pub open spec fn continues(&self, earlier: Counter<'repo>) -> bool {
        &&& self.patterns() == earlier.patterns()
        &&& self.caching_on() == earlier.caching_on()
        &&& extends(self.log(), earlier.log())
        &&& self.skips_grow(earlier)
        &&& earlier.cached_trees().subset_of(self.cached_trees())
    }

    /// No blob the earlier counter skipped is forgotten: each skip set of
    /// the later one holds that of the earlier one.
    pub open spec fn skips_grow(&self, earlier: Counter<'repo>) -> bool {
        &&& earlier.skipped().0.subset_of(self.skipped().0)
        &&& earlier.skipped().1.subset_of(self.skipped().1)
        &&& earlier.skipped().2.subset_of(self.skipped().2)
    }

    /// Appends an answer to the log.
    fn record(&mut self, Ghost(o): Ghost<Observation>)
        requires
            old(self).wf(),
            attested(o),
        ensures
            final(self).tree_cache@ == old(self).tree_cache@,
            final(self).skipped_unknown@ == old(self).skipped_unknown@,
            final(self).skipped_binary@ == old(self).skipped_binary@,
            final(self).skipped_huge@ == old(self).skipped_huge@,
            final(self).warnings@ == old(self).warnings@,
            final(self).wf(),
            final(self).log@ == old(self).log@.push(o),
            extends(final(self).log@, old(self).log@),
            final(self).excludes == old(self).excludes,
            final(self).caching == old(self).caching,
            final(self).skips_grow(*old(self)),
            forall|w: World| #[trigger]
                consistent(w, final(self).log@) ==> consistent(w, old(self).log@) && agrees(w, o),
    {
        proof {
            let before = self.log@;
            self.log@ = self.log@.push(o);
            lemma_extends_push(before, o);
            assert forall|i: int| 0 <= i < self.log@.len() implies attested(#[trigger] self.log@[i]) by {
                if i < before.len() {
                    assert(self.log@[i] == before[i]);
                }
            }
            assert forall|w: World| #[trigger] consistent(w, self.log@) implies consistent(w, before)
                && agrees(w, o) && self.valid_in(w) by {
                lemma_push(w, before, o);
            }
        }
    }

    /// Memoizes that a blob is huge (`true`) or binary (`false`).
    fn cache_class(&mut self, oid: Oid, huge: bool)
        requires
            old(self).wf(),
            huge ==> old(self).skipped_huge@.contains(oid),
            !huge ==> old(self).skipped_binary@.contains(oid),
            forall|w: World| #[trigger]
                consistent(w, old(self).log@) ==> if huge {
                    is_huge((w.size)(oid))
                } else {
                    !is_huge((w.size)(oid)) && is_binary((w.data)(oid))
                },
        ensures
            final(self).tree_cache@ == old(self).tree_cache@,
            final(self).skipped_unknown@ == old(self).skipped_unknown@,
            final(self).skipped_binary@ == old(self).skipped_binary@,
            final(self).skipped_huge@ == old(self).skipped_huge@,
            final(self).warnings@ == old(self).warnings@,
            final(self).wf(),
            final(self).log@ == old(self).log@,
            final(self).excludes == old(self).excludes,
            final(self).caching == old(self).caching,
            final(self).skips_grow(*old(self)),
            final(self).class_cache@ == old(self).class_cache@.insert(oid, huge),
    {
        self.class_cache.insert(oid, huge);
        proof {
            assert forall|w: World| #[trigger] consistent(w, self.log@) implies self.valid_in(w) by {
                assert(old(self).valid_in(w));
            }
        }
    }

    /// Memoizes the language a blob's first line is detected as.
    fn cache_shebang(&mut self, oid: Oid, lang: Option<LangId>)
        requires
            old(self).wf(),
            lang matches Some(l) ==> is_language_index(l),
            forall|w: World| #[trigger]
                consistent(w, old(self).log@) ==> lang == shebang_language_of(w, oid) && (is_huge(
                    (w.size)(oid),
                ) ==> old(self).skipped_huge@.contains(oid)),
        ensures
            final(self).tree_cache@ == old(self).tree_cache@,
            final(self).skipped_unknown@ == old(self).skipped_unknown@,
            final(self).skipped_binary@ == old(self).skipped_binary@,
            final(self).skipped_huge@ == old(self).skipped_huge@,
            final(self).warnings@ == old(self).warnings@,
            final(self).wf(),
            final(self).log@ == old(self).log@,
            final(self).excludes == old(self).excludes,
            final(self).caching == old(self).caching,
            final(self).skips_grow(*old(self)),
            final(self).shebang_cache@ == old(self).shebang_cache@.insert(oid, lang),
    {
        self.shebang_cache.insert(oid, lang);
        proof {
            assert forall|w: World| #[trigger] consistent(w, self.log@) implies self.valid_in(w) by {
                assert(old(self).valid_in(w));
            }
        }
    }

    /// Memoizes the counts of a text blob parsed as `lang`.
    fn cache_parse(&mut self, oid: Oid, lang: LangId, counts: Counts)
        requires
            counts.files == 1,
            old(self).wf(),
            forall|w: World| #[trigger]
                consistent(w, old(self).log@) ==> is_text(w, oid) && counts.tally() == text_tally(
                    (w.data)(oid),
                    lang,
                ),
        ensures
            final(self).tree_cache@ == old(self).tree_cache@,
            final(self).skipped_unknown@ == old(self).skipped_unknown@,
            final(self).skipped_binary@ == old(self).skipped_binary@,
            final(self).skipped_huge@ == old(self).skipped_huge@,
            final(self).warnings@ == old(self).warnings@,
            final(self).wf(),
            final(self).log@ == old(self).log@,
            final(self).excludes == old(self).excludes,
            final(self).caching == old(self).caching,
            final(self).skips_grow(*old(self)),
            final(self).parse_cache@ == old(self).parse_cache@.insert((oid.0, oid.1, lang), counts),
    {
        self.parse_cache.insert((oid.0, oid.1, lang), counts);
        proof {
            assert forall|w: World| #[trigger] consistent(w, self.log@) implies self.valid_in(w) by {
                assert(old(self).valid_in(w));
            }
        }
    }

    /// Memoizes the totals of a tree walked with no exclude pattern active.
    fn cache_tree(&mut self, oid: Oid, totals: LangTotals)
        requires
            old(self).wf(),
            totals.wf(),
            languages_only(totals.tallies()),
            forall|w: World| #[trigger]
                consistent(w, old(self).log@) ==> has_totals(
                    w,
                    old(self).excludes.deep_view(),
                    oid,
                    Seq::empty(),
                ) && totals.tallies() == tree_totals(
                    w,
                    old(self).excludes.deep_view(),
                    oid,
                    Seq::empty(),
                ) && tree_skips(w, old(self).excludes.deep_view(), oid, Seq::empty(), old(self).skipped()),
        ensures
            final(self).skipped_unknown@ == old(self).skipped_unknown@,
            final(self).skipped_binary@ == old(self).skipped_binary@,
            final(self).skipped_huge@ == old(self).skipped_huge@,
            final(self).warnings@ == old(self).warnings@,
            final(self).wf(),
            final(self).log@ == old(self).log@,
            final(self).excludes == old(self).excludes,
            final(self).caching == old(self).caching,
            final(self).skips_grow(*old(self)),
            final(self).tree_cache@ == old(self).tree_cache@.insert(oid, totals),
    {
        self.tree_cache.insert(oid, totals);
        proof {
            assert forall|w: World| #[trigger] consistent(w, self.log@) implies self.valid_in(w) by {
                assert(old(self).valid_in(w));
            }
        }
    }

    /// Notes a huge blob, with a warning the first time it is met.
    fn skip_huge(&mut self, name: Option<Vec<u8>>, oid: Oid, size: u64)
        requires
            old(self).wf(),
            is_huge(size),
            forall|w: World| #[trigger] consistent(w, old(self).log@) ==> (w.size)(oid) == size,
        ensures
            final(self).tree_cache@ == old(self).tree_cache@,
            final(self).skipped_unknown@ == old(self).skipped_unknown@,
            final(self).skipped_binary@ == old(self).skipped_binary@,
            final(self).wf(),
            final(self).log@ == old(self).log@,
            final(self).excludes == old(self).excludes,
            final(self).caching == old(self).caching,
            final(self).skips_grow(*old(self)),
            final(self).skipped_huge@ == old(self).skipped_huge@.insert(oid),
            final(self).warnings@ == (if old(self).skipped_huge@.contains(oid) {
                old(self).warnings@
            } else {
                old(self).warnings@.push(HugeBlob { name, oid, size })
            }),
    {
        let fresh = self.skipped_huge.insert(oid);
        if fresh {
            self.warnings.push(HugeBlob { name, oid, size });
        }
        proof {
            assert(self.skipped_huge@ == old(self).skipped_huge@.insert(oid));
            if fresh {
                assert forall|i: int| 0 <= i < old(self).warnings@.len() implies (#[trigger] old(
                    self,
                ).warnings@[i]).oid != oid by {
                    assert(old(self).skipped_huge@.contains(old(self).warnings@[i].oid));
                }
                assert(!old(self).reported@.contains(oid));
                assert forall|k: Oid| #[trigger]
                    self.skipped_huge@.contains(k) <==> (self.reported@.contains(k) || exists|i: int|
                        0 <= i < self.warnings@.len() && self.warnings@[i].oid == k) by {
                    if k == oid {
                        assert(self.warnings@[self.warnings@.len() - 1].oid == oid);
                    } else if old(self).skipped_huge@.contains(k) && !self.reported@.contains(k) {
                        let i = choose|i: int|
                            0 <= i < old(self).warnings@.len() && old(self).warnings@[i].oid == k;
                        assert(self.warnings@[i].oid == k);
                    } else if exists|i: int|
                        0 <= i < self.warnings@.len() && self.warnings@[i].oid == k {
                        let i = choose|i: int|
                            0 <= i < self.warnings@.len() && self.warnings@[i].oid == k;
                        assert(old(self).warnings@[i].oid == k);
                    }
                }
            }
            assert forall|i: int| 0 <= i < self.warnings@.len() implies is_huge(
                #[trigger] self.warnings@[i].size,
            ) && self.skipped_huge@.contains(self.warnings@[i].oid) by {
                if i < old(self).warnings@.len() {
                    assert(self.warnings@[i] == old(self).warnings@[i]);
                }
            }
            assert forall|w: World| #[trigger] consistent(w, self.log@) implies self.valid_in(w) by {
                assert(old(self).valid_in(w));
                lemma_tree_cache_skips(
                    w,
                    self.excludes.deep_view(),
                    self.tree_cache@,
                    old(self).skipped(),
                    self.skipped(),
                );
                assert forall|i: int| 0 <= i < self.warnings@.len() implies (w.size)(
                    #[trigger] self.warnings@[i].oid,
                ) == self.warnings@[i].size by {
                    if i < old(self).warnings@.len() {
                        assert(self.warnings@[i] == old(self).warnings@[i]);
                    }
                }
            }
        }
    }

    /// Notes a binary blob.
    fn skip_binary(&mut self, oid: Oid)
        requires
            old(self).wf(),
            forall|w: World| #[trigger]
                consistent(w, old(self).log@) ==> !is_huge((w.size)(oid)) && is_binary(
                    (w.data)(oid),
                ),
        ensures
            final(self).tree_cache@ == old(self).tree_cache@,
            final(self).skipped_unknown@ == old(self).skipped_unknown@,
            final(self).skipped_huge@ == old(self).skipped_huge@,
            final(self).warnings@ == old(self).warnings@,
            final(self).wf(),
            final(self).log@ == old(self).log@,
            final(self).excludes == old(self).excludes,
            final(self).caching == old(self).caching,
            final(self).skips_grow(*old(self)),
            final(self).skipped_binary@ == old(self).skipped_binary@.insert(oid),
    {
        self.skipped_binary.insert(oid);
        proof {
            assert forall|w: World| #[trigger] consistent(w, self.log@) implies self.valid_in(w) by {
                assert(old(self).valid_in(w));
                lemma_tree_cache_skips(
                    w,
                    self.excludes.deep_view(),
                    self.tree_cache@,
                    old(self).skipped(),
                    self.skipped(),
                );
            }
        }
    }
}

impl<'repo> Counter<'repo> {
    /// Reads a blob's declared size and, where it is not huge, its bytes,
    /// and classifies it; only a text blob's bytes are returned.
    fn classify_and_read(&mut self, name: &Vec<u8>, oid: Oid) -> (r: Result<
        (BlobClass, Vec<u8>),
        StatsError,
    >)
        requires
            old(self).wf(),
        ensures
            final(self).wf(),
            final(self).continues(*old(self)),
            r matches Err(e) ==> is_read_error(e),
            r matches Ok((class, data)) ==> forall|w: World| #[trigger]
                consistent(w, final(self).log()) ==> match class {
                    BlobClass::Huge => is_huge((w.size)(oid)),
                    BlobClass::Binary => !is_huge((w.size)(oid)) && is_binary((w.data)(oid)),
                    BlobClass::Text => is_text(w, oid) && data@ == (w.data)(oid),
                },
            final(self).skipped().0 == old(self).skipped().0,
            grows_by(final(self).skipped().1, old(self).skipped().1, oid),
            grows_by(final(self).skipped().2, old(self).skipped().2, oid),
            r is Ok ==> forall|w: World| #[trigger]
                consistent(w, final(self).log()) && is_huge((w.size)(oid)) ==> bytes_unread(
                    final(self).log(),
                    old(self).log(),
                    oid,
                ),
            r matches Ok((class, data)) ==> match class {
                BlobClass::Huge => {
                    &&& data@.len() == 0
                    &&& final(self).log().drop_last() == old(self).log()
                    &&& final(self).log().last() matches Observation::Size(id, _) && id == oid
                    &&& final(self).skipped() == (
                        old(self).skipped().0,
                        old(self).skipped().1,
                        old(self).skipped().2.insert(oid),
                    )
                    &&& if old(self).skipped().2.contains(oid) {
                        final(self).pending_warnings() == old(self).pending_warnings()
                    } else {
                        &&& final(self).pending_warnings().drop_last() == old(self).pending_warnings()
                        &&& final(self).pending_warnings().len() == old(self).pending_warnings().len() + 1
                        &&& final(self).pending_warnings().last().oid == oid
                        &&& final(self).pending_warnings().last().name is Some
                    }
                },
                BlobClass::Binary => {
                    &&& data@.len() == 0
                    &&& final(self).skipped() == (
                        old(self).skipped().0,
                        old(self).skipped().1.insert(oid),
                        old(self).skipped().2,
                    )
                    &&& final(self).pending_warnings() == old(self).pending_warnings()
                },
                BlobClass::Text => {
                    &&& final(self).skipped() == old(self).skipped()
                    &&& final(self).pending_warnings() == old(self).pending_warnings()
                },
            },
    {
        let ghost log0 = self.log@;
        proof {
            lemma_extends_refl(log0);
        }
        let size = match find_header_size(self.repo, oid) {
            Ok(size) => size,
            Err(e) => return Err(StatsError::ReadHeader(oid, e)),
        };
        self.record(Ghost(Observation::Size(oid, size)));
        let ghost log1 = self.log@;
        if size > HUGE_BLOB_LIMIT {
            let owned_name = name.clone();
            self.skip_huge(Some(owned_name), oid, size);
            proof {
                if !old(self).skipped_huge@.contains(oid) {
                    assert(self.warnings@.drop_last() =~= old(self).warnings@);
                }
            }
            return Ok((BlobClass::Huge, Vec::new()));
        }
        let data = match read_blob(self.repo, oid) {
            Ok(data) => data,
            Err(e) => return Err(StatsError::ReadBlob(oid, e)),
        };
        self.record(Ghost(Observation::Data(oid, data@)));
        proof {
            lemma_extends_trans(self.log@, log1, log0);
        }
        if sniff_binary(data.as_slice()) {
            self.skip_binary(oid);
            return Ok((BlobClass::Binary, Vec::new()));
        }
        Ok((BlobClass::Text, data))
    }

    /// The language of an extensionless blob by the shebang on its first
    /// line, as tokei detects it: the line is handed to tokei in a
    /// temporary file.
    fn detect_by_shebang(&mut self, oid: Oid) -> (r: Result<Option<LangId>, StatsError>)
        requires
            old(self).wf(),
        ensures
            final(self).wf(),
            final(self).continues(*old(self)),
            r matches Err(e) ==> is_read_error(e),
            r matches Ok(lang) ==> (lang matches Some(l) ==> is_language_index(l)) && forall|
                w: World,
            | #[trigger]
                consistent(w, final(self).log()) ==> lang == shebang_language_of(w, oid) && (
                is_huge((w.size)(oid)) ==> final(self).skipped().2.contains(oid)),
            final(self).skipped().0 == old(self).skipped().0,
            final(self).skipped().1 == old(self).skipped().1,
            grows_by(final(self).skipped().2, old(self).skipped().2, oid),
            r is Ok ==> forall|w: World| #[trigger]
                consistent(w, final(self).log()) && is_huge((w.size)(oid)) ==> bytes_unread(
                    final(self).log(),
                    old(self).log(),
                    oid,
                ),
            r is Ok ==> forall|w: World| #[trigger]
                consistent(w, final(self).log()) ==> final(self).skipped().2 == (if is_huge(
                    (w.size)(oid),
                ) {
                    old(self).skipped().2.insert(oid)
                } else {
                    old(self).skipped().2
                }),
    {
        let ghost log0 = self.log@;
        proof {
            lemma_extends_refl(log0);
        }
        if self.caching {
            match self.shebang_cache.get(&oid) {
                Some(cached) => {
                    let lang = *cached;
                    proof {
                        assert forall|w: World| #[trigger] consistent(w, self.log@) implies lang
                            == shebang_language_of(w, oid) && (is_huge((w.size)(oid))
                            ==> self.skipped_huge@.contains(oid)) by {
                            assert(self.valid_in(w));
                        }
                        assert forall|w: World| #[trigger]
                            consistent(w, self.log@) && is_huge((w.size)(oid)) implies self.skipped_huge@.insert(
                            oid,
                        ) == self.skipped_huge@ by {
                            assert(self.valid_in(w));
                            assert(self.skipped_huge@.insert(oid) =~= self.skipped_huge@);
                        }
                    }
                    return Ok(lang);
                },
                None => {},
            }
            match self.class_cache.get(&oid) {
                Some(huge) => {
                    if *huge {
                        proof {
                            assert forall|w: World| #[trigger] consistent(w, self.log@) implies None::<LangId>
                                == shebang_language_of(w, oid) && (is_huge((w.size)(oid))
                                ==> self.skipped_huge@.contains(oid)) by {
                                assert(self.valid_in(w));
                            }
                            assert(self.skipped_huge@.insert(oid) =~= self.skipped_huge@);
                        }
                        return Ok(None);
                    }
                },
                None => {},
            }
        }
        let size = match find_header_size(self.repo, oid) {
            Ok(size) => size,
            Err(e) => return Err(StatsError::ReadHeader(oid, e)),
        };
        self.record(Ghost(Observation::Size(oid, size)));
        let ghost log1 = self.log@;
        if size > HUGE_BLOB_LIMIT {
            self.skip_huge(None, oid, size);
            if self.caching {
                self.cache_class(oid, true);
            }
            return Ok(None);
        }
        let data = match read_blob(self.repo, oid) {
            Ok(data) => data,
            Err(e) => return Err(StatsError::ReadBlob(oid, e)),
        };
        self.record(Ghost(Observation::Data(oid, data@)));
        let ghost log2 = self.log@;
        proof {
            lemma_extends_trans(log2, log1, log0);
        }
        let line = first_line_of(data.as_slice());
        let lang = if has_shebang(line.as_slice()) {
            let mut contents = line.clone();
            contents.push(NEWLINE);
            let found = match language_of_file_with(contents.as_slice()) {
                Ok(found) => found,
                Err(e) => return Err(StatsError::TempFile(e)),
            };
            proof {
                assert(contents@ == line@.push(NEWLINE));
            }
            self.record(Ghost(Observation::ShebangLanguage(line@, found)));
            proof {
                lemma_extends_trans(self.log@, log2, log0);
            }
            found
        } else {
            None
        };
        proof {
            lemma_extends_refl(log2);
            assert forall|w: World| #[trigger] consistent(w, self.log@) implies lang
                == shebang_language_of(w, oid) && !is_huge((w.size)(oid)) by {
                lemma_extends_consistent(w, self.log@, log2);
                lemma_extends_consistent(w, log2, log1);
            }
        }
        if self.caching {
            self.cache_shebang(oid, lang);
        }
        Ok(lang)
    }

    /// The language of a blob entry: by its name, and for a name without
    /// an extension by the shebang on its first line. The name is joined
    /// to a directory that does not exist before tokei sees it, so that no
    /// local file is read in its place.
    fn detect_language(&mut self, name: &Vec<u8>, oid: Oid) -> (r: Result<
        Option<LangId>,
        StatsError,
    >)
        requires
            old(self).wf(),
        ensures
            final(self).wf(),
            final(self).continues(*old(self)),
            r matches Err(e) ==> is_read_error(e),
            r is Err ==> forall|w: World| #[trigger]
                consistent(w, final(self).log()) ==> shebang_path(w, name@),
            r matches Ok(lang) ==> (lang matches Some(l) ==> is_language_index(l)) && forall|
                w: World,
            | #[trigger]
                consistent(w, final(self).log()) ==> lang == blob_language(w, name@, oid) && (
                is_huge((w.size)(oid)) && shebang_path(w, name@) ==> final(self).skipped().2.contains(
                    oid,
                )),
            r matches Ok(lang) ==> forall|w: World| #[trigger]
                consistent(w, final(self).log()) ==> ((w.name_language)(lossy_text(name@)) matches Some(
                    l,
                ) ==> lang == Some(l)),
            forall|w: World| #[trigger]
                consistent(w, final(self).log()) && !shebang_path(w, name@) ==> final(self).log()
                    == old(self).log().push(
                    Observation::NameLanguage(
                        lossy_text(name@),
                        (w.name_language)(lossy_text(name@)),
                    ),
                ),
            final(self).skipped().0 == old(self).skipped().0,
            final(self).skipped().1 == old(self).skipped().1,
            grows_by(final(self).skipped().2, old(self).skipped().2, oid),
            r is Ok ==> forall|w: World| #[trigger]
                consistent(w, final(self).log()) ==> final(self).skipped().2 == (if shebang_path(
                    w,
                    name@,
                ) && is_huge((w.size)(oid)) {
                    old(self).skipped().2.insert(oid)
                } else {
                    old(self).skipped().2
                }),
    {
        let ghost log0 = self.log@;
        let text = lossy_utf8(name.as_slice());
        let found = language_of_name(SENTINEL_DIR, text.as_str());
        self.record(Ghost(Observation::NameLanguage(text@, found)));
        let ghost log1 = self.log@;
        if found.is_some() {
            proof {
                assert(self.skipped_huge@ =~= self.skipped_huge@);
            }
            return Ok(found);
        }
        if !has_extension(text.as_str().as_bytes()) {
            let r = self.detect_by_shebang(oid);
            proof {
                lemma_extends_trans(self.log@, log1, log0);
                assert forall|w: World| #[trigger] consistent(w, self.log@) implies shebang_path(
                    w,
                    name@,
                ) by {
                    lemma_extends_consistent(w, self.log@, log1);
                }
            }
            r
        } else {
            Ok(None)
        }
    }

    /// What a blob entry adds to its tree: its language and counts, or
    /// nothing for an unrecognized, huge or binary blob.
    fn stats_blob(&mut self, name: &Vec<u8>, oid: Oid) -> (r: Result<
        Option<(LangId, Counts)>,
        StatsError,
    >)
        requires
            old(self).wf(),
        ensures
            final(self).wf(),
            final(self).continues(*old(self)),
            r matches Err(e) ==> is_read_error(e),
            r matches Ok(Some((_, counts))) ==> counts.files == 1,
            r matches Ok(c) ==> (c matches Some((l, _)) ==> is_language_index(l)) && forall|
                w: World,
            | #[trigger]
                consistent(w, final(self).log()) ==> contribution_view(c) == blob_contribution(
                    w,
                    name@,
                    oid,
                ) && skip_recorded(final(self).skipped(), w, name@, oid),
            grows_by(final(self).skipped().0, old(self).skipped().0, oid),
            grows_by(final(self).skipped().1, old(self).skipped().1, oid),
            grows_by(final(self).skipped().2, old(self).skipped().2, oid),
            final(self).skipped().0 != old(self).skipped().0 ==> !final(self).skipped().2.contains(oid)
                && forall|w: World| #[trigger]
                consistent(w, final(self).log()) ==> blob_language(w, name@, oid) is None,
            r is Ok ==> forall|w: World| #[trigger]
                consistent(w, final(self).log()) ==> final(self).skipped() == after_meeting(
                    old(self).skipped(),
                    w,
                    name@,
                    oid,
                ),
    {
        let ghost log0 = self.log@;
        let detection = self.detect_language(name, oid);
        let ghost log1 = self.log@;
        let ghost mid = *self;
        let lang = match detection {
            Err(e) => return Err(e),
            Ok(None) => {
                if !self.skipped_huge.contains(&oid) {
                    let ghost before = *self;
                    self.skipped_unknown.insert(oid);
                    proof {
                        assert forall|w: World| #[trigger] consistent(w, self.log@) implies self.valid_in(
                            w,
                        ) by {
                            assert(before.valid_in(w));
                            assert(blob_language(w, name@, oid) is None);
                            lemma_tree_cache_skips(
                                w,
                                self.excludes.deep_view(),
                                self.tree_cache@,
                                before.skipped(),
                                self.skipped(),
                            );
                        }
                    }
                }
                proof {
                    assert forall|w: World| #[trigger] consistent(w, self.log@) implies skip_recorded(
                        self.skipped(),
                        w,
                        name@,
                        oid,
                    ) && blob_language(w, name@, oid) is None by {}
                    assert forall|w: World| #[trigger] consistent(w, self.log@) implies self.skipped()
                        == after_meeting(old(self).skipped(), w, name@, oid) by {
                        lemma_extends_refl(self.log@);
                        lemma_extends_consistent(w, self.log@, log1);
                        let m = after_meeting(old(self).skipped(), w, name@, oid);
                        assert(self.skipped_unknown@ =~= m.0);
                        assert(self.skipped_binary@ =~= m.1);
                        assert(self.skipped_huge@ =~= m.2);
                    }
                }
                return Ok(None);
            },
            Ok(Some(lang)) => lang,
        };
        if self.caching {
            match self.parse_cache.get(&(oid.0, oid.1, lang)) {
                Some(counts) => {
                    let c = *counts;
                    proof {
                        assert forall|w: World| #[trigger] consistent(w, self.log@) implies contribution_view(
                            Some((lang, c)),
                        ) == blob_contribution(w, name@, oid) by {
                            assert(self.valid_in(w));
                            assert(self.parse_cache@.contains_key((oid.0, oid.1, lang)));
                            assert(skip_recorded(self.skipped(), w, name@, oid));
                        }
                    assert forall|w: World| #[trigger] consistent(w, self.log@) implies self.skipped()
                        == after_meeting(old(self).skipped(), w, name@, oid) by {
                        lemma_extends_refl(self.log@);
                        lemma_extends_consistent(w, self.log@, log1);
                        assert(self.valid_in(w));
                        assert(self.parse_cache@.contains_key((oid.0, oid.1, lang)));
                        let m = after_meeting(old(self).skipped(), w, name@, oid);
                        assert(self.skipped_unknown@ =~= m.0);
                        assert(self.skipped_binary@ =~= m.1);
                        assert(self.skipped_huge@ =~= m.2);
                    }
                    }
                    return Ok(Some((lang, c)));
                },
                None => {},
            }
            if self.class_cache.contains_key(&oid) {
                proof {
                    assert forall|w: World| #[trigger] consistent(w, self.log@) implies contribution_view(
                        None,
                    ) == blob_contribution(w, name@, oid) && skip_recorded(self.skipped(), w, name@, oid) by {
                        assert(self.valid_in(w));
                    }
                    assert forall|w: World| #[trigger] consistent(w, self.log@) implies self.skipped()
                        == after_meeting(old(self).skipped(), w, name@, oid) by {
                        lemma_extends_refl(self.log@);
                        lemma_extends_consistent(w, self.log@, log1);
                        assert(self.valid_in(w));
                        assert(self.class_cache@.contains_key(oid));
                        let m = after_meeting(old(self).skipped(), w, name@, oid);
                        assert(self.skipped_unknown@ =~= m.0);
                        assert(self.skipped_binary@ =~= m.1);
                        assert(self.skipped_huge@ =~= m.2);
                    }
                }
                return Ok(None);
            }
        }
        let classified = self.classify_and_read(name, oid);
        let ghost log2 = self.log@;
        proof {
            lemma_extends_trans(log2, log1, log0);
            lemma_grows_by_trans(self.skipped().1, mid.skipped().1, old(self).skipped().1, oid);
            lemma_grows_by_trans(self.skipped().2, mid.skipped().2, old(self).skipped().2, oid);
        }
        match classified {
            Err(e) => Err(e),
            Ok((BlobClass::Huge, _)) => {
                if self.caching {
                    self.cache_class(oid, true);
                }
                proof {
                    assert forall|w: World| #[trigger] consistent(w, self.log@) implies contribution_view(
                        None,
                    ) == blob_contribution(w, name@, oid) && skip_recorded(self.skipped(), w, name@, oid) by {
                        lemma_extends_consistent(w, self.log@, log1);
                    }
                    assert forall|w: World| #[trigger] consistent(w, self.log@) implies self.skipped()
                        == after_meeting(old(self).skipped(), w, name@, oid) by {
                        lemma_extends_refl(self.log@);
                        lemma_extends_consistent(w, self.log@, log1);
                        lemma_extends_consistent(w, self.log@, log2);
                        let m = after_meeting(old(self).skipped(), w, name@, oid);
                        assert(self.skipped_unknown@ =~= m.0);
                        assert(self.skipped_binary@ =~= m.1);
                        assert(self.skipped_huge@ =~= m.2);
                    }
                }
                Ok(None)
            },
            Ok((BlobClass::Binary, _)) => {
                if self.caching {
                    self.cache_class(oid, false);
                }
                proof {
                    assert forall|w: World| #[trigger] consistent(w, self.log@) implies contribution_view(
                        None,
                    ) == blob_contribution(w, name@, oid) && skip_recorded(self.skipped(), w, name@, oid) by {
                        lemma_extends_consistent(w, self.log@, log1);
                    }
                    assert forall|w: World| #[trigger] consistent(w, self.log@) implies self.skipped()
                        == after_meeting(old(self).skipped(), w, name@, oid) by {
                        lemma_extends_refl(self.log@);
                        lemma_extends_consistent(w, self.log@, log1);
                        lemma_extends_consistent(w, self.log@, log2);
                        let m = after_meeting(old(self).skipped(), w, name@, oid);
                        assert(self.skipped_unknown@ =~= m.0);
                        assert(self.skipped_binary@ =~= m.1);
                        assert(self.skipped_huge@ =~= m.2);
                    }
                }
                Ok(None)
            },
            Ok((BlobClass::Text, data)) => {
                let text = lossy_utf8(data.as_slice());
                let jupyter = language_is_jupyter(lang);
                let parsed = tokei_parse(lang, text.as_str());
                // tokei's notebook parser already counts the cells at the top
                // level; summarising would count every notebook line twice
                let lines = if jupyter {
                    parsed.0
                } else {
                    parsed.1
                };
                let counts = Counts {
                    files: 1,
                    code: lines.0 as u64,
                    comments: lines.1 as u64,
                    blanks: lines.2 as u64,
                };
                proof {
                    assert forall|w: World| #[trigger] consistent(w, self.log@) implies is_text(w, oid)
                        && counts.tally() == text_tally((w.data)(oid), lang)
                        && contribution_view(Some((lang, counts))) == blob_contribution(
                        w,
                        name@,
                        oid,
                    ) && skip_recorded(self.skipped(), w, name@, oid) by {
                        lemma_extends_consistent(w, self.log@, log1);
                    }
                    assert forall|w: World| #[trigger] consistent(w, self.log@) implies self.skipped()
                        == after_meeting(old(self).skipped(), w, name@, oid) by {
                        lemma_extends_refl(self.log@);
                        lemma_extends_consistent(w, self.log@, log1);
                        lemma_extends_consistent(w, self.log@, log2);
                        let m = after_meeting(old(self).skipped(), w, name@, oid);
                        assert(self.skipped_unknown@ =~= m.0);
                        assert(self.skipped_binary@ =~= m.1);
                        assert(self.skipped_huge@ =~= m.2);
                    }
                }
                if self.caching {
                    self.cache_parse(oid, lang, counts);
                }
                Ok(Some((lang, counts)))
            },
        }
    }
}

impl<'repo> Counter<'repo> {
    /// The totals of the tree `tree_id` walked with the exclude state
    /// `active`, memoized where no pattern is active. At most `depth`
    /// levels of trees are followed.
    fn stats_tree_inner(&mut self, tree_id: Oid, active: &Vec<(usize, usize)>, depth: usize) -> (r:
        Result<LangTotals, StatsError>)
        requires
            old(self).wf(),
            active_wf(old(self).patterns(), active@),
        ensures
            final(self).wf(),
            final(self).continues(*old(self)),
            r matches Err(e) && e is TooDeep ==> forall|w: World| #[trigger]
                consistent(w, final(self).log()) ==> tree_totals_fuel(
                    w,
                    final(self).patterns(),
                    tree_id,
                    active@,
                    depth as nat,
                ) is None,
            r matches Err(e) && e is CountOverflow ==> forall|w: World| #[trigger]
                consistent(w, final(self).log()) ==> (has_totals(
                    w,
                    final(self).patterns(),
                    tree_id,
                    active@,
                ) ==> !totals_fit(tree_totals(w, final(self).patterns(), tree_id, active@))),
            r matches Ok(t) ==> {
                &&& t.wf()
                &&& languages_only(t.tallies())
                &&& forall|w: World| #[trigger]
                    consistent(w, final(self).log()) ==> has_totals(
                        w,
                        final(self).patterns(),
                        tree_id,
                        active@,
                    ) && t.tallies() == tree_totals(w, final(self).patterns(), tree_id, active@)
                        && tree_skips(w, final(self).patterns(), tree_id, active@, final(self).skipped())
            },
            r is Ok ==> forall|w: World| #[trigger]
                consistent(w, final(self).log()) ==> tree_meets(
                    w,
                    final(self).patterns(),
                    tree_id,
                    active@,
                    old(self).skipped(),
                    final(self).skipped(),
                ),
            old(self).caching_on() && active@.len() == 0 && old(self).cached_trees().contains(tree_id)
                ==> r is Ok && final(self).log() == old(self).log(),
            r is Ok && old(self).caching_on() && active@.len() == 0 ==> final(self).cached_trees().contains(
                tree_id,
            ),
        decreases depth,
    {
        let ghost log0 = self.log@;
        let ghost pats = self.excludes.deep_view();
        let ghost s0 = self.skipped();
        proof {
            lemma_extends_refl(log0);
        }
        let cacheable = self.caching && active.len() == 0;
        if cacheable {
            match self.tree_cache.get(&tree_id) {
                Some(hit) => {
                    let t = hit.copy();
                    proof {
                        assert(active@ =~= Seq::<(usize, usize)>::empty());
                        assert forall|w: World| #[trigger] consistent(w, self.log@) implies has_totals(
                            w,
                            pats,
                            tree_id,
                            active@,
                        ) && t.tallies() == tree_totals(w, pats, tree_id, active@) && tree_skips(
                            w,
                            pats,
                            tree_id,
                            active@,
                            self.skipped(),
                        ) by {
                            assert(self.valid_in(w));
                        }
                        assert forall|w: World| #[trigger] consistent(w, self.log@) implies tree_meets(
                            w,
                            pats,
                            tree_id,
                            active@,
                            s0,
                            self.skipped(),
                        ) by {
                            assert(self.valid_in(w));
                            lemma_recorded_tree_meets(w, pats, tree_id, active@, self.skipped());
                        }
                    }
                    return Ok(t);
                },
                None => {},
            }
        }
        proof {
            assert(!(old(self).caching_on() && active@.len() == 0 && old(self).cached_trees().contains(
                tree_id,
            )));
        }
        if depth == 0 {
            return Err(StatsError::TooDeep(tree_id));
        }
        let data = match read_tree_data(self.repo, tree_id) {
            Ok(data) => data,
            Err(e) => return Err(e),
        };
        let entries = match decode_tree(data.as_slice()) {
            Ok(entries) => entries,
            Err(e) => return Err(StatsError::CorruptTree(tree_id, e)),
        };
        proof {
            assert(tree_data_read(tree_id, data@) && tree_entries(data@) == entry_views(entries@));
        }
        let ghost views = entry_views(entries@);
        proof {
            assert(tree_data_read(tree_id, data@) && tree_entries(data@) == views);
            assert(tree_attested(tree_id, views));
        }
        self.record(Ghost(Observation::Tree(tree_id, views)));
        let ghost log1 = self.log@;
        let mut total = LangTotals::new();
        proof {
            lemma_extends_refl(log1);
            assert forall|w: World| #[trigger] consistent(w, self.log@) implies entries_reach(
                w,
                pats,
                views,
                active@,
                0,
                total.tallies(),
            ) by {
                lemma_reach_start(w, pats, views, active@);
                assert(total.tallies() =~= Map::<LangId, Tally>::empty());
            }
            assert forall|w: World| #[trigger] consistent(w, self.log@) implies skips_reach(
                w,
                pats,
                views,
                active@,
                self.skipped(),
                0,
            ) by {
                lemma_skips_start(w, pats, views, active@, self.skipped());
            }
            assert forall|w: World| #[trigger] consistent(w, self.log@) implies meets_reach(
                w,
                pats,
                views,
                active@,
                s0,
                self.skipped(),
                0,
            ) by {
                lemma_meets_start(w, pats, views, active@, s0);
            }
        }
        let mut i: usize = 0;
        while i < entries.len()
            invariant
                i <= entries@.len(),
                depth > 0,
                self.wf(),
                self.skips_grow(*old(self)),
                old(self).tree_cache@.dom().subset_of(self.tree_cache@.dom()),
                !(old(self).caching_on() && active@.len() == 0 && old(self).cached_trees().contains(
                    tree_id,
                )),
                self.excludes.deep_view() == pats,
                self.caching == old(self).caching,
                pats == old(self).excludes.deep_view(),
                extends(self.log@, log1),
                extends(log1, log0),
                log0 == old(self).log@,
                views == entry_views(entries@),
                active_wf(pats, active@),
                forall|w: World| #[trigger] consistent(w, log1) ==> (w.tree)(tree_id) == views,
                total.wf(),
                languages_only(total.tallies()),
                forall|w: World| #[trigger]
                    consistent(w, self.log@) ==> entries_reach(
                        w,
                        pats,
                        views,
                        active@,
                        i as nat,
                        total.tallies(),
                    ),
                forall|w: World| #[trigger]
                    consistent(w, self.log@) ==> skips_reach(
                        w,
                        pats,
                        views,
                        active@,
                        self.skipped(),
                        i as nat,
                    ),
                s0 == old(self).skipped(),
                forall|w: World| #[trigger]
                    consistent(w, self.log@) ==> meets_reach(
                        w,
                        pats,
                        views,
                        active@,
                        s0,
                        self.skipped(),
                        i as nat,
                    ),
            decreases entries@.len() - i,
        {
            let name = &entries[i].0;
            let oid = entries[i].1;
            let kind = entries[i].2;
            let ghost log_before = self.log@;
            let ghost before = total.tallies();
            let ghost sets_before = self.skipped();
            proof {
                assert(views[i as int] == EntryView { name: name@, oid, kind });
                lemma_extends_refl(log_before);
            }
            let (excluded, child_active) = step_excludes(&self.excludes, active, name);
            if excluded {
                proof {
                    assert forall|w: World| #[trigger] consistent(w, self.log@) implies entries_reach(
                        w,
                        pats,
                        views,
                        active@,
                        (i + 1) as nat,
                        total.tallies(),
                    ) by {
                        lemma_reach_skip(w, pats, views, active@, i as nat, before);
                    }
                }
            } else {
                match kind {
                    EntryKind::Tree => {
                        let result = self.stats_tree_inner(oid, &child_active, depth - 1);
                        proof {
                            lemma_extends_trans(self.log@, log_before, log1);
                            lemma_extends_trans(self.log@, log1, log0);
                        }
                        let child = match result {
                            Ok(child) => child,
                            Err(e) => {
                                proof {
                                    assert forall|w: World| #[trigger]
                                        consistent(w, self.log@) implies (e is TooDeep
                                        ==> tree_totals_fuel(w, pats, tree_id, active@, depth as nat)
                                        is None) && (e is CountOverflow ==> (has_totals(
                                        w,
                                        pats,
                                        tree_id,
                                        active@,
                                    ) ==> !totals_fit(tree_totals(w, pats, tree_id, active@)))) by {
                                        lemma_extends_consistent(w, self.log@, log1);
                                        if e is TooDeep {
                                            lemma_too_deep_from_subtree(
                                                w,
                                                pats,
                                                tree_id,
                                                active@,
                                                (depth - 1) as nat,
                                                i as nat,
                                            );
                                        }
                                        if e is CountOverflow {
                                            lemma_overflow_from_subtree(w, pats, tree_id, active@, i as nat);
                                        }
                                    }
                                }
                                return Err(e);
                            },
                        };
                        let ghost child_tallies = child.tallies();
                        match total.merge(&child) {
                            Ok(()) => {},
                            Err(_) => {
                                proof {
                                    let merged = merge_totals(before, child_tallies);
                                    assert forall|w: World| #[trigger] consistent(w, self.log@) && has_totals(
                                        w,
                                        pats,
                                        tree_id,
                                        active@,
                                    ) implies !totals_fit(tree_totals(w, pats, tree_id, active@)) by {
                                        lemma_extends_consistent(w, self.log@, log_before);
                                        lemma_reach_subtree(w, pats, views, active@, i as nat, before);
                                        lemma_extends_consistent(w, self.log@, log1);
                                        lemma_overflow_from_reach(w, pats, tree_id, active@, (i + 1) as nat, merged);
                                    }
                                }
                                return Err(StatsError::CountOverflow(tree_id));
                            },
                        }
                        proof {
                            assert forall|w: World| #[trigger] consistent(w, self.log@) implies entries_reach(
                                w,
                                pats,
                                views,
                                active@,
                                (i + 1) as nat,
                                total.tallies(),
                            ) by {
                                lemma_extends_consistent(w, self.log@, log_before);
                                lemma_reach_subtree(w, pats, views, active@, i as nat, before);
                            }
                            lemma_extends_trans(self.log@, log_before, log1);
                        }
                    },
                    EntryKind::Blob | EntryKind::BlobExecutable => {
                        let result = self.stats_blob(name, oid);
                        proof {
                            lemma_extends_trans(self.log@, log_before, log1);
                            lemma_extends_trans(self.log@, log1, log0);
                        }
                        let contribution = match result {
                            Ok(c) => c,
                            Err(e) => return Err(e),
                        };
                        match contribution {
                            Some((lang, counts)) => {
                                match total.add_language_counts(lang, counts) {
                                    Ok(()) => {},
                                    Err(_) => {
                                        proof {
                                            let added = add_to(before, lang, counts.tally());
                                            assert(tally_of(added, lang) == add_tally(
                                                tally_of(before, lang),
                                                counts.tally(),
                                            ));
                                            assert(!totals_fit(added));
                                            assert forall|w: World| #[trigger] consistent(w, self.log@) && has_totals(
                                                w,
                                                pats,
                                                tree_id,
                                                active@,
                                            ) implies !totals_fit(tree_totals(w, pats, tree_id, active@)) by {
                                                lemma_extends_consistent(w, self.log@, log_before);
                                                lemma_reach_blob(w, pats, views, active@, i as nat, before);
                                                lemma_extends_consistent(w, self.log@, log1);
                                                lemma_overflow_from_reach(w, pats, tree_id, active@, (i + 1) as nat, added);
                                            }
                                        }
                                        return Err(StatsError::CountOverflow(tree_id));
                                    },
                                }
                            },
                            None => {},
                        }
                        proof {
                            assert forall|w: World| #[trigger] consistent(w, self.log@) implies entries_reach(
                                w,
                                pats,
                                views,
                                active@,
                                (i + 1) as nat,
                                total.tallies(),
                            ) by {
                                lemma_extends_consistent(w, self.log@, log_before);
                                lemma_reach_blob(w, pats, views, active@, i as nat, before);
                            }
                            lemma_extends_trans(self.log@, log_before, log1);
                        }
                    },
                    _ => {
                        proof {
                            assert forall|w: World| #[trigger] consistent(w, self.log@) implies entries_reach(
                                w,
                                pats,
                                views,
                                active@,
                                (i + 1) as nat,
                                total.tallies(),
                            ) by {
                                lemma_reach_skip(w, pats, views, active@, i as nat, before);
                            }
                        }
                    },
                }
            }
            proof {
                assert forall|w: World| #[trigger] consistent(w, self.log@) implies skips_reach(
                    w,
                    pats,
                    views,
                    active@,
                    self.skipped(),
                    (i + 1) as nat,
                ) by {
                    lemma_extends_consistent(w, self.log@, log_before);
                    lemma_skips_reach_sets(
                        w,
                        pats,
                        views,
                        active@,
                        sets_before,
                        self.skipped(),
                        i as nat,
                    );
                    if !excluded && kind == EntryKind::Tree {
                        lemma_skips_subtree(w, pats, views, active@, self.skipped(), i as nat);
                    } else {
                        lemma_skips_flat(w, pats, views, active@, self.skipped(), i as nat);
                    }
                }
                assert forall|w: World| #[trigger] consistent(w, self.log@) implies meets_reach(
                    w,
                    pats,
                    views,
                    active@,
                    s0,
                    self.skipped(),
                    (i + 1) as nat,
                ) by {
                    lemma_extends_consistent(w, self.log@, log_before);
                    if excluded || kind == EntryKind::Link || kind == EntryKind::Commit {
                        lemma_meets_flat(w, pats, views, active@, s0, self.skipped(), i as nat);
                    } else if kind == EntryKind::Tree {
                        lemma_meets_subtree(
                            w,
                            pats,
                            views,
                            active@,
                            s0,
                            sets_before,
                            self.skipped(),
                            i as nat,
                        );
                    } else {
                        lemma_meets_blob(w, pats, views, active@, s0, sets_before, i as nat);
                    }
                }
            }
            i = i + 1;
        }
        proof {
            assert forall|w: World| #[trigger] consistent(w, self.log@) implies tree_skips(
                w,
                pats,
                tree_id,
                active@,
                self.skipped(),
            ) by {
                lemma_extends_consistent(w, self.log@, log1);
                lemma_skips_done(w, pats, tree_id, active@, self.skipped());
            }
            assert forall|w: World| #[trigger] consistent(w, self.log@) implies tree_meets(
                w,
                pats,
                tree_id,
                active@,
                s0,
                self.skipped(),
            ) by {
                lemma_extends_consistent(w, self.log@, log1);
                lemma_meets_done(w, pats, tree_id, active@, s0, self.skipped());
            }
            assert forall|w: World| #[trigger] consistent(w, self.log@) implies has_totals(
                w,
                pats,
                tree_id,
                active@,
            ) && total.tallies() == tree_totals(w, pats, tree_id, active@) by {
                lemma_extends_consistent(w, self.log@, log1);
                lemma_reach_done(w, pats, tree_id, active@, total.tallies());
            }
            lemma_extends_trans(self.log@, log1, log0);
        }
        if cacheable {
            let copy = total.copy();
            proof {
                assert(active@ =~= Seq::<(usize, usize)>::empty());
            }
            self.cache_tree(tree_id, copy);
        }
        Ok(total)
    }

    /// The per-language totals of the tree `tree_id`: every blob under it
    /// whose path is not excluded, counted by the language of its name (or
    /// of its shebang), skipping unrecognized, binary and huge blobs.
    pub fn stats_tree(&mut self, tree_id: Oid) -> (r: Result<LangTotals, StatsError>)
        requires
            old(self).wf(),
        ensures
            final(self).wf(),
            final(self).continues(*old(self)),
            r matches Ok(t) ==> counted(final(self).log(), final(self).patterns(), tree_id, t),
            r is Ok ==> forall|w: World| #[trigger]
                consistent(w, final(self).log()) ==> tree_skips(
                    w,
                    final(self).patterns(),
                    tree_id,
                    initial_active(final(self).patterns().len()),
                    final(self).skipped(),
                ),
            r is Ok ==> forall|w: World| #[trigger]
                consistent(w, final(self).log()) ==> tree_meets(
                    w,
                    final(self).patterns(),
                    tree_id,
                    initial_active(final(self).patterns().len()),
                    old(self).skipped(),
                    final(self).skipped(),
                ),
            old(self).caching_on() && old(self).patterns().len() == 0 && old(self).cached_trees().contains(
                tree_id,
            ) ==> r is Ok && final(self).log() == old(self).log(),
            r is Ok && old(self).caching_on() && old(self).patterns().len() == 0
                ==> final(self).cached_trees().contains(tree_id),
            r matches Err(e) && e is TooDeep ==> forall|w: World| #[trigger]
                consistent(w, final(self).log()) ==> tree_totals_fuel(
                    w,
                    final(self).patterns(),
                    tree_id,
                    initial_active(final(self).patterns().len()),
                    MAX_TREE_DEPTH as nat,
                ) is None,
            r matches Err(e) && e is CountOverflow ==> forall|w: World| #[trigger]
                consistent(w, final(self).log()) ==> (has_totals(
                    w,
                    final(self).patterns(),
                    tree_id,
                    initial_active(final(self).patterns().len()),
                ) ==> !totals_fit(
                    tree_totals(
                        w,
                        final(self).patterns(),
                        tree_id,
                        initial_active(final(self).patterns().len()),
                    ),
                )),
    {
        let n = self.excludes.len();
        let mut active: Vec<(usize, usize)> = Vec::new();
        let mut i: usize = 0;
        while i < n
            invariant
                i <= n,
                n == self.excludes@.len(),
                active@ =~= initial_active(i as nat),
            decreases n - i,
        {
            active.push((i, 0));
            i = i + 1;
            proof {
                assert(active@ =~= initial_active(i as nat));
            }
        }
        proof {
            assert(self.excludes.deep_view().len() == n);
            assert forall|j: int| 0 <= j < active@.len() implies (#[trigger] active@[j]).0
                < self.excludes.deep_view().len() && active@[j].1 < self.excludes.deep_view()[active@[
                j].0 as int].len() by {
                assert(active@[j] == (j as usize, 0usize));
            }
        }
        self.stats_tree_inner(tree_id, &active, MAX_TREE_DEPTH)
    }
}

impl<'repo> Counter<'repo> {
    /// Hands out the huge blobs met since the last call, each once, in the
    /// order they were met. Every blob skipped as huge is handed out by
    /// exactly one call: the blobs handed out are distinct and none was
    /// handed out before.
    pub fn take_warnings(&mut self) -> (r: Vec<HugeBlob>)
        requires
            old(self).wf(),
        ensures
            final(self).wf(),
            final(self).continues(*old(self)),
            final(self).skipped() == old(self).skipped(),
            r@ == old(self).pending_warnings(),
            final(self).pending_warnings() == Seq::<HugeBlob>::empty(),
            forall|i: int|
                0 <= i < r@.len() ==> is_huge(#[trigger] r@[i].size) && old(self).skipped().2.contains(
                    r@[i].oid,
                ) && !old(self).reported().contains(r@[i].oid),
            forall|i: int, j: int| 0 <= i < j < r@.len() ==> (#[trigger] r@[i]).oid != (#[trigger] r@[j]).oid,
            final(self).reported() == old(self).reported() + Set::new(
                |k: Oid| exists|i: int| 0 <= i < r@.len() && r@[i].oid == k,
            ),
            final(self).reported() == old(self).skipped().2,
            forall|w: World, i: int|
                #![trigger consistent(w, old(self).log()), r@[i]]
                consistent(w, old(self).log()) && 0 <= i < r@.len() ==> (w.size)(r@[i].oid)
                    == r@[i].size,
    {
        let mut taken: Vec<HugeBlob> = Vec::new();
        std::mem::swap(&mut taken, &mut self.warnings);
        proof {
            let handed = Set::new(|k: Oid| exists|i: int| 0 <= i < taken@.len() && taken@[i].oid == k);
            self.reported@ = self.reported@ + handed;
            assert(self.reported@ =~= self.skipped_huge@);
            lemma_extends_refl(self.log@);
            assert forall|w: World| #[trigger] consistent(w, self.log@) implies self.valid_in(w) by {
                assert(old(self).valid_in(w));
            }
            assert forall|w: World, i: int|
                #![trigger consistent(w, old(self).log()), taken@[i]]
                consistent(w, old(self).log()) && 0 <= i < taken@.len() implies (w.size)(
                taken@[i].oid,
            ) == taken@[i].size by {
                assert(old(self).valid_in(w));
            }
        }
        taken
    }

    /// The numbers of distinct blobs skipped as unrecognized, binary and
    /// huge, where any blob was skipped; `None` where none was, and there
    /// is nothing to report.
    pub fn report_skips(&self) -> (r: Option<(usize, usize, usize)>)
        ensures
            r is None <==> self.skipped().0.len() == 0 && self.skipped().1.len() == 0
                && self.skipped().2.len() == 0,
            r matches Some(counts) ==> counts.0 == self.skipped().0.len() && counts.1
                == self.skipped().1.len() && counts.2 == self.skipped().2.len(),
    {
        let unknown = self.skipped_unknown.len();
        let binary = self.skipped_binary.len();
        let huge = self.skipped_huge.len();
        if unknown > 0 || binary > 0 || huge > 0 {
            Some((unknown, binary, huge))
        } else {
            None
        }
    }
}

impl<'repo> Counter<'repo> {
    /// Every answer in the log was given by a read of the question it
    /// answers: no answer is recorded under another question.
    pub proof fn lemma_log_attested(&self)
        requires
            self.wf(),
        ensures
            forall|i: int| 0 <= i < self.log().len() ==> attested(#[trigger] self.log()[i]),
    {
    }

    /// The skips are what they claim to be: every blob skipped as huge
    /// declares a size over the limit, every blob skipped as binary is not
    /// huge and holds a NUL among its first bytes, and every blob skipped as
    /// unrecognized has no language under some name it was met by, in every
    /// world that gives the answers the counter received.
    pub proof fn lemma_skips_hold(&self)
        requires
            self.wf(),
        ensures
            forall|w: World, k: Oid|
                #![trigger consistent(w, self.log()), self.skipped().2.contains(k)]
                consistent(w, self.log()) && self.skipped().2.contains(k) ==> is_huge((w.size)(k)),
            forall|w: World, k: Oid|
                #![trigger consistent(w, self.log()), self.skipped().1.contains(k)]
                consistent(w, self.log()) && self.skipped().1.contains(k) ==> !is_huge((w.size)(k))
                    && is_binary((w.data)(k)),
            forall|w: World, k: Oid|
                #![trigger consistent(w, self.log()), self.skipped().0.contains(k)]
                consistent(w, self.log()) && self.skipped().0.contains(k) ==> exists|name: Seq<u8>|
                    #[trigger] blob_language(w, name, k) is None,
    {
        assert forall|w: World, k: Oid|
            #![trigger consistent(w, self.log()), self.skipped().2.contains(k)]
            consistent(w, self.log()) && self.skipped().2.contains(k) implies is_huge((w.size)(k)) by {
            assert(self.valid_in(w));
        }
        assert forall|w: World, k: Oid|
            #![trigger consistent(w, self.log()), self.skipped().1.contains(k)]
            consistent(w, self.log()) && self.skipped().1.contains(k) implies !is_huge((w.size)(k))
                && is_binary((w.data)(k)) by {
            assert(self.valid_in(w));
        }
        assert forall|w: World, k: Oid|
            #![trigger consistent(w, self.log()), self.skipped().0.contains(k)]
            consistent(w, self.log()) && self.skipped().0.contains(k) implies exists|name: Seq<u8>|
                #[trigger] blob_language(w, name, k) is None by {
            assert(self.valid_in(w));
        }
    }
}

/// The totals of a tree are determined by the repository's answers, not by
/// the counter that computed them: two totals counted for the same tree
/// with the same patterns (one by a memoizing counter and one by a counter
/// that does not memoize, say) hold the same entries in the same order,
/// wherever one world gives every answer either counter received.
pub proof fn lemma_counted_determined(
    w: World,
    pats: Seq<Seq<Seq<u8>>>,
    oid: Oid,
    log1: Seq<Observation>,
    t1: LangTotals,
    log2: Seq<Observation>,
    t2: LangTotals,
)
    requires
        counted(log1, pats, oid, t1),
        counted(log2, pats, oid, t2),
        consistent(w, log1),
        consistent(w, log2),
    ensures
        t1.entries() == t2.entries(),
{
    t1.lemma_same_tallies(&t2);
}

/// A tree counted in a world has totals that fit there: no counter that
/// the same world agrees with reports an overflow on that tree (a memoizing
/// counter and one that does not memoize, say).
pub proof fn lemma_counted_fits(
    w: World,
    pats: Seq<Seq<Seq<u8>>>,
    oid: Oid,
    log: Seq<Observation>,
    t: LangTotals,
)
    requires
        counted(log, pats, oid, t),
        consistent(w, log),
    ensures
        has_totals(w, pats, oid, initial_active(pats.len())),
        totals_fit(tree_totals(w, pats, oid, initial_active(pats.len()))),
{
    t.lemma_tallies_fit();
}

/// Symbolic links and submodules count for nothing: a tree and the same
/// tree with its links and submodules left out are counted alike, wherever
/// one world gives every answer both counts received.
pub proof fn lemma_links_counted(
    w: World,
    pats: Seq<Seq<Seq<u8>>>,
    a: Oid,
    b: Oid,
    log1: Seq<Observation>,
    t1: LangTotals,
    log2: Seq<Observation>,
    t2: LangTotals,
)
    requires
        (w.tree)(b) == without_links((w.tree)(a)),
        counted(log1, pats, a, t1),
        counted(log2, pats, b, t2),
        consistent(w, log1),
        consistent(w, log2),
    ensures
        t1.entries() == t2.entries(),
{
    let act = initial_active(pats.len());
    let f = choose|f: nat| #[trigger] tree_totals_fuel(w, pats, a, act, f) is Some;
    assert(f > 0);
    lemma_links_count_nothing(w, pats, (w.tree)(a), act, (f - 1) as nat);
    assert(tree_totals_fuel(w, pats, b, act, f) == tree_totals_fuel(w, pats, a, act, f));
    lemma_tree_totals(w, pats, a, act, f);
    lemma_tree_totals(w, pats, b, act, f);
    t1.lemma_same_tallies(&t2);
}

/// Excluding a top-level name leaves out exactly the root's entries of
/// that name: a tree counted with the one pattern `name` (as
/// `parse_excludes` makes of `vendor` or `vendor/`) and the same tree
/// without those entries counted with no pattern are counted alike,
/// wherever one world gives every answer both counts received.
pub proof fn lemma_top_level_excluded(
    w: World,
    name: Seq<u8>,
    a: Oid,
    b: Oid,
    log1: Seq<Observation>,
    t1: LangTotals,
    log2: Seq<Observation>,
    t2: LangTotals,
)
    requires
        (w.tree)(b) == without_name((w.tree)(a), name),
        counted(log1, seq![seq![name]], a, t1),
        counted(log2, Seq::empty(), b, t2),
        consistent(w, log1),
        consistent(w, log2),
    ensures
        t1.entries() == t2.entries(),
{
    let pats = seq![seq![name]];
    let nopats = Seq::<Seq<Seq<u8>>>::empty();
    assert(initial_active(1) =~= seq![(0usize, 0usize)]);
    assert(initial_active(0) =~= Seq::<(usize, usize)>::empty());
    let act = initial_active(pats.len());
    let none = initial_active(nopats.len());
    let f = choose|f: nat| #[trigger] tree_totals_fuel(w, pats, a, act, f) is Some;
    assert(f > 0);
    lemma_exclude_top_level(w, name, (w.tree)(a), (f - 1) as nat);
    assert(tree_totals_fuel(w, nopats, b, none, f) == tree_totals_fuel(w, pats, a, act, f));
    lemma_tree_totals(w, pats, a, act, f);
    lemma_tree_totals(w, nopats, b, none, f);
    t1.lemma_same_tallies(&t2);
}

/// Patterns parsed from texts have at least one component each.
proof fn lemma_exclude_patterns_wf(texts: Seq<Seq<u8>>)
    ensures
        patterns_wf(exclude_patterns(texts)),
    decreases texts.len(),
{
    if texts.len() > 0 {
        lemma_exclude_patterns_wf(texts.drop_last());
    }
}

} // verus!
