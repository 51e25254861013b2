//! Per-language line counts and their sums.
//!
//! The totals of a tree are an ordered map from a language's index (see
//! `languages`) to counts, listed as entries in increasing key order. The
//! mathematical model of a count is a `Tally` of natural numbers, so sums in
//! specifications never wrap; executable sums check for overflow and report it.
use std::collections::BTreeMap;
use vstd::laws_cmp::{group_laws_cmp, obeys_cmp};
use vstd::prelude::*;
use vstd::std_specs::btree::{
    group_btree_axioms, increasing_seq, key_obeys_cmp_spec, spec_btree_map_iter,
};
use vstd::std_specs::cmp::OrdSpec;
use vstd::std_specs::iter::IteratorSpec;

verus! {

/// Number of files, code lines, comment lines and blank lines.
#[derive(Clone, Copy, PartialEq, Eq, Structural, Debug)]
pub struct Counts {
    pub files: u64,
    pub code: u64,
    pub comments: u64,
    pub blanks: u64,
}

/// The unbounded model of a `Counts`.
pub struct Tally {
    pub files: nat,
    pub code: nat,
    pub comments: nat,
    pub blanks: nat,
}

pub open spec fn zero_tally() -> Tally {
    Tally { files: 0, code: 0, comments: 0, blanks: 0 }
}

pub open spec fn add_tally(a: Tally, b: Tally) -> Tally {
    Tally {
        files: a.files + b.files,
        code: a.code + b.code,
        comments: a.comments + b.comments,
        blanks: a.blanks + b.blanks,
    }
}

/// Every component of the tally fits in a `u64`.
pub open spec fn tally_fits(t: Tally) -> bool {
    &&& t.files <= u64::MAX
    &&& t.code <= u64::MAX
    &&& t.comments <= u64::MAX
    &&& t.blanks <= u64::MAX
}

impl Counts {
    pub open spec fn tally(self) -> Tally {
        Tally {
            files: self.files as nat,
            code: self.code as nat,
            comments: self.comments as nat,
            blanks: self.blanks as nat,
        }
    }

    /// All four counts zero.
    pub fn zero() -> (r: Counts)
        ensures
            r.tally() == zero_tally(),
    {
        Counts { files: 0, code: 0, comments: 0, blanks: 0 }
    }

    /// Adds `other` to `self`, component by component.
    pub fn add(&mut self, other: &Counts)
        requires
            tally_fits(add_tally(old(self).tally(), other.tally())),
        ensures
            final(self).tally() == add_tally(old(self).tally(), other.tally()),
    {
        self.files = self.files + other.files;
        self.code = self.code + other.code;
        self.comments = self.comments + other.comments;
        self.blanks = self.blanks + other.blanks;
    }

    /// The component-wise sum, or `None` where a component exceeds `u64::MAX`.
    pub fn checked_sum(&self, other: &Counts) -> (r: Option<Counts>)
        ensures
            r is Some <==> tally_fits(add_tally(self.tally(), other.tally())),
            r matches Some(s) ==> s.tally() == add_tally(self.tally(), other.tally()),
    {
        if self.files > u64::MAX - other.files || self.code > u64::MAX - other.code
            || self.comments > u64::MAX - other.comments || self.blanks > u64::MAX - other.blanks {
            None
        } else {
            let mut s = *self;
            s.add(other);
            Some(s)
        }
    }
}

impl Default for Counts {
    fn default() -> (r: Counts)
        ensures
            r.tally() == zero_tally(),
    {
        Counts::zero()
    }
}

/// The model of a language-keyed map of counts.
pub open spec fn tally_map(m: Map<u32, Counts>) -> Map<u32, Tally> {
    m.map_values(|c: Counts| c.tally())
}

/// The tally of `lang` in `m`, zero where `m` has none.
pub open spec fn tally_of(m: Map<u32, Tally>, lang: u32) -> Tally {
    if m.contains_key(lang) {
        m[lang]
    } else {
        zero_tally()
    }
}

/// `m` with `t` added to the tally of `lang`.
pub open spec fn add_to(m: Map<u32, Tally>, lang: u32, t: Tally) -> Map<u32, Tally> {
    m.insert(lang, add_tally(tally_of(m, lang), t))
}

/// The language-wise sum of two maps of tallies.
pub open spec fn merge_totals(a: Map<u32, Tally>, b: Map<u32, Tally>) -> Map<u32, Tally> {
    Map::new(
        |l: u32| a.contains_key(l) || b.contains_key(l),
        |l: u32| add_tally(tally_of(a, l), tally_of(b, l)),
    )
}

/// No component of `a` exceeds that of `b`.
pub open spec fn tally_le(a: Tally, b: Tally) -> bool {
    a.files <= b.files && a.code <= b.code && a.comments <= b.comments && a.blanks <= b.blanks
}

/// Every language's tally fits in `u64`s.
pub open spec fn totals_fit(m: Map<u32, Tally>) -> bool {
    forall|lang: u32| tally_fits(#[trigger] tally_of(m, lang))
}

/// A sum of counts would exceed `u64::MAX`.
#[derive(Debug)]
pub struct CountOverflow;

/// The map of a sequence of `(key, counts)` pairs whose keys are distinct.
pub open spec fn entries_map(s: Seq<(u32, Counts)>) -> Map<u32, Counts>
    decreases s.len(),
{
    if s.len() == 0 {
        Map::empty()
    } else {
        entries_map(s.drop_last()).insert(s.last().0, s.last().1)
    }
}

/// Keys strictly increase along the sequence.
pub open spec fn keys_increasing(s: Seq<(u32, Counts)>) -> bool {
    forall|a: int, b: int| 0 <= a < b < s.len() ==> s[a].0 < s[b].0
}

pub proof fn lemma_entries_map_keys(s: Seq<(u32, Counts)>)
    ensures
        forall|k: u32| #[trigger]
            entries_map(s).contains_key(k) <==> exists|i: int| 0 <= i < s.len() && s[i].0 == k,
    decreases s.len(),
{
    if s.len() > 0 {
        let d = s.drop_last();
        lemma_entries_map_keys(d);
        assert forall|k: u32| #[trigger]
            entries_map(s).contains_key(k) implies exists|i: int| 0 <= i < s.len() && s[i].0 == k by {
            if k == s.last().0 {
                assert(s[s.len() - 1].0 == k);
            } else {
                assert(entries_map(d).contains_key(k));
                let i = choose|i: int| 0 <= i < d.len() && d[i].0 == k;
                assert(s[i].0 == k);
            }
        }
        assert forall|k: u32|
            (exists|i: int| 0 <= i < s.len() && s[i].0 == k) implies #[trigger] entries_map(
            s,
        ).contains_key(k) by {
            let i = choose|i: int| 0 <= i < s.len() && s[i].0 == k;
            if i < s.len() - 1 {
                assert(d[i].0 == k);
            }
        }
    }
}

/// A map equals the map of an increasing sequence listing its entries.
pub proof fn lemma_entries_map_eq(s: Seq<(u32, Counts)>, m: Map<u32, Counts>)
    requires
        keys_increasing(s),
        forall|i: int| 0 <= i < s.len() ==> m.contains_key(#[trigger] s[i].0) && m[s[i].0] == s[i].1,
        forall|k: u32| #[trigger] m.contains_key(k) ==> exists|i: int| 0 <= i < s.len() && s[i].0 == k,
    ensures
        entries_map(s) =~= m,
{
    lemma_entries_map_keys(s);
    assert forall|k: u32| #[trigger] entries_map(s).contains_key(k) implies entries_map(s)[k]
        == m[k] by {
        let i = choose|i: int| 0 <= i < s.len() && s[i].0 == k;
        lemma_entries_map_value(s, i);
    }
}

/// Replacing the value of an existing entry.
pub proof fn lemma_entries_map_update(s: Seq<(u32, Counts)>, i: int, c: Counts)
    requires
        keys_increasing(s),
        0 <= i < s.len(),
    ensures
        keys_increasing(s.update(i, (s[i].0, c))),
        entries_map(s.update(i, (s[i].0, c))) =~= entries_map(s).insert(s[i].0, c),
{
    let t = s.update(i, (s[i].0, c));
    let m = entries_map(s).insert(s[i].0, c);
    lemma_entries_map_keys(s);
    assert forall|j: int| 0 <= j < t.len() implies m.contains_key(#[trigger] t[j].0) && m[t[j].0]
        == t[j].1 by {
        if j != i {
            lemma_entries_map_value(s, j);
        }
    }
    assert forall|k: u32| #[trigger] m.contains_key(k) implies exists|j: int|
        0 <= j < t.len() && t[j].0 == k by {
        if k != s[i].0 {
            let j = choose|j: int| 0 <= j < s.len() && s[j].0 == k;
            assert(t[j].0 == k);
        } else {
            assert(t[i].0 == k);
        }
    }
    lemma_entries_map_eq(t, m);
}

/// Inserting a new key at its place in the order.
pub proof fn lemma_entries_map_insert(s: Seq<(u32, Counts)>, i: int, k: u32, c: Counts)
    requires
        keys_increasing(s),
        0 <= i <= s.len(),
        forall|j: int| 0 <= j < i ==> s[j].0 < k,
        forall|j: int| i <= j < s.len() ==> k < s[j].0,
    ensures
        keys_increasing(s.insert(i, (k, c))),
        !entries_map(s).contains_key(k),
        entries_map(s.insert(i, (k, c))) =~= entries_map(s).insert(k, c),
{
    let t = s.insert(i, (k, c));
    let m = entries_map(s).insert(k, c);
    lemma_entries_map_keys(s);
    assert forall|a: int, b: int| 0 <= a < b < t.len() implies t[a].0 < t[b].0 by {
        if a < i && b > i {
            assert(t[b].0 == s[b - 1].0);
        }
    }
    assert forall|j: int| 0 <= j < t.len() implies m.contains_key(#[trigger] t[j].0) && m[t[j].0]
        == t[j].1 by {
        if j < i {
            lemma_entries_map_value(s, j);
        } else if j > i {
            lemma_entries_map_value(s, j - 1);
        }
    }
    assert forall|key: u32| #[trigger] m.contains_key(key) implies exists|j: int|
        0 <= j < t.len() && t[j].0 == key by {
        if key != k {
            let j = choose|j: int| 0 <= j < s.len() && s[j].0 == key;
            if j < i {
                assert(t[j].0 == key);
            } else {
                assert(t[j + 1].0 == key);
            }
        } else {
            assert(t[i].0 == key);
        }
    }
    lemma_entries_map_eq(t, m);
}

pub proof fn lemma_entries_map_value(s: Seq<(u32, Counts)>, i: int)
    requires
        0 <= i < s.len(),
        keys_increasing(s),
    ensures
        entries_map(s).contains_key(s[i].0),
        entries_map(s)[s[i].0] == s[i].1,
    decreases s.len(),
{
    if i < s.len() - 1 {
        lemma_entries_map_value(s.drop_last(), i);
    }
}

/// An increasing sequence of entries is determined by its map.
pub proof fn lemma_entries_unique(s: Seq<(u32, Counts)>, t: Seq<(u32, Counts)>)
    requires
        keys_increasing(s),
        keys_increasing(t),
        entries_map(s) == entries_map(t),
    ensures
        s == t,
    decreases s.len(),
{
    lemma_entries_map_keys(s);
    lemma_entries_map_keys(t);
    if s.len() == 0 {
        if t.len() > 0 {
            assert(entries_map(t).contains_key(t[0].0));
        }
        assert(s =~= t);
    } else {
        if t.len() == 0 {
            assert(entries_map(s).contains_key(s[0].0));
        }
        let ks = s.last().0;
        let kt = t.last().0;
        assert(entries_map(s).contains_key(s[s.len() - 1].0));
        assert(entries_map(t).contains_key(t[t.len() - 1].0));
        let j = choose|j: int| 0 <= j < t.len() && t[j].0 == ks;
        let i = choose|i: int| 0 <= i < s.len() && s[i].0 == kt;
        assert(ks <= kt) by {
            if j < t.len() - 1 {
                assert(t[j].0 < t[t.len() - 1].0);
            }
        }
        assert(kt <= ks) by {
            if i < s.len() - 1 {
                assert(s[i].0 < s[s.len() - 1].0);
            }
        }
        lemma_entries_map_value(s, s.len() - 1);
        lemma_entries_map_value(t, t.len() - 1);
        let ds = s.drop_last();
        let dt = t.drop_last();
        lemma_entries_map_keys(ds);
        lemma_entries_map_keys(dt);
        assert(!entries_map(ds).contains_key(ks)) by {
            if entries_map(ds).contains_key(ks) {
                let a = choose|a: int| 0 <= a < ds.len() && ds[a].0 == ks;
                assert(s[a].0 < s[s.len() - 1].0);
            }
        }
        assert(!entries_map(dt).contains_key(ks)) by {
            if entries_map(dt).contains_key(ks) {
                let a = choose|a: int| 0 <= a < dt.len() && dt[a].0 == ks;
                assert(t[a].0 < t[t.len() - 1].0);
            }
        }
        assert(entries_map(ds) =~= entries_map(s).remove(ks));
        assert(entries_map(dt) =~= entries_map(t).remove(ks));
        assert(keys_increasing(ds));
        assert(keys_increasing(dt));
        lemma_entries_unique(ds, dt);
        assert(s =~= ds.push(s.last()));
        assert(t =~= dt.push(t.last()));
    }
}

/// An increasing sequence lists as many keys as it has entries.
proof fn lemma_entries_map_len(s: Seq<(u32, Counts)>)
    requires
        keys_increasing(s),
    ensures
        entries_map(s).dom().finite(),
        entries_map(s).dom().len() == s.len(),
    decreases s.len(),
{
    if s.len() > 0 {
        let d = s.drop_last();
        lemma_entries_map_len(d);
        lemma_entries_map_keys(d);
        assert(!entries_map(d).contains_key(s.last().0)) by {
            if entries_map(d).contains_key(s.last().0) {
                let j = choose|j: int| 0 <= j < d.len() && d[j].0 == s.last().0;
                assert(s[j].0 < s[s.len() - 1].0);
            }
        }
    }
}

/// Where `k` goes in an increasing sequence that lacks it: after the
/// entries with smaller keys, before those with larger ones.
proof fn lemma_insert_point(s: Seq<(u32, Counts)>, k: u32) -> (i: int)
    requires
        keys_increasing(s),
        forall|j: int| 0 <= j < s.len() ==> s[j].0 != k,
    ensures
        0 <= i <= s.len(),
        forall|j: int| 0 <= j < i ==> s[j].0 < k,
        forall|j: int| i <= j < s.len() ==> k < s[j].0,
    decreases s.len(),
{
    if s.len() == 0 {
        0
    } else {
        let d = s.drop_last();
        let i = lemma_insert_point(d, k);
        if s.last().0 < k {
            assert forall|j: int| 0 <= j < s.len() implies s[j].0 < k by {
                if j < s.len() - 1 {
                    assert(s[j].0 < s[s.len() - 1].0);
                }
            }
            s.len() as int
        } else {
            assert forall|j: int| 0 <= j < i implies s[j].0 < k by {
                assert(d[j] == s[j]);
            }
            assert forall|j: int| i <= j < s.len() implies k < s[j].0 by {
                if j < s.len() - 1 {
                    assert(d[j] == s[j]);
                }
            }
            i
        }
    }
}

/// Language keys are ordered as integers.
proof fn lemma_u32_keys_ordered()
    ensures
        key_obeys_cmp_spec::<u32>(),
{
    broadcast use group_btree_axioms, group_laws_cmp;

    assert(obeys_cmp::<u32>());
}

/// Keys that an ordered map lists in increasing order strictly increase.
proof fn lemma_increasing_keys(keys: Seq<u32>)
    requires
        increasing_seq(keys),
    ensures
        forall|a: int, b: int| 0 <= a < b < keys.len() ==> keys[a] < keys[b],
{
    broadcast use group_btree_axioms, group_laws_cmp;

    assert(obeys_cmp::<u32>());
    assert forall|a: int, b: int| 0 <= a < b < keys.len() implies keys[a] < keys[b] by {
        assert(OrdSpec::cmp_spec(&keys[a], &keys[b]) is Less);
    }
}

/// The counts of each language present in a tree, one entry per language.
pub struct LangTotals {
    map: BTreeMap<u32, Counts>,
    order: Ghost<Seq<(u32, Counts)>>,
}

impl LangTotals {
    /// The entries, in increasing language order.
    pub closed spec fn entries(&self) -> Seq<(u32, Counts)> {
        self.order@
    }

    pub closed spec fn wf(&self) -> bool {
        &&& keys_increasing(self.order@)
        &&& entries_map(self.order@) == self.map@
    }

    /// The counts of each language.
    pub open spec fn view(&self) -> Map<u32, Counts> {
        entries_map(self.entries())
    }

    /// The tallies of each language.
    pub open spec fn tallies(&self) -> Map<u32, Tally> {
        tally_map(self@)
    }

    /// No language has any counts.
    pub fn new() -> (r: LangTotals)
        ensures
            r.wf(),
            r.entries().len() == 0,
            r@ == Map::<u32, Counts>::empty(),
    {
        broadcast use group_btree_axioms;

        let r = LangTotals { map: BTreeMap::new(), order: Ghost(Seq::empty()) };
        proof {
            assert(entries_map(r.order@) =~= r.map@);
        }
        r
    }

    /// The number of languages present.
    pub fn len(&self) -> (r: usize)
        requires
            self.wf(),
        ensures
            r == self.entries().len(),
    {
        broadcast use group_btree_axioms;

        proof {
            lemma_entries_map_len(self.order@);
        }
        self.map.len()
    }

    /// The entries, in increasing language order.
    pub fn to_entries(&self) -> (r: Vec<(u32, Counts)>)
        requires
            self.wf(),
        ensures
            r@ == self.entries(),
    {
        broadcast use group_btree_axioms;

        proof {
            lemma_u32_keys_ordered();
        }
        let ghost all = spec_btree_map_iter(&self.map).remaining();
        let ghost keys = all.map_values(|kv: (&u32, &Counts)| *kv.0);
        let mut r: Vec<(u32, Counts)> = Vec::new();
        for (k, v) in it: self.map.iter()
            invariant
                it.seq() == all,
                increasing_seq(keys),
                r@.len() == it.index(),
                forall|i: int| 0 <= i < r@.len() ==> #[trigger] r@[i] == (*all[i].0, *all[i].1),
        {
            r.push((*k, *v));
        }
        proof {
            lemma_increasing_keys(keys);
        }
        proof {
            let m = self.map@;
            assert(r@.len() == all.len());
            assert forall|a: int, b: int| 0 <= a < b < r@.len() implies r@[a].0 < r@[b].0 by {
                assert(keys[a] < keys[b]);
            }
            assert forall|i: int| 0 <= i < r@.len() implies m.contains_key(#[trigger] r@[i].0)
                && m[r@[i].0] == r@[i].1 by {
                assert(m.contains_key(*all[i].0));
            }
            assert forall|k: u32| #[trigger] m.contains_key(k) implies exists|i: int|
                0 <= i < r@.len() && r@[i].0 == k by {
                assert(all.contains((&k, &m[k])));
                let i = choose|i: int| 0 <= i < all.len() && all[i] == (&k, &m[k]);
                assert(r@[i].0 == k);
            }
            lemma_entries_map_eq(r@, m);
            lemma_entries_unique(r@, self.entries());
        }
        r
    }

    /// The keys of `entries()` are those of the view, each once, and each
    /// entry holds the view's value.
    pub proof fn lemma_entries(&self)
        requires
            self.wf(),
        ensures
            keys_increasing(self.entries()),
            forall|k: u32| #[trigger]
                self@.contains_key(k) <==> exists|i: int|
                    0 <= i < self.entries().len() && self.entries()[i].0 == k,
            forall|i: int| #![trigger self.entries()[i]]
                0 <= i < self.entries().len() ==> self@.contains_key(self.entries()[i].0)
                    && self@[self.entries()[i].0] == self.entries()[i].1,
    {
        lemma_entries_map_keys(self.entries());
        assert forall|i: int| #![trigger self.entries()[i]]
            0 <= i < self.entries().len() implies self@.contains_key(self.entries()[i].0)
            && self@[self.entries()[i].0] == self.entries()[i].1 by {
            lemma_entries_map_value(self.entries(), i);
        }
    }

    /// Totals with the same tallies hold the same entries, in the same
    /// order.
    pub proof fn lemma_same_tallies(&self, other: &LangTotals)
        requires
            self.wf(),
            other.wf(),
            self.tallies() == other.tallies(),
        ensures
            self.entries() == other.entries(),
    {
        assert(self@ =~= other@) by {
            assert forall|k: u32| #[trigger] self@.contains_key(k) implies other@.contains_key(k)
                && self@[k] == other@[k] by {
                assert(self.tallies().contains_key(k));
                assert(other.tallies().contains_key(k));
                assert(self.tallies()[k] == self@[k].tally());
                assert(other.tallies()[k] == other@[k].tally());
                let (a, b) = (self@[k], other@[k]);
                assert(a.files == b.files && a.code == b.code && a.comments == b.comments
                    && a.blanks == b.blanks);
            }
            assert forall|k: u32| #[trigger] other@.contains_key(k) implies self@.contains_key(k) by {
                assert(other.tallies().contains_key(k));
            }
        }
        lemma_entries_unique(self.entries(), other.entries());
    }

    /// Every language's tally fits in `u64`s.
    pub proof fn lemma_tallies_fit(&self)
        ensures
            totals_fit(self.tallies()),
    {
        assert forall|lang: u32| tally_fits(#[trigger] tally_of(self.tallies(), lang)) by {
            if self.tallies().contains_key(lang) {
                assert(self.tallies()[lang] == self@[lang].tally());
            }
        }
    }

    /// A copy of these totals.
    pub fn copy(&self) -> (r: LangTotals)
        requires
            self.wf(),
        ensures
            r.wf(),
            r.entries() == self.entries(),
    {
        broadcast use group_btree_axioms;

        LangTotals { map: self.map.clone(), order: Ghost(self.order@) }
    }

    /// Adds `c` to the counts of `lang`, creating its entry where there is
    /// none. Fails, leaving the totals unchanged, where a sum would exceed
    /// `u64::MAX`.
    pub fn add_language_counts(&mut self, lang: u32, c: Counts) -> (r: Result<(), CountOverflow>)
        requires
            old(self).wf(),
        ensures
            final(self).wf(),
            r is Ok <==> tally_fits(add_tally(tally_of(old(self).tallies(), lang), c.tally())),
            r is Ok ==> final(self).tallies() == add_to(old(self).tallies(), lang, c.tally()),
            r is Err ==> final(self).entries() == old(self).entries(),
    {
        broadcast use group_btree_axioms;

        let ghost s0 = self.order@;
        proof {
            lemma_entries_map_keys(s0);
        }
        let current = match self.map.get(&lang) {
            Some(found) => *found,
            None => Counts::zero(),
        };
        proof {
            assert(current.tally() == tally_of(old(self).tallies(), lang));
        }
        match current.checked_sum(&c) {
            Some(sum) => {
                self.map.insert(lang, sum);
                proof {
                    if exists|j: int| 0 <= j < s0.len() && s0[j].0 == lang {
                        let j = choose|j: int| 0 <= j < s0.len() && s0[j].0 == lang;
                        lemma_entries_map_value(s0, j);
                        lemma_entries_map_update(s0, j, sum);
                        self.order@ = s0.update(j, (lang, sum));
                    } else {
                        let i = lemma_insert_point(s0, lang);
                        lemma_entries_map_insert(s0, i, lang, sum);
                        self.order@ = s0.insert(i, (lang, sum));
                    }
                    assert(entries_map(self.order@) =~= self.map@);
                    assert(self.tallies() =~= add_to(old(self).tallies(), lang, c.tally()));
                }
                Ok(())
            },
            None => Err(CountOverflow),
        }
    }

    /// Adds every entry of `other` into these totals. Fails on the first sum
    /// that would exceed `u64::MAX`.
    pub fn merge(&mut self, other: &LangTotals) -> (r: Result<(), CountOverflow>)
        requires
            old(self).wf(),
            other.wf(),
        ensures
            final(self).wf(),
            r is Ok ==> final(self).tallies() == merge_totals(old(self).tallies(), other.tallies()),
            r is Err <==> !totals_fit(merge_totals(old(self).tallies(), other.tallies())),
    {
        let ghost t0 = self.tallies();
        let entries = other.to_entries();
        proof {
            other.lemma_entries();
            assert(merge_totals(t0, tally_map(entries_map(other.entries().take(0)))) =~= t0);
        }
        let mut i: usize = 0;
        while i < entries.len()
            invariant
                i <= other.entries().len(),
                entries@ == other.entries(),
                self.wf(),
                keys_increasing(other.entries()),
                t0 == old(self).tallies(),
                self.tallies() == merge_totals(t0, tally_map(entries_map(other.entries().take(i as int)))),
            decreases other.entries().len() - i,
        {
            let (lang, c) = entries[i];
            proof {
                let s = other.entries();
                let p = s.take(i as int);
                lemma_entries_map_keys(p);
                assert(!entries_map(p).contains_key(lang)) by {
                    if entries_map(p).contains_key(lang) {
                        let j = choose|j: int| 0 <= j < p.len() && p[j].0 == lang;
                        assert(s[j].0 < s[i as int].0);
                    }
                }
            }
            let res = self.add_language_counts(lang, c);
            match res {
                Ok(()) => {},
                Err(e) => {
                    proof {
                        let s = other.entries();
                        lemma_entries_map_value(s, i as int);
                        let full = merge_totals(t0, other.tallies());
                        assert(tally_of(full, lang) == add_tally(tally_of(t0, lang), c.tally()));
                        assert(!tally_fits(tally_of(full, lang)));
                    }
                    return Err(e);
                },
            }
            proof {
                let s = other.entries();
                let p = s.take(i as int);
                let q = s.take(i + 1);
                assert(q.drop_last() =~= p);
                assert(merge_totals(t0, tally_map(entries_map(q))) =~= add_to(
                    merge_totals(t0, tally_map(entries_map(p))),
                    lang,
                    c.tally(),
                ));
            }
            i = i + 1;
        }
        proof {
            assert(other.entries().take(i as int) =~= other.entries());
            self.lemma_tallies_fit();
        }
        Ok(())
    }
}

} // verus!
