//! What one commit contributes to the output: its timestamp, its id in
//! hexadecimal, its per-language rows sorted by language name, and its
//! grand total; and which commits of the history are emitted.
use crate::counter::languages_only;
use crate::counts::{add_tally, tally_fits, tally_le, zero_tally, Counts, LangTotals, Tally};
use crate::languages::{is_language_index, language_count, language_display_name, language_name};
use crate::world::{LangId, Oid};
use vstd::prelude::*;
use vstd::utf8::encode_utf8;

verus! {

/// 0000-01-01T00:00:00Z, the earliest time RFC 3339 can express.
pub const MIN_RFC3339_SECONDS: i64 = -62_167_219_200;

/// 9999-12-31T23:59:59Z, the latest time RFC 3339 can express.
pub const MAX_RFC3339_SECONDS: i64 = 253_402_300_799;

/// The timestamp moved into the range RFC 3339 can express.
pub open spec fn clamped(seconds: i64) -> i64 {
    if seconds < MIN_RFC3339_SECONDS {
        MIN_RFC3339_SECONDS
    } else if seconds > MAX_RFC3339_SECONDS {
        MAX_RFC3339_SECONDS
    } else {
        seconds
    }
}

/// Clamps a timestamp into the range RFC 3339 can express: git accepts
/// times beyond year 9999, and a run should not abort on one.
pub fn clamp_timestamp(seconds: i64) -> (r: i64)
    ensures
        r == clamped(seconds),
{
    if seconds < MIN_RFC3339_SECONDS {
        MIN_RFC3339_SECONDS
    } else if seconds > MAX_RFC3339_SECONDS {
        MAX_RFC3339_SECONDS
    } else {
        seconds
    }
}

/// The RFC 3339 text, in UTC, of the time this many seconds after the Unix
/// epoch, as the `time` crate formats it.
pub uninterp spec fn rfc3339_utc(seconds: i64) -> Seq<char>;

/// `OffsetDateTime::from_unix_timestamp`, formatted with
/// `format_description::well_known::Rfc3339`: the time in UTC as RFC 3339
/// text. Both succeed for every time from 0000-01-01T00:00:00Z to
/// 9999-12-31T23:59:59Z: `from_unix_timestamp` accepts the years -9999 to
/// 9999, and RFC 3339 formatting fails only for years outside 0 to 9999 or
/// offsets with seconds, and a UTC time has none.
#[verifier::external_body]
pub(crate) fn format_rfc3339(seconds: i64) -> (r: Result<String, time::Error>)
    ensures
        MIN_RFC3339_SECONDS <= seconds <= MAX_RFC3339_SECONDS ==> r is Ok,
        r matches Ok(text) ==> text@ == rfc3339_utc(seconds),
{
    let time = time::OffsetDateTime::from_unix_timestamp(seconds)?;
    Ok(time.format(&time::format_description::well_known::Rfc3339)?)
}

#[verifier::external_type_specification]
#[verifier::external_body]
pub struct ExTimeError(time::Error);

/// `16^e`.
pub open spec fn pow16(e: nat) -> int
    decreases e,
{
    if e == 0 {
        1
    } else {
        16 * pow16((e - 1) as nat)
    }
}

/// The `i`-th hexadecimal digit of the id, most significant first.
pub open spec fn oid_nibble(oid: Oid, i: int) -> int {
    if i < 32 {
        (oid.0 as int / pow16((31 - i) as nat)) % 16
    } else {
        (oid.1 as int / pow16((39 - i) as nat)) % 16
    }
}

/// The lowercase hexadecimal digit of `n`, below 16.
pub open spec fn hex_digit(n: int) -> char {
    if n < 10 {
        (48 + n) as char
    } else {
        (87 + n) as char
    }
}

/// The id as forty lowercase hexadecimal digits, two per byte, first byte
/// first.
pub open spec fn hex_text(oid: Oid) -> Seq<char> {
    Seq::new(40, |i: int| hex_digit(oid_nibble(oid, i)))
}

/// The `Display` of `gix::ObjectId` (through `ToString::to_string`): the id
/// in lowercase hexadecimal, two digits per byte, first byte first.
#[verifier::external_body]
pub(crate) fn oid_hex(oid: Oid) -> (r: String)
    ensures
        r@ == hex_text(oid),
{
    let mut bytes = [0u8; 20];
    bytes[..16].copy_from_slice(&oid.0.to_be_bytes());
    bytes[16..].copy_from_slice(&oid.1.to_be_bytes());
    gix::ObjectId::from(bytes).to_string()
}

/// The id as forty lowercase hexadecimal digits.
pub fn sha_text(oid: Oid) -> (r: String)
    ensures
        r@ == hex_text(oid),
{
    oid_hex(oid)
}

/// Byte-wise lexicographic order, the order of `str`: `a` sorts before
/// `b`.
pub open spec fn bytes_lt(a: Seq<u8>, b: Seq<u8>) -> bool
    decreases a.len(),
{
    if b.len() == 0 {
        false
    } else if a.len() == 0 {
        true
    } else if a[0] != b[0] {
        a[0] < b[0]
    } else {
        bytes_lt(a.drop_first(), b.drop_first())
    }
}

pub proof fn lemma_bytes_lt_irreflexive(a: Seq<u8>)
    ensures
        !bytes_lt(a, a),
    decreases a.len(),
{
    if a.len() > 0 {
        lemma_bytes_lt_irreflexive(a.drop_first());
    }
}

pub proof fn lemma_bytes_lt_transitive(a: Seq<u8>, b: Seq<u8>, c: Seq<u8>)
    requires
        bytes_lt(a, b),
        bytes_lt(b, c),
    ensures
        bytes_lt(a, c),
    decreases a.len(),
{
    if a.len() > 0 && a[0] == b[0] && b[0] == c[0] {
        lemma_bytes_lt_transitive(a.drop_first(), b.drop_first(), c.drop_first());
    }
}

/// Two different byte strings are ordered one way or the other.
pub proof fn lemma_bytes_lt_total(a: Seq<u8>, b: Seq<u8>)
    requires
        a != b,
    ensures
        bytes_lt(a, b) || bytes_lt(b, a),
    decreases a.len(),
{
    if a.len() == 0 && b.len() == 0 {
        assert(a =~= b);
    } else if a.len() > 0 && b.len() > 0 && a[0] == b[0] {
        if a.drop_first() == b.drop_first() {
            assert(a =~= seq![a[0]] + a.drop_first());
            assert(b =~= seq![b[0]] + b.drop_first());
        }
        lemma_bytes_lt_total(a.drop_first(), b.drop_first());
    }
}

/// Whether `a` sorts before `b`, byte-wise.
pub fn bytes_less(a: &[u8], b: &[u8]) -> (r: bool)
    ensures
        r == bytes_lt(a@, b@),
{
    let mut i: usize = 0;
    proof {
        assert(a@.skip(0) =~= a@);
        assert(b@.skip(0) =~= b@);
    }
    while i < a.len() && i < b.len() && a[i] == b[i]
        invariant
            i <= a@.len(),
            i <= b@.len(),
            bytes_lt(a@, b@) == bytes_lt(a@.skip(i as int), b@.skip(i as int)),
        decreases a@.len() - i,
    {
        proof {
            assert(a@.skip(i as int).drop_first() =~= a@.skip(i + 1));
            assert(b@.skip(i as int).drop_first() =~= b@.skip(i + 1));
        }
        i = i + 1;
    }
    if i == b.len() {
        false
    } else if i == a.len() {
        true
    } else {
        a[i] < b[i]
    }
}

/// One language's row of a commit: the language, its name and its counts.
#[derive(Debug)]
pub struct LanguageRow {
    pub lang: LangId,
    pub name: String,
    pub counts: Counts,
}

/// The key rows are sorted by: the UTF-8 bytes of the name.
pub open spec fn row_key(row: LanguageRow) -> Seq<u8> {
    encode_utf8(row.name@)
}

/// `a` sorts before `b`: by name, and between equal names by language.
pub open spec fn row_before(a: LanguageRow, b: LanguageRow) -> bool {
    bytes_lt(row_key(a), row_key(b)) || (row_key(a) == row_key(b) && a.lang < b.lang)
}

/// Every row sorts before every later row.
pub open spec fn rows_sorted(rows: Seq<LanguageRow>) -> bool {
    forall|i: int, j: int| 0 <= i < j < rows.len() ==> row_before(#[trigger] rows[i], #[trigger] rows[j])
}

/// The row belongs to a language of the totals and holds its name and
/// counts.
pub open spec fn row_of(row: LanguageRow, totals: Map<LangId, Counts>) -> bool {
    &&& totals.contains_key(row.lang)
    &&& row.counts == totals[row.lang]
    &&& row.name@ == language_name(row.lang)
}

/// The rows are the totals' languages, one row each, sorted by name.
pub open spec fn language_rows(rows: Seq<LanguageRow>, totals: LangTotals) -> bool {
    &&& rows.len() == totals.entries().len()
    &&& forall|i: int| 0 <= i < rows.len() ==> row_of(#[trigger] rows[i], totals@)
    &&& forall|lang: LangId| #[trigger]
        totals@.contains_key(lang) ==> exists|i: int| 0 <= i < rows.len() && rows[i].lang == lang
    &&& rows_sorted(rows)
}

proof fn lemma_row_before_transitive(a: LanguageRow, b: LanguageRow, c: LanguageRow)
    requires
        row_before(a, b),
        row_before(b, c),
    ensures
        row_before(a, c),
{
    if bytes_lt(row_key(a), row_key(b)) && bytes_lt(row_key(b), row_key(c)) {
        lemma_bytes_lt_transitive(row_key(a), row_key(b), row_key(c));
    }
}

/// The sum of the counts of the entries, in order.
pub open spec fn counts_sum(s: Seq<(LangId, Counts)>) -> Tally
    decreases s.len(),
{
    if s.len() == 0 {
        zero_tally()
    } else {
        add_tally(counts_sum(s.drop_last()), s.last().1.tally())
    }
}

proof fn lemma_counts_sum_prefix(s: Seq<(LangId, Counts)>, k: int)
    requires
        0 <= k <= s.len(),
    ensures
        tally_le(counts_sum(s.take(k)), counts_sum(s)),
    decreases s.len(),
{
    if k < s.len() {
        assert(s.drop_last().take(k) =~= s.take(k));
        lemma_counts_sum_prefix(s.drop_last(), k);
    } else {
        assert(s.take(k) =~= s);
    }
}

/// The rows of one commit.
#[derive(Debug)]
pub struct CommitRows {
    /// The committer time, clamped, as RFC 3339 text in UTC.
    pub timestamp: String,
    /// The commit id in hexadecimal.
    pub sha: String,
    /// The committer time lay outside what RFC 3339 can express.
    pub clamped: bool,
    /// With per-language rows requested, a row per language sorted by
    /// name; otherwise none.
    pub languages: Vec<LanguageRow>,
    /// The sum over all languages.
    pub total: Counts,
}

/// Why a commit's rows could not be made.
#[derive(Debug)]
pub enum RowError {
    /// The grand total exceeds `u64::MAX`.
    CountOverflow,
    /// The timestamp could not be formatted.
    Timestamp(time::Error),
}

/// The component-wise sum of all the entries' counts, or `None` where it
/// exceeds `u64::MAX`.
pub fn grand_total(totals: &LangTotals) -> (r: Option<Counts>)
    requires
        totals.wf(),
    ensures
        r is Some <==> tally_fits(counts_sum(totals.entries())),
        r matches Some(c) ==> c.tally() == counts_sum(totals.entries()),
{
    let entries = totals.to_entries();
    let n = entries.len();
    let mut acc = Counts::zero();
    let mut i: usize = 0;
    proof {
        assert(totals.entries().take(0) =~= Seq::<(LangId, Counts)>::empty());
    }
    while i < n
        invariant
            entries@ == totals.entries(),
            n == totals.entries().len(),
            i <= n,
            acc.tally() == counts_sum(totals.entries().take(i as int)),
        decreases n - i,
    {
        let (_, c) = entries[i];
        proof {
            assert(totals.entries().take(i + 1).drop_last() =~= totals.entries().take(i as int));
        }
        match acc.checked_sum(&c) {
            Some(sum) => {
                acc = sum;
            },
            None => {
                proof {
                    lemma_counts_sum_prefix(totals.entries(), i + 1);
                }
                return None;
            },
        }
        i = i + 1;
    }
    proof {
        assert(totals.entries().take(n as int) =~= totals.entries());
    }
    Some(acc)
}

/// Where a row goes among sorted rows whose languages all precede its
/// own: after every row it does not sort before, before the first it does.
proof fn lemma_insertion_point(rows: Seq<LanguageRow>, row: LanguageRow, pos: int)
    requires
        rows_sorted(rows),
        0 <= pos <= rows.len(),
        forall|k: int| 0 <= k < pos ==> !bytes_lt(row_key(row), row_key(#[trigger] rows[k])),
        pos < rows.len() ==> bytes_lt(row_key(row), row_key(rows[pos])),
        forall|k: int| 0 <= k < rows.len() ==> (#[trigger] rows[k]).lang < row.lang,
    ensures
        forall|k: int| 0 <= k < pos ==> row_before(#[trigger] rows[k], row),
        forall|k: int| pos <= k < rows.len() ==> row_before(row, #[trigger] rows[k]),
{
    assert forall|k: int| 0 <= k < pos implies row_before(#[trigger] rows[k], row) by {
        if row_key(row) != row_key(rows[k]) {
            lemma_bytes_lt_total(row_key(row), row_key(rows[k]));
        }
    }
    assert forall|k: int| pos <= k < rows.len() implies row_before(row, #[trigger] rows[k]) by {
        assert(row_before(row, rows[pos]));
        if k > pos {
            assert(row_before(rows[pos], rows[k]));
            lemma_row_before_transitive(row, rows[pos], rows[k]);
        }
    }
}

/// Inserting a row where it belongs keeps rows sorted.
proof fn lemma_insert_sorted(rows: Seq<LanguageRow>, row: LanguageRow, pos: int)
    requires
        rows_sorted(rows),
        0 <= pos <= rows.len(),
        forall|k: int| 0 <= k < pos ==> row_before(#[trigger] rows[k], row),
        forall|k: int| pos <= k < rows.len() ==> row_before(row, #[trigger] rows[k]),
    ensures
        rows_sorted(rows.insert(pos, row)),
{
    let t = rows.insert(pos, row);
    assert forall|a: int, b: int| 0 <= a < b < t.len() implies row_before(
        #[trigger] t[a],
        #[trigger] t[b],
    ) by {
        if a < pos && b < pos {
            assert(row_before(rows[a], rows[b]));
        } else if a < pos && b == pos {
            assert(row_before(rows[a], row));
        } else if a < pos {
            assert(row_before(rows[a], rows[b - 1]));
        } else if a == pos {
            assert(row_before(row, rows[b - 1]));
        } else {
            assert(row_before(rows[a - 1], rows[b - 1]));
        }
    }
}

/// Inserts a row among sorted rows whose languages all precede its own,
/// after every row it does not sort before.
fn insert_row(rows: &mut Vec<LanguageRow>, row: LanguageRow) -> (pos: usize)
    requires
        rows_sorted(old(rows)@),
        forall|k: int| 0 <= k < old(rows)@.len() ==> (#[trigger] old(rows)@[k]).lang < row.lang,
    ensures
        pos <= old(rows)@.len(),
        final(rows)@ == old(rows)@.insert(pos as int, row),
        rows_sorted(final(rows)@),
{
    let mut pos: usize = 0;
    while pos < rows.len() && !bytes_less(
        row.name.as_str().as_bytes(),
        rows[pos].name.as_str().as_bytes(),
    )
        invariant
            pos <= rows@.len(),
            forall|k: int| 0 <= k < pos ==> !bytes_lt(row_key(row), row_key(#[trigger] rows@[k])),
        decreases rows@.len() - pos,
    {
        pos = pos + 1;
    }
    proof {
        lemma_insertion_point(rows@, row, pos as int);
        lemma_insert_sorted(rows@, row, pos as int);
    }
    rows.insert(pos, row);
    pos
}

/// The rows are the first `i` entries' languages, one row each.
#[verifier::opaque]
pub open spec fn rows_cover(rows: Seq<LanguageRow>, totals: LangTotals, i: int) -> bool {
    &&& rows.len() == i
    &&& forall|k: int|
        0 <= k < rows.len() ==> row_of(#[trigger] rows[k], totals@) && exists|m: int|
            0 <= m < i && totals.entries()[m].0 == rows[k].lang
    &&& forall|m: int|
        0 <= m < i ==> exists|k: int|
            0 <= k < rows.len() && rows[k].lang == #[trigger] totals.entries()[m].0
}

/// The languages of rows covering the first `i` entries all precede the
/// language of entry `i`.
proof fn lemma_rows_below(rows: Seq<LanguageRow>, totals: LangTotals, i: int)
    requires
        totals.wf(),
        0 <= i < totals.entries().len(),
        rows_cover(rows, totals, i),
    ensures
        forall|k: int| 0 <= k < rows.len() ==> (#[trigger] rows[k]).lang < totals.entries()[i].0,
{
    reveal(rows_cover);
    totals.lemma_entries();
    assert forall|k: int| 0 <= k < rows.len() implies (#[trigger] rows[k]).lang
        < totals.entries()[i].0 by {
        let m = choose|m: int| 0 <= m < i && totals.entries()[m].0 == rows[k].lang;
        assert(totals.entries()[m].0 < totals.entries()[i].0);
    }
}

/// Inserting the row of entry `i` anywhere extends the cover by one.
#[verifier::spinoff_prover]
#[verifier::rlimit(40)]
proof fn lemma_rows_step(rows: Seq<LanguageRow>, pos: int, row: LanguageRow, totals: LangTotals, i: int)
    requires
        totals.wf(),
        0 <= i < totals.entries().len(),
        0 <= pos <= rows.len(),
        row.lang == totals.entries()[i].0,
        row_of(row, totals@),
        rows_cover(rows, totals, i),
    ensures
        rows_cover(rows.insert(pos, row), totals, i + 1),
{
    reveal(rows_cover);
    let t = rows.insert(pos, row);
    assert forall|k: int| 0 <= k < t.len() implies row_of(#[trigger] t[k], totals@) && exists|m: int|
        0 <= m < i + 1 && totals.entries()[m].0 == t[k].lang by {
        if k < pos {
            assert(t[k] == rows[k]);
        } else if k == pos {
            assert(totals.entries()[i].0 == t[k].lang);
        } else {
            assert(t[k] == rows[k - 1]);
        }
    }
    assert forall|m: int| 0 <= m < i + 1 implies exists|k: int|
        0 <= k < t.len() && t[k].lang == #[trigger] totals.entries()[m].0 by {
        if m == i {
            assert(t[pos].lang == totals.entries()[m].0);
        } else {
            let k = choose|k: int| 0 <= k < rows.len() && rows[k].lang == totals.entries()[m].0;
            if k < pos {
                assert(t[k].lang == totals.entries()[m].0);
            } else {
                assert(t[k + 1].lang == totals.entries()[m].0);
            }
        }
    }
}

/// Rows covering all entries list every language of the totals.
proof fn lemma_rows_complete(rows: Seq<LanguageRow>, totals: LangTotals)
    requires
        totals.wf(),
        rows_sorted(rows),
        rows_cover(rows, totals, totals.entries().len() as int),
    ensures
        language_rows(rows, totals),
{
    reveal(rows_cover);
    totals.lemma_entries();
    assert forall|lang: LangId| #[trigger] totals@.contains_key(lang) implies exists|k: int|
        0 <= k < rows.len() && rows[k].lang == lang by {
        let m = choose|m: int| 0 <= m < totals.entries().len() && totals.entries()[m].0 == lang;
        assert(totals.entries()[m].0 == lang);
    }
}

/// The totals' languages as rows, sorted by name as `str` orders names,
/// and between equal names by language.
pub fn sorted_language_rows(totals: &LangTotals) -> (r: Vec<LanguageRow>)
    requires
        totals.wf(),
        languages_only(totals.tallies()),
    ensures
        language_rows(r@, *totals),
{
    let entries = totals.to_entries();
    let n = entries.len();
    let mut rows: Vec<LanguageRow> = Vec::new();
    let mut i: usize = 0;
    proof {
        reveal(rows_cover);
    }
    while i < n
        invariant
            entries@ == totals.entries(),
            n == totals.entries().len(),
            i <= n,
            totals.wf(),
            languages_only(totals.tallies()),
            rows_cover(rows@, *totals, i as int),
            rows_sorted(rows@),
        decreases n - i,
    {
        let (lang, counts) = entries[i];
        proof {
            totals.lemma_entries();
            assert(totals@.contains_key(lang));
            assert(totals.tallies().contains_key(lang));
        }
        let name = language_display_name(lang);
        let row = LanguageRow { lang, name, counts };
        let ghost old_rows = rows@;
        proof {
            lemma_rows_below(old_rows, *totals, i as int);
        }
        let pos = insert_row(&mut rows, row);
        proof {
            lemma_rows_step(old_rows, pos as int, row, *totals, i as int);
        }
        i = i + 1;
    }
    proof {
        lemma_rows_complete(rows@, *totals);
    }
    rows
}

/// `r` is what `commit_rows` returns for these arguments: an overflow
/// error exactly where the grand total exceeds `u64::MAX`, and otherwise
/// success, with
/// the clamped time as RFC 3339 text, the id in hexadecimal, the sorted
/// language rows where requested, and the grand total.
pub open spec fn rows_of_commit(
    committer_seconds: i64,
    sha: Oid,
    totals: LangTotals,
    per_language: bool,
    r: Result<CommitRows, RowError>,
) -> bool {
    &&& (r matches Err(e) && e is CountOverflow) <==> !tally_fits(counts_sum(totals.entries()))
    &&& r is Ok <==> tally_fits(counts_sum(totals.entries()))
    &&& r matches Ok(rows) ==> {
        &&& rows.clamped == (clamped(committer_seconds) != committer_seconds)
        &&& rows.timestamp@ == rfc3339_utc(clamped(committer_seconds))
        &&& rows.sha@ == hex_text(sha)
        &&& rows.total.tally() == counts_sum(totals.entries())
        &&& if per_language {
            language_rows(rows.languages@, totals)
        } else {
            rows.languages@.len() == 0
        }
    }
}

/// The rows one commit contributes: its clamped committer time as RFC 3339
/// text, its id in hexadecimal, its languages' rows sorted by name where
/// per-language rows are requested, and its grand total.
pub fn commit_rows(committer_seconds: i64, sha: Oid, totals: &LangTotals, per_language: bool) -> (r:
    Result<CommitRows, RowError>)
    requires
        totals.wf(),
        languages_only(totals.tallies()),
    ensures
        rows_of_commit(committer_seconds, sha, *totals, per_language, r),
{
    let total = match grand_total(totals) {
        Some(total) => total,
        None => return Err(RowError::CountOverflow),
    };
    let seconds = clamp_timestamp(committer_seconds);
    let timestamp = match format_rfc3339(seconds) {
        Ok(text) => text,
        Err(e) => return Err(RowError::Timestamp(e)),
    };
    let languages = if per_language {
        sorted_language_rows(totals)
    } else {
        Vec::new()
    };
    Ok(CommitRows {
        timestamp,
        sha: oid_hex(sha),
        clamped: seconds != committer_seconds,
        languages,
        total,
    })
}

/// Whether every language of the totals is a tokei language.
pub fn languages_known(totals: &LangTotals) -> (r: bool)
    requires
        totals.wf(),
    ensures
        r == languages_only(totals.tallies()),
{
    proof {
        totals.lemma_entries();
    }
    let count = language_count();
    let entries = totals.to_entries();
    let n = entries.len();
    let mut i: usize = 0;
    while i < n
        invariant
            entries@ == totals.entries(),
            n == totals.entries().len(),
            i <= n,
            totals.wf(),
            forall|lang: u32| #[trigger] is_language_index(lang) <==> (lang as int) < count,
            forall|m: int| 0 <= m < i ==> is_language_index(#[trigger] totals.entries()[m].0),
        decreases n - i,
    {
        let (lang, _) = entries[i];
        if (lang as usize) >= count {
            proof {
                totals.lemma_entries();
                assert(totals.tallies().contains_key(lang));
            }
            return false;
        }
        i = i + 1;
    }
    proof {
        totals.lemma_entries();
        assert forall|lang: u32| #[trigger] totals.tallies().contains_key(lang) implies is_language_index(
            lang,
        ) by {
            assert(totals@.contains_key(lang));
            let m = choose|m: int| 0 <= m < totals.entries().len() && totals.entries()[m].0 == lang;
            assert(is_language_index(totals.entries()[m].0));
        }
    }
    true
}

/// `commit_rows` for totals of any keys: `None` where some language of the
/// totals is not a tokei language, and otherwise the rows.
pub fn commit_rows_of_known(
    committer_seconds: i64,
    sha: Oid,
    totals: &LangTotals,
    per_language: bool,
) -> (r: Option<Result<CommitRows, RowError>>)
    requires
        totals.wf(),
    ensures
        r is None <==> !languages_only(totals.tallies()),
        r matches Some(rows) ==> rows_of_commit(committer_seconds, sha, *totals, per_language, rows),
{
    if languages_known(totals) {
        Some(commit_rows(committer_seconds, sha, totals, per_language))
    } else {
        None
    }
}

/// Commit `i` of `n`, oldest first, is emitted: every `every`-th commit
/// from the oldest, and the tip.
pub open spec fn is_sampled(i: int, n: int, every: int) -> bool {
    i % every == 0 || i == n - 1
}

/// The positions, oldest first, of the commits emitted from a history of
/// `n` commits when sampling every `every`-th one; the tip is always
/// emitted.
pub fn sampled_indices(n: usize, every: u64) -> (r: Vec<usize>)
    requires
        every >= 1,
    ensures
        forall|k: int| 0 <= k < r@.len() ==> #[trigger] r@[k] < n && is_sampled(r@[k] as int, n as int, every as int),
        forall|i: int| 0 <= i < n && is_sampled(i, n as int, every as int) ==> exists|k: int|
            0 <= k < r@.len() && r@[k] == i,
        forall|a: int, b: int| 0 <= a < b < r@.len() ==> r@[a] < r@[b],
        n >= 1 ==> r@.len() >= 1 && r@[0] == 0 && r@.last() == n - 1,
{
    let mut r: Vec<usize> = Vec::new();
    let mut i: usize = 0;
    while i < n
        invariant
            i <= n,
            every >= 1,
            forall|k: int| 0 <= k < r@.len() ==> #[trigger] r@[k] < i && is_sampled(r@[k] as int, n as int, every as int),
            forall|j: int| 0 <= j < i && is_sampled(j, n as int, every as int) ==> exists|k: int|
                0 <= k < r@.len() && r@[k] == j,
            forall|a: int, b: int| 0 <= a < b < r@.len() ==> r@[a] < r@[b],
        decreases n - i,
    {
        let position = i as u64;
        let ghost before = r@;
        if position % every == 0 || i == n - 1 {
            r.push(i);
        }
        proof {
            assert forall|j: int| 0 <= j < i + 1 && is_sampled(j, n as int, every as int) implies exists|
                k: int,
            | 0 <= k < r@.len() && r@[k] == j by {
                if j < i {
                    let k = choose|k: int| 0 <= k < before.len() && before[k] == j;
                    assert(r@[k] == j);
                } else {
                    assert(r@[r@.len() - 1] == i);
                }
            }
        }
        i = i + 1;
    }
    proof {
        if n >= 1 {
            assert(is_sampled(n - 1, n as int, every as int));
            let k = choose|k: int| 0 <= k < r@.len() && r@[k] == n - 1;
            if k < r@.len() - 1 {
                assert(r@[k] < r@[r@.len() - 1]);
            }
            assert(is_sampled(0, n as int, every as int));
            let k0 = choose|k: int| 0 <= k < r@.len() && r@[k] == 0;
            if k0 > 0 {
                assert(r@[0] < r@[k0]);
            }
        }
    }
    r
}

/// The tip is always emitted, and so is every `every`-th commit from the
/// oldest, whatever the history's length.
pub proof fn lemma_tip_always_sampled(n: int, every: int, i: int)
    requires
        n >= 1,
        every >= 1,
    ensures
        is_sampled(n - 1, n, every),
        0 <= i < n && i % every == 0 ==> is_sampled(i, n, every),
        0 <= i < n - 1 && i % every != 0 ==> !is_sampled(i, n, every),
{
}

/// The gix object cache size for a budget in MiB: the budget in bytes,
/// or `usize::MAX` where that does not fit.
pub fn object_cache_bytes(mib: usize) -> (r: usize)
    ensures
        r == (if mib * 1048576 > usize::MAX {
            usize::MAX as int
        } else {
            mib * 1048576
        }),
{
    match mib.checked_mul(1048576) {
        Some(bytes) => bytes,
        None => usize::MAX,
    }
}

/// The sum of the rows' counts, in order.
pub open spec fn rows_sum(rows: Seq<LanguageRow>) -> Tally
    decreases rows.len(),
{
    if rows.len() == 0 {
        zero_tally()
    } else {
        add_tally(rows_sum(rows.drop_last()), rows.last().counts.tally())
    }
}

/// Taking one row out of the sum takes its counts out.
proof fn lemma_rows_sum_remove(rows: Seq<LanguageRow>, k: int)
    requires
        0 <= k < rows.len(),
    ensures
        rows_sum(rows) == add_tally(rows_sum(rows.remove(k)), rows[k].counts.tally()),
    decreases rows.len(),
{
    if k == rows.len() - 1 {
        assert(rows.remove(k) =~= rows.drop_last());
    } else {
        let d = rows.drop_last();
        lemma_rows_sum_remove(d, k);
        assert(rows.remove(k).drop_last() =~= d.remove(k));
        assert(rows.remove(k).last() == rows.last());
        assert(d[k] == rows[k]);
    }
}

/// Rows that hold the entries' languages and counts, one row per entry,
/// sum to the entries' sum, whatever their order.
#[verifier::spinoff_prover]
#[verifier::rlimit(60)]
proof fn lemma_sum_matched(rows: Seq<LanguageRow>, s: Seq<(LangId, Counts)>)
    requires
        rows.len() == s.len(),
        forall|i: int, j: int| 0 <= i < j < s.len() ==> (#[trigger] s[i]).0 != (#[trigger] s[j]).0,
        forall|i: int, j: int|
            0 <= i < j < rows.len() ==> (#[trigger] rows[i]).lang != (#[trigger] rows[j]).lang,
        forall|i: int|
            0 <= i < rows.len() ==> exists|j: int|
                0 <= j < s.len() && s[j] == (#[trigger] rows[i].lang, rows[i].counts),
        forall|j: int| 0 <= j < s.len() ==> exists|i: int| 0 <= i < rows.len() && rows[i].lang == #[trigger] s[j].0,
    ensures
        rows_sum(rows) == counts_sum(s),
    decreases s.len(),
{
    if s.len() > 0 {
        let n = s.len() - 1;
        let last = s[n];
        assert(last.0 == s[n].0);
        let k = choose|i: int| 0 <= i < rows.len() && rows[i].lang == s[n].0;
        let jk = choose|j: int| 0 <= j < s.len() && s[j] == (rows[k].lang, rows[k].counts);
        if jk != n {
            assert(s[jk].0 != s[n].0);
        }
        assert(rows[k].counts == last.1);
        let r2 = rows.remove(k);
        let s2 = s.drop_last();
        lemma_rows_sum_remove(rows, k);
        assert forall|i: int, j: int| 0 <= i < j < r2.len() implies (#[trigger] r2[i]).lang != (
        #[trigger] r2[j]).lang by {
            let a = if i < k { i } else { i + 1 };
            let b = if j < k { j } else { j + 1 };
            assert(r2[i] == rows[a] && r2[j] == rows[b]);
        }
        assert forall|i: int, j: int| 0 <= i < j < s2.len() implies (#[trigger] s2[i]).0 != (
        #[trigger] s2[j]).0 by {
            assert(s2[i] == s[i] && s2[j] == s[j]);
        }
        assert forall|i: int| 0 <= i < r2.len() implies exists|j: int|
            0 <= j < s2.len() && s2[j] == (#[trigger] r2[i].lang, r2[i].counts) by {
            let a = if i < k { i } else { i + 1 };
            assert(r2[i] == rows[a]);
            assert(rows[a].lang != rows[k].lang) by {
                if a < k {
                    assert(rows[a].lang != rows[k].lang);
                } else {
                    assert(rows[k].lang != rows[a].lang);
                }
            }
            let j = choose|j: int| 0 <= j < s.len() && s[j] == (rows[a].lang, rows[a].counts);
            assert(j != n);
            assert(s2[j] == s[j]);
        }
        assert forall|j: int| 0 <= j < s2.len() implies exists|i: int|
            0 <= i < r2.len() && r2[i].lang == #[trigger] s2[j].0 by {
            assert(s2[j] == s[j]);
            assert(s[j].0 != s[n].0);
            let i = choose|i: int| 0 <= i < rows.len() && rows[i].lang == s[j].0;
            assert(i != k);
            if i < k {
                assert(r2[i] == rows[i]);
            } else {
                assert(r2[i - 1] == rows[i]);
            }
        }
        lemma_sum_matched(r2, s2);
    }
}

/// The per-language rows add up to the TOTAL row: the grand total is the
/// sum of the counts of the language rows that precede it.
pub proof fn lemma_rows_add_up(
    committer_seconds: i64,
    sha: Oid,
    totals: LangTotals,
    r: Result<CommitRows, RowError>,
)
    requires
        totals.wf(),
        rows_of_commit(committer_seconds, sha, totals, true, r),
        r is Ok,
    ensures
        rows_sum(r->Ok_0.languages@) == r->Ok_0.total.tally(),
{
    let rows = r->Ok_0.languages@;
    let s = totals.entries();
    totals.lemma_entries();
    assert forall|i: int, j: int| 0 <= i < j < s.len() implies (#[trigger] s[i]).0 != (#[trigger] s[j]).0 by {}
    assert forall|i: int, j: int|
        0 <= i < j < rows.len() implies (#[trigger] rows[i]).lang != (#[trigger] rows[j]).lang by {
        assert(row_before(rows[i], rows[j]));
        if rows[i].lang == rows[j].lang {
            assert(row_of(rows[i], totals@));
            assert(row_of(rows[j], totals@));
            lemma_bytes_lt_irreflexive(row_key(rows[i]));
        }
    }
    assert forall|i: int| 0 <= i < rows.len() implies exists|j: int|
        0 <= j < s.len() && s[j] == (#[trigger] rows[i].lang, rows[i].counts) by {
        assert(row_of(rows[i], totals@));
        let j = choose|j: int| 0 <= j < s.len() && s[j].0 == rows[i].lang;
        assert(s[j].1 == totals@[s[j].0]);
    }
    assert forall|j: int| 0 <= j < s.len() implies exists|i: int|
        0 <= i < rows.len() && rows[i].lang == #[trigger] s[j].0 by {
        assert(totals@.contains_key(s[j].0));
    }
    lemma_sum_matched(rows, s);
}

} // verus!
