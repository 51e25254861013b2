//! Decisions made on a blob's bytes and on a tree entry's name: the size
//! guard, the binary sniff, the first line a shebang is read from, and
//! whether a name has an extension.
use crate::excludes::{path_components, path_components_of, DOT};
use vstd::prelude::*;

verus! {

/// Blobs larger than this many bytes are skipped without being read.
pub const HUGE_BLOB_LIMIT: u64 = 10 * 1024 * 1024;

/// A NUL byte among this many leading bytes marks a blob as binary.
pub const BINARY_SNIFF_LEN: usize = 8 * 1024;

/// A first line is cut to this many bytes before its shebang is examined.
pub const SHEBANG_LINE_LIMIT: usize = 4096;

/// The byte of a line feed.
pub const NEWLINE: u8 = 0x0a;

/// The blob's declared size exceeds the limit.
pub open spec fn is_huge(size: u64) -> bool {
    size > HUGE_BLOB_LIMIT
}

/// A NUL byte occurs among the first `BINARY_SNIFF_LEN` bytes.
pub open spec fn is_binary(data: Seq<u8>) -> bool {
    exists|i: int| 0 <= i < data.len() && i < BINARY_SNIFF_LEN && data[i] == 0
}

/// Whether `data` is binary: a NUL among its first `BINARY_SNIFF_LEN` bytes.
pub fn sniff_binary(data: &[u8]) -> (r: bool)
    ensures
        r == is_binary(data@),
        r <==> exists|i: int| 0 <= i < data@.len() && i < 8192 && data@[i] == 0,
{
    let n = if data.len() < BINARY_SNIFF_LEN {
        data.len()
    } else {
        BINARY_SNIFF_LEN
    };
    let mut i: usize = 0;
    while i < n
        invariant
            n <= data@.len(),
            n <= BINARY_SNIFF_LEN,
            n == data@.len() || n == BINARY_SNIFF_LEN,
            i <= n,
            forall|k: int| 0 <= k < i ==> data@[k] != 0,
        decreases n - i,
    {
        if data[i] == 0 {
            return true;
        }
        i = i + 1;
    }
    false
}

/// The index of the first line feed, or the length where there is none.
pub open spec fn line_end(data: Seq<u8>) -> int
    decreases data.len(),
{
    if data.len() == 0 {
        0
    } else if data[0] == NEWLINE {
        0
    } else {
        1 + line_end(data.drop_first())
    }
}

/// The bytes before the first line feed, cut to `SHEBANG_LINE_LIMIT` bytes.
pub open spec fn first_line(data: Seq<u8>) -> Seq<u8> {
    let end = line_end(data);
    data.take(if end < SHEBANG_LINE_LIMIT { end } else { SHEBANG_LINE_LIMIT as int })
}

proof fn lemma_line_end(data: Seq<u8>)
    ensures
        0 <= line_end(data) <= data.len(),
        forall|k: int| 0 <= k < line_end(data) ==> data[k] != NEWLINE,
        line_end(data) < data.len() ==> data[line_end(data)] == NEWLINE,
    decreases data.len(),
{
    if data.len() > 0 && data[0] != NEWLINE {
        lemma_line_end(data.drop_first());
        assert forall|k: int| 0 <= k < line_end(data) implies data[k] != NEWLINE by {
            if k > 0 {
                assert(data.drop_first()[k - 1] == data[k]);
            }
        }
    }
}

proof fn lemma_line_end_at(data: Seq<u8>, e: int)
    requires
        0 <= e <= data.len(),
        forall|k: int| 0 <= k < e ==> data[k] != NEWLINE,
        e < data.len() ==> data[e] == NEWLINE,
    ensures
        line_end(data) == e,
    decreases data.len(),
{
    if data.len() > 0 && e > 0 {
        let d = data.drop_first();
        assert forall|k: int| 0 <= k < e - 1 implies d[k] != NEWLINE by {
            assert(d[k] == data[k + 1]);
        }
        if e - 1 < d.len() {
            assert(d[e - 1] == data[e]);
        }
        lemma_line_end_at(d, e - 1);
    }
}

/// The first line of `data` (the bytes before the first line feed), cut to
/// `SHEBANG_LINE_LIMIT` bytes.
pub fn first_line_of(data: &[u8]) -> (r: Vec<u8>)
    ensures
        r@ == first_line(data@),
{
    let mut line: Vec<u8> = Vec::new();
    let mut i: usize = 0;
    while i < data.len() && data[i] != NEWLINE && i < SHEBANG_LINE_LIMIT
        invariant
            i <= data@.len(),
            i <= SHEBANG_LINE_LIMIT,
            forall|k: int| 0 <= k < i ==> data@[k] != NEWLINE,
            line@ == data@.take(i as int),
        decreases data@.len() - i,
    {
        line.push(data[i]);
        i = i + 1;
        proof {
            assert(line@ =~= data@.take(i as int));
        }
    }
    proof {
        lemma_line_end(data@);
        let e = line_end(data@);
        if i < data@.len() && data@[i as int] == NEWLINE {
            lemma_line_end_at(data@, i as int);
        } else if i == data@.len() {
            lemma_line_end_at(data@, i as int);
        } else {
            assert(i == SHEBANG_LINE_LIMIT);
            assert(e >= i) by {
                if e < i {
                    assert(data@[e] == NEWLINE);
                }
            }
        }
    }
    line
}

/// The ASCII whitespace bytes: space, tab, line feed, form feed, carriage
/// return.
pub open spec fn is_ascii_space(b: u8) -> bool {
    b == 0x20 || b == 0x09 || b == 0x0a || b == 0x0c || b == 0x0d
}

/// The number of ASCII whitespace bytes `line` starts with.
pub open spec fn leading_space(line: Seq<u8>) -> int
    decreases line.len(),
{
    if line.len() > 0 && is_ascii_space(line[0]) {
        1 + leading_space(line.drop_first())
    } else {
        0
    }
}

/// After its leading ASCII whitespace, `line` starts with `#!`.
pub open spec fn starts_with_shebang(line: Seq<u8>) -> bool {
    let k = leading_space(line);
    line.len() - k > 1 && line[k] == 0x23 && line[k + 1] == 0x21
}

proof fn lemma_leading_space_at(line: Seq<u8>, k: int)
    requires
        0 <= k <= line.len(),
        forall|j: int| 0 <= j < k ==> is_ascii_space(line[j]),
        k < line.len() ==> !is_ascii_space(line[k]),
    ensures
        leading_space(line) == k,
    decreases line.len(),
{
    if k > 0 {
        let d = line.drop_first();
        assert forall|j: int| 0 <= j < k - 1 implies is_ascii_space(d[j]) by {
            assert(d[j] == line[j + 1]);
        }
        if k - 1 < d.len() {
            assert(d[k - 1] == line[k]);
        }
        lemma_leading_space_at(d, k - 1);
    }
}

/// Whether `line`, after its leading ASCII whitespace, starts with `#!`.
pub fn has_shebang(line: &[u8]) -> (r: bool)
    ensures
        r == starts_with_shebang(line@),
{
    let mut k: usize = 0;
    while k < line.len() && (line[k] == 0x20 || line[k] == 0x09 || line[k] == 0x0a || line[k]
        == 0x0c || line[k] == 0x0d)
        invariant
            k <= line@.len(),
            forall|j: int| 0 <= j < k ==> is_ascii_space(line@[j]),
        decreases line@.len() - k,
    {
        k = k + 1;
    }
    proof {
        lemma_leading_space_at(line@, k as int);
    }
    line.len() - k > 1 && line[k] == 0x23 && line[k + 1] == 0x21
}

/// The name, joined to a directory, has an extension in the sense of
/// `Path::extension`: its last path component is not `..` and holds a `.`
/// after its first byte.
pub open spec fn name_has_extension(name: Seq<u8>) -> bool {
    let cs = path_components(name);
    cs.len() > 0 && cs.last() != seq![DOT, DOT] && exists|i: int|
        1 <= i < cs.last().len() && cs.last()[i] == DOT
}

/// Whether the tree entry name has an extension.
pub fn has_extension(name: &[u8]) -> (r: bool)
    ensures
        r == name_has_extension(name@),
{
    let cs = path_components_of(name);
    if cs.len() == 0 {
        return false;
    }
    let last = &cs[cs.len() - 1];
    proof {
        assert(cs.deep_view().len() == cs@.len());
        assert(last@ == cs.deep_view().last()) by {
            assert(last@ =~= last.deep_view());
        }
    }
    if last.len() == 2 && last[0] == DOT && last[1] == DOT {
        proof {
            assert(last@ =~= seq![DOT, DOT]);
        }
        return false;
    }
    proof {
        if last@ == seq![DOT, DOT] {
            assert(last@[0] == DOT && last@[1] == DOT);
        }
    }
    let mut i: usize = 1;
    while i < last.len()
        invariant
            1 <= i,
            path_components(name@).len() > 0,
            last@ == path_components(name@).last(),
            last@ != seq![DOT, DOT],
            forall|k: int| 1 <= k < i && k < last@.len() ==> last@[k] != DOT,
        decreases last@.len() - i,
    {
        if last[i] == DOT {
            return true;
        }
        i = i + 1;
    }
    false
}

/// Bytes with no NUL are text, whatever else they hold (UTF-8 text with
/// bytes of 0x80 and above among them); a NUL among the first 8192 bytes
/// makes them binary; and nothing after the first 8192 bytes matters.
pub proof fn lemma_binary_is_an_early_nul(data: Seq<u8>)
    ensures
        (forall|k: int| 0 <= k < data.len() ==> data[k] != 0) ==> !is_binary(data),
        forall|i: int| 0 <= i < data.len() && i < 8192 && data[i] == 0 ==> is_binary(data),
        is_binary(data) == is_binary(data.take(if data.len() < 8192 { data.len() as int } else { 8192 })),
{
    let t = data.take(if data.len() < 8192 { data.len() as int } else { 8192 });
    if is_binary(data) {
        let i = choose|i: int| 0 <= i < data.len() && i < BINARY_SNIFF_LEN && data[i] == 0;
        assert(t[i] == data[i]);
    }
    if is_binary(t) {
        let i = choose|i: int| 0 <= i < t.len() && i < BINARY_SNIFF_LEN && t[i] == 0;
        assert(t[i] == data[i]);
    }
}

} // verus!
