//! Exclude patterns: repo-root-anchored, case-sensitive, whole-component
//! path prefixes, and the state a tree walk carries to apply them.
//!
//! A walk holds, at each tree, the `(pattern, offset)` pairs of the patterns
//! whose first `offset` components equal the tree's path. An entry whose
//! name completes a pattern is pruned; the others pass on the pairs whose
//! next component is the entry's name.
use vstd::prelude::*;
use vstd::utf8::encode_utf8;

verus! {

/// The byte of `/`.
pub const SLASH: u8 = 0x2f;

/// The byte of `.`.
pub const DOT: u8 = 0x2e;

/// `s` split at every `/`, as `str::split('/')` splits it: `n` slashes give
/// `n + 1` components, some of them possibly empty.
pub open spec fn split_slash(s: Seq<u8>) -> Seq<Seq<u8>>
    decreases s.len(),
{
    if s.len() == 0 {
        seq![Seq::<u8>::empty()]
    } else {
        let p = split_slash(s.drop_last());
        if s.last() == SLASH {
            p.push(Seq::<u8>::empty())
        } else {
            p.update(p.len() - 1, p.last().push(s.last()))
        }
    }
}

/// A component that names something: neither empty nor `.`.
pub open spec fn is_named_component(c: Seq<u8>) -> bool {
    c.len() > 0 && c != seq![DOT]
}

/// The components of `cs` that name something, in order.
pub open spec fn named_components(cs: Seq<Seq<u8>>) -> Seq<Seq<u8>>
    decreases cs.len(),
{
    if cs.len() == 0 {
        Seq::<Seq<u8>>::empty()
    } else {
        let p = named_components(cs.drop_last());
        if is_named_component(cs.last()) {
            p.push(cs.last())
        } else {
            p
        }
    }
}

/// The path components of `s`: its `/`-separated parts, without empty
/// parts and `.` parts.
pub open spec fn path_components(s: Seq<u8>) -> Seq<Seq<u8>> {
    named_components(split_slash(s))
}

/// The patterns, as component lists, of the given exclude texts: each text
/// split into its path components, and the texts with no component dropped.
pub open spec fn exclude_patterns(texts: Seq<Seq<u8>>) -> Seq<Seq<Seq<u8>>>
    decreases texts.len(),
{
    if texts.len() == 0 {
        Seq::<Seq<Seq<u8>>>::empty()
    } else {
        let p = exclude_patterns(texts.drop_last());
        let c = path_components(texts.last());
        if c.len() > 0 {
            p.push(c)
        } else {
            p
        }
    }
}

/// The UTF-8 bytes of each text.
pub open spec fn text_bytes(texts: Seq<String>) -> Seq<Seq<u8>> {
    texts.map_values(|t: String| encode_utf8(t@))
}

proof fn lemma_split_slash_nonempty(s: Seq<u8>)
    ensures
        split_slash(s).len() >= 1,
    decreases s.len(),
{
    if s.len() > 0 {
        lemma_split_slash_nonempty(s.drop_last());
    }
}

/// The path components of `bytes`.
pub fn path_components_of(bytes: &[u8]) -> (r: Vec<Vec<u8>>)
    ensures
        r.deep_view() == path_components(bytes@),
{
    let mut done: Vec<Vec<u8>> = Vec::new();
    let mut cur: Vec<u8> = Vec::new();
    let mut i: usize = 0;
    // `done` holds the named components of all parts before the current one
    while i < bytes.len()
        invariant
            i <= bytes@.len(),
            split_slash(bytes@.take(i as int)).len() >= 1,
            split_slash(bytes@.take(i as int)).last() == cur@,
            done.deep_view() == named_components(split_slash(bytes@.take(i as int)).drop_last()),
        decreases bytes@.len() - i,
    {
        let b = bytes[i];
        let ghost prev = bytes@.take(i as int);
        let ghost next = bytes@.take(i + 1);
        proof {
            assert(next.drop_last() =~= prev);
            lemma_split_slash_nonempty(prev);
        }
        if b == SLASH {
            proof {
                let p = split_slash(prev);
                assert(split_slash(next) == p.push(Seq::<u8>::empty()));
                assert(split_slash(next).drop_last() =~= p);
                assert(p.drop_last().push(p.last()) =~= p);
            }
            let named = cur.len() > 0 && !(cur.len() == 1 && cur[0] == DOT);
            proof {
                assert(named == is_named_component(cur@)) by {
                    if cur@.len() == 1 && cur@ == seq![DOT] {
                        assert(cur@[0] == DOT);
                    }
                    if cur@.len() == 1 && cur@[0] == DOT {
                        assert(cur@ =~= seq![DOT]);
                    }
                }
            }
            let ghost old_done = done.deep_view();
            let ghost cur_v = cur@;
            proof {
                assert(cur.deep_view() =~= cur_v);
            }
            if named {
                done.push(cur);
                proof {
                    assert(done.deep_view() =~= old_done.push(cur_v));
                }
            }
            cur = Vec::new();
            proof {
                let p = split_slash(prev);
                assert(p.drop_last().push(p.last()) =~= p);
                assert(named_components(p) == (if is_named_component(p.last()) {
                    named_components(p.drop_last()).push(p.last())
                } else {
                    named_components(p.drop_last())
                }));
                assert(done.deep_view() =~= named_components(p));
            }
        } else {
            cur.push(b);
            proof {
                let p = split_slash(prev);
                assert(split_slash(next) == p.update(p.len() - 1, p.last().push(b)));
                assert(split_slash(next).drop_last() =~= p.drop_last());
            }
        }
        i = i + 1;
    }
    proof {
        assert(bytes@.take(i as int) =~= bytes@);
        let p = split_slash(bytes@);
        assert(p.drop_last().push(p.last()) =~= p);
    }
    let named = cur.len() > 0 && !(cur.len() == 1 && cur[0] == DOT);
    proof {
        assert(named == is_named_component(cur@)) by {
            if cur@.len() == 1 && cur@[0] == DOT {
                assert(cur@ =~= seq![DOT]);
            }
        }
    }
    let ghost old_done = done.deep_view();
    let ghost cur_v = cur@;
    proof {
        assert(cur.deep_view() =~= cur_v);
    }
    if named {
        done.push(cur);
        proof {
            assert(done.deep_view() =~= old_done.push(cur_v));
        }
    }
    proof {
        let p = split_slash(bytes@);
        assert(named_components(p) == (if is_named_component(p.last()) {
            named_components(p.drop_last()).push(p.last())
        } else {
            named_components(p.drop_last())
        }));
        assert(done.deep_view() =~= named_components(p));
    }
    done
}

/// Parses exclude texts into patterns: each text is split at `/`, its empty
/// and `.` components are dropped, and a text left with no component is
/// dropped.
pub fn parse_excludes(patterns: &[String]) -> (r: Vec<Vec<Vec<u8>>>)
    ensures
        r.deep_view() == exclude_patterns(text_bytes(patterns@)),
{
    let mut out: Vec<Vec<Vec<u8>>> = Vec::new();
    let mut i: usize = 0;
    while i < patterns.len()
        invariant
            i <= patterns@.len(),
            out.deep_view() == exclude_patterns(text_bytes(patterns@.take(i as int))),
        decreases patterns@.len() - i,
    {
        let bytes = patterns[i].as_str().as_bytes();
        let components = path_components_of(bytes);
        proof {
            let t = text_bytes(patterns@.take(i + 1));
            assert(t.drop_last() =~= text_bytes(patterns@.take(i as int)));
            assert(t.last() == encode_utf8(patterns@[i as int]@));
        }
        if components.len() > 0 {
            out.push(components);
        }
        proof {
            let t = text_bytes(patterns@.take(i + 1));
            assert(out.deep_view() =~= exclude_patterns(t));
        }
        i = i + 1;
    }
    proof {
        assert(patterns@.take(i as int) =~= patterns@);
    }
    out
}

/// Every pattern has at least one component.
pub open spec fn patterns_wf(pats: Seq<Seq<Seq<u8>>>) -> bool {
    forall|i: int| 0 <= i < pats.len() ==> #[trigger] pats[i].len() > 0
}

/// Every `(pattern, offset)` pair points at a component of a pattern.
pub open spec fn active_wf(pats: Seq<Seq<Seq<u8>>>, active: Seq<(usize, usize)>) -> bool {
    forall|j: int|
        0 <= j < active.len() ==> (#[trigger] active[j]).0 < pats.len() && active[j].1
            < pats[active[j].0 as int].len()
}

/// The pairs a walk starts from at the root: every pattern at offset 0.
pub open spec fn initial_active(n: nat) -> Seq<(usize, usize)> {
    Seq::new(n, |i: int| (i as usize, 0usize))
}

/// The pair at `j` is completed by `name`.
pub open spec fn completes(pats: Seq<Seq<Seq<u8>>>, a: (usize, usize), name: Seq<u8>) -> bool {
    &&& pats[a.0 as int][a.1 as int] == name
    &&& a.1 + 1 == pats[a.0 as int].len()
}

/// An entry named `name` is excluded: some active pattern ends with it.
pub open spec fn pruned(pats: Seq<Seq<Seq<u8>>>, active: Seq<(usize, usize)>, name: Seq<u8>) -> bool {
    exists|j: int| 0 <= j < active.len() && completes(pats, #[trigger] active[j], name)
}

/// The pairs passed on to an entry named `name`: those whose next component
/// is `name`, one component further on, in order.
pub open spec fn advance(pats: Seq<Seq<Seq<u8>>>, active: Seq<(usize, usize)>, name: Seq<u8>) -> Seq<
    (usize, usize),
>
    decreases active.len(),
{
    if active.len() == 0 {
        Seq::<(usize, usize)>::empty()
    } else {
        let p = advance(pats, active.drop_last(), name);
        let a = active.last();
        if pats[a.0 as int][a.1 as int] == name {
            p.push((a.0, (a.1 + 1) as usize))
        } else {
            p
        }
    }
}

proof fn lemma_advance_wf(pats: Seq<Seq<Seq<u8>>>, active: Seq<(usize, usize)>, name: Seq<u8>)
    requires
        active_wf(pats, active),
        !pruned(pats, active, name),
    ensures
        active_wf(pats, advance(pats, active, name)),
    decreases active.len(),
{
    if active.len() > 0 {
        let d = active.drop_last();
        assert(active_wf(pats, d)) by {
            assert forall|j: int| 0 <= j < d.len() implies (#[trigger] d[j]).0 < pats.len() && d[j].1
                < pats[d[j].0 as int].len() by {
                assert(d[j] == active[j]);
            }
        }
        assert(!pruned(pats, d, name)) by {
            if pruned(pats, d, name) {
                let j = choose|j: int| 0 <= j < d.len() && completes(pats, #[trigger] d[j], name);
                assert(active[j] == d[j]);
            }
        }
        lemma_advance_wf(pats, d, name);
        let a = active.last();
        assert(active[active.len() - 1] == a);
        if pats[a.0 as int][a.1 as int] == name {
            assert(!completes(pats, active[active.len() - 1], name));
        }
    }
}

/// Decides whether an entry named `name` is pruned and, where it is not,
/// the pairs passed on to it.
pub fn step_excludes(pats: &Vec<Vec<Vec<u8>>>, active: &Vec<(usize, usize)>, name: &Vec<u8>) -> (r: (
    bool,
    Vec<(usize, usize)>,
))
    requires
        active_wf(pats.deep_view(), active@),
    ensures
        r.0 == pruned(pats.deep_view(), active@, name@),
        !r.0 ==> r.1@ == advance(pats.deep_view(), active@, name@),
        !r.0 ==> active_wf(pats.deep_view(), r.1@),
{
    let ghost ps = pats.deep_view();
    let mut child: Vec<(usize, usize)> = Vec::new();
    let mut j: usize = 0;
    while j < active.len()
        invariant
            j <= active@.len(),
            ps == pats.deep_view(),
            active_wf(ps, active@),
            !pruned(ps, active@.take(j as int), name@),
            child@ == advance(ps, active@.take(j as int), name@),
        decreases active@.len() - j,
    {
        let (pat_idx, offset) = active[j];
        proof {
            assert(active_wf(ps, active@));
            assert(active@[j as int] == (pat_idx, offset));
            assert(pats@[pat_idx as int]@[offset as int]@ == ps[pat_idx as int][offset as int]);
        }
        let pattern = &pats[pat_idx];
        let pattern_len = pattern.len();
        let component = &pattern[offset];
        let same = bytes_equal(component, name);
        let ghost prev = active@.take(j as int);
        let ghost next = active@.take(j + 1);
        proof {
            assert(next.drop_last() =~= prev);
            assert(next.last() == (pat_idx, offset));
            assert(pattern@.len() == ps[pat_idx as int].len());
            assert(offset < pattern@.len());
            assert(active@[j as int].1 < ps[active@[j as int].0 as int].len());
        }
        if same {
            if offset + 1 == pattern_len {
                proof {
                    assert(completes(ps, active@[j as int], name@));
                }
                return (true, child);
            }
            child.push((pat_idx, offset + 1));
        }
        proof {
            assert(!pruned(ps, next, name@)) by {
                if pruned(ps, next, name@) {
                    let k = choose|k: int| 0 <= k < next.len() && completes(ps, #[trigger] next[k], name@);
                    if k < j {
                        assert(prev[k] == next[k]);
                    }
                }
            }
        }
        j = j + 1;
    }
    proof {
        assert(active@.take(j as int) =~= active@);
        lemma_advance_wf(ps, active@, name@);
    }
    (false, child)
}

/// Byte-wise equality of two byte strings.
pub fn bytes_equal(a: &Vec<u8>, b: &Vec<u8>) -> (r: bool)
    ensures
        r == (a@ == b@),
{
    if a.len() != b.len() {
        return false;
    }
    let mut i: usize = 0;
    while i < a.len()
        invariant
            i <= a@.len(),
            a@.len() == b@.len(),
            forall|k: int| 0 <= k < i ==> a@[k] == b@[k],
        decreases a@.len() - i,
    {
        if a[i] != b[i] {
            return false;
        }
        i = i + 1;
    }
    proof {
        assert(a@ =~= b@);
    }
    true
}

/// `path` is a proper prefix of the pattern `p`.
pub open spec fn proper_prefix(path: Seq<Seq<u8>>, p: Seq<Seq<u8>>) -> bool {
    path.len() < p.len() && p.take(path.len() as int) == path
}

/// The pairs of the patterns among the first `n` that have `path` as a
/// proper prefix, each at offset `path.len()`, in pattern order.
pub open spec fn active_for_upto(pats: Seq<Seq<Seq<u8>>>, path: Seq<Seq<u8>>, n: nat) -> Seq<
    (usize, usize),
>
    decreases n,
{
    if n == 0 {
        Seq::<(usize, usize)>::empty()
    } else {
        let p = active_for_upto(pats, path, (n - 1) as nat);
        if proper_prefix(path, pats[n - 1]) {
            p.push(((n - 1) as usize, path.len() as usize))
        } else {
            p
        }
    }
}

/// The walk state that belongs at the tree whose path is `path`.
pub open spec fn active_for(pats: Seq<Seq<Seq<u8>>>, path: Seq<Seq<u8>>) -> Seq<(usize, usize)> {
    active_for_upto(pats, path, pats.len())
}

proof fn lemma_initial_upto(pats: Seq<Seq<Seq<u8>>>, n: nat)
    requires
        patterns_wf(pats),
        n <= pats.len(),
        pats.len() <= usize::MAX,
    ensures
        active_for_upto(pats, Seq::<Seq<u8>>::empty(), n) =~= initial_active(n),
    decreases n,
{
    if n > 0 {
        lemma_initial_upto(pats, (n - 1) as nat);
        assert(pats[n - 1].take(0) =~= Seq::<Seq<u8>>::empty());
    }
}

/// At the root the walk starts from every pattern at offset 0, which is the
/// state that belongs at the empty path.
pub proof fn lemma_initial_active(pats: Seq<Seq<Seq<u8>>>)
    requires
        patterns_wf(pats),
        pats.len() <= usize::MAX,
    ensures
        initial_active(pats.len()) == active_for(pats, Seq::<Seq<u8>>::empty()),
{
    lemma_initial_upto(pats, pats.len());
}

proof fn lemma_pruned_push(
    pats: Seq<Seq<Seq<u8>>>,
    active: Seq<(usize, usize)>,
    x: (usize, usize),
    name: Seq<u8>,
)
    ensures
        pruned(pats, active.push(x), name) <==> pruned(pats, active, name) || completes(
            pats,
            x,
            name,
        ),
{
    let t = active.push(x);
    if pruned(pats, active, name) {
        let j = choose|j: int| 0 <= j < active.len() && completes(pats, #[trigger] active[j], name);
        assert(t[j] == active[j]);
    }
    if completes(pats, x, name) {
        assert(t[active.len() as int] == x);
    }
    if pruned(pats, t, name) {
        let j = choose|j: int| 0 <= j < t.len() && completes(pats, #[trigger] t[j], name);
        if j < active.len() {
            assert(t[j] == active[j]);
        }
    }
}

proof fn lemma_advance_push(
    pats: Seq<Seq<Seq<u8>>>,
    active: Seq<(usize, usize)>,
    x: (usize, usize),
    name: Seq<u8>,
)
    ensures
        advance(pats, active.push(x), name) == (if pats[x.0 as int][x.1 as int] == name {
            advance(pats, active, name).push((x.0, (x.1 + 1) as usize))
        } else {
            advance(pats, active, name)
        }),
{
    assert(active.push(x).drop_last() =~= active);
}

proof fn lemma_step_upto(pats: Seq<Seq<Seq<u8>>>, path: Seq<Seq<u8>>, name: Seq<u8>, n: nat)
    requires
        n <= pats.len(),
        pats.len() <= usize::MAX,
        path.len() + 1 <= usize::MAX,
    ensures
        pruned(pats, active_for_upto(pats, path, n), name) <==> exists|i: int|
            0 <= i < n && #[trigger] pats[i] == path.push(name),
        !pruned(pats, active_for_upto(pats, path, n), name) ==> advance(
            pats,
            active_for_upto(pats, path, n),
            name,
        ) == active_for_upto(pats, path.push(name), n),
    decreases n,
{
    if n > 0 {
        let m = (n - 1) as nat;
        lemma_step_upto(pats, path, name, m);
        let prev = active_for_upto(pats, path, m);
        let p = pats[m as int];
        let q = path.push(name);
        if proper_prefix(path, p) {
            let x = (m as usize, path.len() as usize);
            lemma_pruned_push(pats, prev, x, name);
            lemma_advance_push(pats, prev, x, name);
            assert(p.take(path.len() as int + 1) =~= p.take(path.len() as int).push(p[path.len() as int]));
            if p[path.len() as int] == name {
                if path.len() + 1 == p.len() {
                    assert(p.take(p.len() as int) =~= p);
                    assert(p == q);
                } else {
                    assert(proper_prefix(q, p));
                    assert(p != q);
                }
            } else {
                assert(p.take(path.len() as int + 1) != q) by {
                    assert(q[path.len() as int] == name);
                }
                assert(!proper_prefix(q, p));
                assert(p != q) by {
                    if p == q {
                        assert(p[path.len() as int] == name);
                    }
                }
            }
        } else {
            assert(p != q) by {
                if p == q {
                    assert(p.take(path.len() as int) =~= path);
                }
            }
            assert(!proper_prefix(q, p)) by {
                if proper_prefix(q, p) {
                    assert(p.take(path.len() as int) =~= q.take(path.len() as int));
                    assert(q.take(path.len() as int) =~= path);
                }
            }
        }
        if exists|i: int| 0 <= i < n && #[trigger] pats[i] == q {
            let i = choose|i: int| 0 <= i < n && #[trigger] pats[i] == q;
            if i < m {
                assert(exists|i: int| 0 <= i < m && #[trigger] pats[i] == q);
            }
        }
    }
}

/// The walk state tracks paths exactly: where the state is the one that
/// belongs at `path`, an entry named `name` is pruned if and only if some
/// pattern equals `path` followed by `name`, and otherwise the state passed
/// on to it is the one that belongs at that longer path. Together with
/// `lemma_initial_active` this makes an entry excluded exactly when some
/// pattern equals its path or a prefix of it.
pub proof fn lemma_exclude_step(pats: Seq<Seq<Seq<u8>>>, path: Seq<Seq<u8>>, name: Seq<u8>)
    requires
        pats.len() <= usize::MAX,
        path.len() + 1 <= usize::MAX,
    ensures
        pruned(pats, active_for(pats, path), name) <==> exists|i: int|
            0 <= i < pats.len() && #[trigger] pats[i] == path.push(name),
        !pruned(pats, active_for(pats, path), name) ==> advance(pats, active_for(pats, path), name)
            == active_for(pats, path.push(name)),
{
    lemma_step_upto(pats, path, name, pats.len());
}

/// The walk state at the end of `path`, followed from the root one
/// component at a time; `None` where an entry along the path is pruned.
pub open spec fn walk_state(pats: Seq<Seq<Seq<u8>>>, path: Seq<Seq<u8>>) -> Option<Seq<(usize, usize)>>
    decreases path.len(),
{
    if path.len() == 0 {
        Some(initial_active(pats.len()))
    } else {
        match walk_state(pats, path.drop_last()) {
            None => None,
            Some(active) => if pruned(pats, active, path.last()) {
                None
            } else {
                Some(advance(pats, active, path.last()))
            },
        }
    }
}

/// Exclusion is by repo-root-anchored, whole-component path prefix: the
/// walk prunes an entry on `path` (the entry itself or one above it) if
/// and only if some pattern equals a non-empty prefix of `path`, and
/// otherwise reaches the end of `path` in the state that belongs there.
pub proof fn lemma_exclusion_by_prefix(pats: Seq<Seq<Seq<u8>>>, path: Seq<Seq<u8>>)
    requires
        patterns_wf(pats),
        pats.len() <= usize::MAX,
        path.len() < usize::MAX,
    ensures
        walk_state(pats, path) is None <==> exists|i: int, k: int|
            #![trigger pats[i], path.take(k)]
            0 <= i < pats.len() && 1 <= k <= path.len() && pats[i] == path.take(k),
        walk_state(pats, path) is Some ==> walk_state(pats, path) == Some(active_for(pats, path)),
    decreases path.len(),
{
    if path.len() == 0 {
        lemma_initial_active(pats);
        assert(path =~= Seq::<Seq<u8>>::empty());
    } else {
        let prefix = path.drop_last();
        let name = path.last();
        lemma_exclusion_by_prefix(pats, prefix);
        assert(prefix.push(name) =~= path);
        assert forall|k: int| 1 <= k <= prefix.len() implies #[trigger] prefix.take(k) == path.take(k) by {
            assert(prefix.take(k) =~= path.take(k));
        }
        assert(path.take(path.len() as int) =~= path);
        match walk_state(pats, prefix) {
            None => {
                let (i, k) = choose|i: int, k: int|
                    #![trigger pats[i], prefix.take(k)]
                    0 <= i < pats.len() && 1 <= k <= prefix.len() && pats[i] == prefix.take(k);
                assert(pats[i] == path.take(k));
            },
            Some(active) => {
                lemma_exclude_step(pats, prefix, name);
                if exists|i: int, k: int|
                    #![trigger pats[i], path.take(k)]
                    0 <= i < pats.len() && 1 <= k <= path.len() && pats[i] == path.take(k) {
                    let (i, k) = choose|i: int, k: int|
                        #![trigger pats[i], path.take(k)]
                        0 <= i < pats.len() && 1 <= k <= path.len() && pats[i] == path.take(k);
                    if k < path.len() {
                        assert(pats[i] == prefix.take(k));
                    } else {
                        assert(pats[i] == prefix.push(name));
                    }
                }
                if pruned(pats, active, name) {
                    let i = choose|i: int| 0 <= i < pats.len() && #[trigger] pats[i] == prefix.push(name);
                    assert(pats[i] == path.take(path.len() as int));
                }
            },
        }
    }
}

/// The component holds no `/`.
pub open spec fn slash_free(c: Seq<u8>) -> bool {
    forall|k: int| 0 <= k < c.len() ==> c[k] != SLASH
}

/// A pattern as parsing leaves it: at least one component, each naming
/// something and holding no `/`.
pub open spec fn pattern_parsed(cs: Seq<Seq<u8>>) -> bool {
    &&& cs.len() > 0
    &&& forall|i: int| 0 <= i < cs.len() ==> is_named_component(#[trigger] cs[i]) && slash_free(cs[i])
}

/// The text of a pattern: its components joined with `/`.
pub open spec fn join_slash(cs: Seq<Seq<u8>>) -> Seq<u8>
    decreases cs.len(),
{
    if cs.len() <= 1 {
        if cs.len() == 0 {
            Seq::<u8>::empty()
        } else {
            cs[0]
        }
    } else {
        join_slash(cs.drop_last()).push(SLASH) + cs.last()
    }
}

/// Appending bytes without a `/` extends the last part.
proof fn lemma_split_append(a: Seq<u8>, b: Seq<u8>)
    requires
        slash_free(b),
    ensures
        split_slash(a + b) == split_slash(a).update(
            split_slash(a).len() - 1,
            split_slash(a).last() + b,
        ),
    decreases b.len(),
{
    lemma_split_slash_nonempty(a);
    let p = split_slash(a);
    if b.len() == 0 {
        assert(a + b =~= a);
        assert(p.last() + b =~= p.last());
        assert(p.update(p.len() - 1, p.last()) =~= p);
    } else {
        let b1 = b.drop_last();
        let x = b.last();
        assert(x != SLASH);
        assert(slash_free(b1));
        lemma_split_append(a, b1);
        assert((a + b).drop_last() =~= a + b1);
        assert((a + b).last() == x);
        lemma_split_slash_nonempty(a + b1);
        let q = split_slash(a + b1);
        assert(split_slash(a + b) == q.update(q.len() - 1, q.last().push(x)));
        assert(q.last() == p.last() + b1);
        assert((p.last() + b1).push(x) =~= p.last() + b);
        assert(q.update(q.len() - 1, q.last().push(x)) =~= p.update(p.len() - 1, p.last() + b));
    }
}

/// Splitting the joined components gives them back.
proof fn lemma_split_join(cs: Seq<Seq<u8>>)
    requires
        cs.len() > 0,
        forall|i: int| 0 <= i < cs.len() ==> slash_free(#[trigger] cs[i]),
    ensures
        split_slash(join_slash(cs)) == cs,
    decreases cs.len(),
{
    if cs.len() == 1 {
        lemma_split_append(Seq::<u8>::empty(), cs[0]);
        assert(Seq::<u8>::empty() + cs[0] =~= cs[0]);
        assert(split_slash(Seq::<u8>::empty()) =~= seq![Seq::<u8>::empty()]);
        assert(Seq::<u8>::empty() + cs[0] =~= cs[0]);
        assert(seq![Seq::<u8>::empty()].update(0, Seq::<u8>::empty() + cs[0]) =~= cs);
    } else {
        let d = cs.drop_last();
        assert forall|i: int| 0 <= i < d.len() implies slash_free(#[trigger] d[i]) by {
            assert(d[i] == cs[i]);
        }
        lemma_split_join(d);
        let j = join_slash(d).push(SLASH);
        assert(cs.last() == cs[cs.len() - 1]);
        lemma_split_append(j, cs.last());
        assert(j.drop_last() =~= join_slash(d));
        assert(split_slash(j) == d.push(Seq::<u8>::empty()));
        assert(Seq::<u8>::empty() + cs.last() =~= cs.last());
        assert(d.push(Seq::<u8>::empty()).update(d.len() as int, cs.last()) =~= cs);
    }
}

/// Components that all name something are kept as they are.
proof fn lemma_named_all(cs: Seq<Seq<u8>>)
    requires
        forall|i: int| 0 <= i < cs.len() ==> is_named_component(#[trigger] cs[i]),
    ensures
        named_components(cs) == cs,
    decreases cs.len(),
{
    if cs.len() > 0 {
        let d = cs.drop_last();
        assert forall|i: int| 0 <= i < d.len() implies is_named_component(#[trigger] d[i]) by {
            assert(d[i] == cs[i]);
        }
        lemma_named_all(d);
        assert(is_named_component(cs[cs.len() - 1]));
        assert(d.push(cs.last()) =~= cs);
    }
}

/// The parts of a split hold no `/`.
proof fn lemma_split_slash_free(s: Seq<u8>)
    ensures
        forall|i: int| 0 <= i < split_slash(s).len() ==> slash_free(#[trigger] split_slash(s)[i]),
    decreases s.len(),
{
    if s.len() > 0 {
        let d = s.drop_last();
        lemma_split_slash_free(d);
        lemma_split_slash_nonempty(d);
        let p = split_slash(d);
        if s.last() != SLASH {
            let l = p.last().push(s.last());
            assert(slash_free(p[p.len() - 1]));
            assert(slash_free(l));
            assert forall|i: int| 0 <= i < split_slash(s).len() implies slash_free(
                #[trigger] split_slash(s)[i],
            ) by {
                if i < p.len() - 1 {
                    assert(split_slash(s)[i] == p[i]);
                }
            }
        } else {
            assert forall|i: int| 0 <= i < split_slash(s).len() implies slash_free(
                #[trigger] split_slash(s)[i],
            ) by {
                if i < p.len() {
                    assert(split_slash(s)[i] == p[i]);
                } else {
                    assert(split_slash(s)[i] =~= Seq::<u8>::empty());
                }
            }
        }
    }
}

/// The named components of parts are named parts.
proof fn lemma_named_components_from(cs: Seq<Seq<u8>>)
    ensures
        forall|i: int|
            0 <= i < named_components(cs).len() ==> is_named_component(#[trigger] named_components(cs)[i])
                && exists|j: int| 0 <= j < cs.len() && cs[j] == named_components(cs)[i],
    decreases cs.len(),
{
    if cs.len() > 0 {
        let d = cs.drop_last();
        lemma_named_components_from(d);
        let p = named_components(d);
        assert forall|i: int| 0 <= i < named_components(cs).len() implies is_named_component(
            #[trigger] named_components(cs)[i],
        ) && exists|j: int| 0 <= j < cs.len() && cs[j] == named_components(cs)[i] by {
            if i < p.len() {
                assert(named_components(cs)[i] == p[i]);
                let j = choose|j: int| 0 <= j < d.len() && d[j] == p[i];
                assert(cs[j] == d[j]);
            } else {
                assert(cs[cs.len() - 1] == named_components(cs)[i]);
            }
        }
    }
}

/// Parsing a text leaves a pattern as parsing leaves it, or nothing.
proof fn lemma_components_parsed(t: Seq<u8>)
    ensures
        path_components(t).len() > 0 ==> pattern_parsed(path_components(t)),
{
    lemma_split_slash_free(t);
    lemma_named_components_from(split_slash(t));
    let c = path_components(t);
    assert forall|i: int| 0 <= i < c.len() implies is_named_component(#[trigger] c[i]) && slash_free(
        c[i],
    ) by {
        let j = choose|j: int| 0 <= j < split_slash(t).len() && split_slash(t)[j] == c[i];
    }
}

/// Parsing the patterns' own texts gives the patterns back: each pattern
/// joined with `/` and parsed again is the same pattern, and none is
/// dropped.
pub proof fn lemma_patterns_reparse(texts: Seq<Seq<u8>>)
    ensures
        exclude_patterns(exclude_patterns(texts).map_values(|cs: Seq<Seq<u8>>| join_slash(cs)))
            == exclude_patterns(texts),
{
    lemma_patterns_parsed(texts);
    lemma_reparse(exclude_patterns(texts));
}

/// Parsing leaves patterns as parsing leaves them.
proof fn lemma_patterns_parsed(texts: Seq<Seq<u8>>)
    ensures
        forall|i: int|
            0 <= i < exclude_patterns(texts).len() ==> pattern_parsed(#[trigger] exclude_patterns(texts)[i]),
    decreases texts.len(),
{
    if texts.len() > 0 {
        lemma_patterns_parsed(texts.drop_last());
        lemma_components_parsed(texts.last());
        let p = exclude_patterns(texts.drop_last());
        assert forall|i: int| 0 <= i < exclude_patterns(texts).len() implies pattern_parsed(
            #[trigger] exclude_patterns(texts)[i],
        ) by {
            if i < p.len() {
                assert(exclude_patterns(texts)[i] == p[i]);
            }
        }
    }
}

/// Patterns as parsing leaves them survive joining and parsing again.
proof fn lemma_reparse(ps: Seq<Seq<Seq<u8>>>)
    requires
        forall|i: int| 0 <= i < ps.len() ==> pattern_parsed(#[trigger] ps[i]),
    ensures
        exclude_patterns(ps.map_values(|cs: Seq<Seq<u8>>| join_slash(cs))) == ps,
    decreases ps.len(),
{
    let texts = ps.map_values(|cs: Seq<Seq<u8>>| join_slash(cs));
    if ps.len() > 0 {
        let d = ps.drop_last();
        assert forall|i: int| 0 <= i < d.len() implies pattern_parsed(#[trigger] d[i]) by {
            assert(d[i] == ps[i]);
        }
        lemma_reparse(d);
        assert(texts.drop_last() =~= d.map_values(|cs: Seq<Seq<u8>>| join_slash(cs)));
        let last = ps[ps.len() - 1];
        assert(pattern_parsed(last));
        assert forall|i: int| 0 <= i < last.len() implies slash_free(#[trigger] last[i]) by {}
        lemma_split_join(last);
        assert forall|i: int| 0 <= i < last.len() implies is_named_component(#[trigger] last[i]) by {}
        lemma_named_all(last);
        assert(texts.last() == join_slash(last));
        assert(path_components(texts.last()) == last);
        assert(d.push(last) =~= ps);
    } else {
        assert(texts.len() == 0);
    }
}

} // verus!
