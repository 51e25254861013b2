//! The first-parent history of a revision, oldest commit first, and what a
//! commit's row needs from it.
//!
//! What the repository answers (the id a revision names, an object's kind, a
//! tag's target, the commits a first-parent walk yields, a commit's time and
//! tree) is read from disk. Each answer a read attests is recorded in a
//! `RepoLog` (no other answer can be), and
//! results are stated for every `RepoView` that gives the recorded answers;
//! such a view exists wherever no question got two different replies
//! (`lemma_view_exists`).
use crate::repo::{
    commit_read, first_parent_ids, kind_read, read_commit, read_kind, read_tag_target,
    rev_parse_single, revision_read, target_read, walk_read, ObjectKind,
};
use crate::world::Oid;
use vstd::prelude::*;

verus! {

/// An answer to every question the history asks of the repository.
pub struct RepoView {
    /// The id a revision names.
    pub revision: spec_fn(Seq<char>) -> Oid,
    /// The kind of an object.
    pub kind: spec_fn(Oid) -> ObjectKind,
    /// The id a tag points at.
    pub target: spec_fn(Oid) -> Oid,
    /// The commits a first-parent walk from a commit yields, in the order
    /// it yields them.
    pub walk: spec_fn(Oid) -> Seq<Oid>,
    /// A commit's committer time, in seconds since the Unix epoch.
    pub time: spec_fn(Oid) -> i64,
    /// The id of a commit's tree.
    pub tree: spec_fn(Oid) -> Oid,
}

/// One answer the repository gave.
pub enum RepoAnswer {
    Revision(Seq<char>, Oid),
    Kind(Oid, ObjectKind),
    Target(Oid, Oid),
    Walk(Oid, Seq<Oid>),
    Commit(Oid, i64, Oid),
}

/// The view gives the answer.
pub open spec fn gives(h: RepoView, a: RepoAnswer) -> bool {
    match a {
        RepoAnswer::Revision(name, id) => (h.revision)(name) == id,
        RepoAnswer::Kind(id, kind) => (h.kind)(id) == kind,
        RepoAnswer::Target(tag, target) => (h.target)(tag) == target,
        RepoAnswer::Walk(tip, ids) => (h.walk)(tip) == ids,
        RepoAnswer::Commit(id, time, tree) => (h.time)(id) == time && (h.tree)(id) == tree,
    }
}

/// The view gives every recorded answer.
pub open spec fn gives_all(h: RepoView, answers: Seq<RepoAnswer>) -> bool {
    forall|i: int| 0 <= i < answers.len() ==> #[trigger] gives(h, answers[i])
}

/// The answer was given by a read of the question it answers.
pub open spec fn answered(a: RepoAnswer) -> bool {
    match a {
        RepoAnswer::Revision(name, id) => revision_read(name, id),
        RepoAnswer::Kind(id, kind) => kind_read(id, kind),
        RepoAnswer::Target(tag, target) => target_read(tag, target),
        RepoAnswer::Walk(tip, ids) => walk_read(tip, ids),
        RepoAnswer::Commit(id, time, tree) => commit_read(id, time, tree),
    }
}

/// Every answer was given by a read of the question it answers.
pub open spec fn all_answered(answers: Seq<RepoAnswer>) -> bool {
    forall|i: int| 0 <= i < answers.len() ==> answered(#[trigger] answers[i])
}

/// The answers the repository gave, in the order they were read. Each was
/// given by a read of the question it answers.
pub struct RepoLog {
    answers: Ghost<Seq<RepoAnswer>>,
}

impl RepoLog {
    #[verifier::type_invariant]
    spec fn all_read(&self) -> bool {
        all_answered(self.answers@)
    }

    /// No answer yet.
    pub fn new() -> (r: RepoLog)
        ensures
            r.answers() == Seq::<RepoAnswer>::empty(),
    {
        RepoLog { answers: Ghost(Seq::empty()) }
    }

    pub closed spec fn answers(&self) -> Seq<RepoAnswer> {
        self.answers@
    }

    fn record(&mut self, Ghost(a): Ghost<RepoAnswer>)
        requires
            answered(a),
        ensures
            final(self).answers() == old(self).answers().push(a),
    {
        proof {
            use_type_invariant(&*self);
            let before = self.answers@;
            self.answers@ = self.answers@.push(a);
            assert forall|i: int| 0 <= i < self.answers@.len() implies answered(
                #[trigger] self.answers@[i],
            ) by {
                if i < before.len() {
                    assert(self.answers@[i] == before[i]);
                }
            }
        }
    }
}

/// Two answers do not contradict each other: where they answer the same
/// question, they give the same answer.
pub open spec fn same_reply(a: RepoAnswer, b: RepoAnswer) -> bool {
    match (a, b) {
        (RepoAnswer::Revision(n, x), RepoAnswer::Revision(m, y)) => n == m ==> x == y,
        (RepoAnswer::Kind(o, k), RepoAnswer::Kind(p, l)) => o == p ==> k == l,
        (RepoAnswer::Target(o, t), RepoAnswer::Target(p, u)) => o == p ==> t == u,
        (RepoAnswer::Walk(o, s), RepoAnswer::Walk(p, t)) => o == p ==> s == t,
        (RepoAnswer::Commit(o, s, t), RepoAnswer::Commit(p, u, v)) => o == p ==> s == u && t == v,
        _ => true,
    }
}

/// No question in the answers got two different replies.
pub open spec fn replies_coherent(answers: Seq<RepoAnswer>) -> bool {
    forall|i: int, j: int|
        0 <= i < answers.len() && 0 <= j < answers.len() ==> #[trigger] same_reply(answers[i], answers[j])
}

spec fn asks_revision(a: RepoAnswer, n: Seq<char>) -> bool {
    a matches RepoAnswer::Revision(x, _) && x == n
}

spec fn asks_kind(a: RepoAnswer, o: Oid) -> bool {
    a matches RepoAnswer::Kind(x, _) && x == o
}

spec fn asks_target(a: RepoAnswer, o: Oid) -> bool {
    a matches RepoAnswer::Target(x, _) && x == o
}

spec fn asks_walk(a: RepoAnswer, o: Oid) -> bool {
    a matches RepoAnswer::Walk(x, _) && x == o
}

spec fn asks_commit(a: RepoAnswer, o: Oid) -> bool {
    a matches RepoAnswer::Commit(x, _, _) && x == o
}

/// A view that gives each recorded answer, and answers every question the
/// answers do not hold arbitrarily.
spec fn view_of(log: Seq<RepoAnswer>) -> RepoView {
    RepoView {
        revision: |n: Seq<char>|
            if exists|i: int| 0 <= i < log.len() && #[trigger] asks_revision(log[i], n) {
                let i = choose|i: int| 0 <= i < log.len() && #[trigger] asks_revision(log[i], n);
                log[i]->Revision_1
            } else {
                (0u128, 0u32)
            },
        kind: |o: Oid|
            if exists|i: int| 0 <= i < log.len() && #[trigger] asks_kind(log[i], o) {
                let i = choose|i: int| 0 <= i < log.len() && #[trigger] asks_kind(log[i], o);
                log[i]->Kind_1
            } else {
                ObjectKind::Blob
            },
        target: |o: Oid|
            if exists|i: int| 0 <= i < log.len() && #[trigger] asks_target(log[i], o) {
                let i = choose|i: int| 0 <= i < log.len() && #[trigger] asks_target(log[i], o);
                log[i]->Target_1
            } else {
                (0u128, 0u32)
            },
        walk: |o: Oid|
            if exists|i: int| 0 <= i < log.len() && #[trigger] asks_walk(log[i], o) {
                let i = choose|i: int| 0 <= i < log.len() && #[trigger] asks_walk(log[i], o);
                log[i]->Walk_1
            } else {
                Seq::empty()
            },
        time: |o: Oid|
            if exists|i: int| 0 <= i < log.len() && #[trigger] asks_commit(log[i], o) {
                let i = choose|i: int| 0 <= i < log.len() && #[trigger] asks_commit(log[i], o);
                log[i]->Commit_1
            } else {
                0i64
            },
        tree: |o: Oid|
            if exists|i: int| 0 <= i < log.len() && #[trigger] asks_commit(log[i], o) {
                let i = choose|i: int| 0 <= i < log.len() && #[trigger] asks_commit(log[i], o);
                log[i]->Commit_2
            } else {
                (0u128, 0u32)
            },
    }
}

/// Some view gives every recorded answer exactly where no question got two
/// different replies: the history stated for the views that give the
/// recorded answers holds of at least one view whenever the repository
/// answered each question the same way each time.
pub proof fn lemma_view_exists(log: Seq<RepoAnswer>)
    ensures
        replies_coherent(log) <==> exists|h: RepoView| gives_all(h, log),
{
    if replies_coherent(log) {
        let h = view_of(log);
        assert forall|i: int| 0 <= i < log.len() implies #[trigger] gives(h, log[i]) by {
            match log[i] {
                RepoAnswer::Revision(n, _) => {
                    assert(asks_revision(log[i], n));
                    let j = choose|j: int| 0 <= j < log.len() && #[trigger] asks_revision(log[j], n);
                    assert(same_reply(log[j], log[i]));
                },
                RepoAnswer::Kind(o, _) => {
                    assert(asks_kind(log[i], o));
                    let j = choose|j: int| 0 <= j < log.len() && #[trigger] asks_kind(log[j], o);
                    assert(same_reply(log[j], log[i]));
                },
                RepoAnswer::Target(o, _) => {
                    assert(asks_target(log[i], o));
                    let j = choose|j: int| 0 <= j < log.len() && #[trigger] asks_target(log[j], o);
                    assert(same_reply(log[j], log[i]));
                },
                RepoAnswer::Walk(o, _) => {
                    assert(asks_walk(log[i], o));
                    let j = choose|j: int| 0 <= j < log.len() && #[trigger] asks_walk(log[j], o);
                    assert(same_reply(log[j], log[i]));
                },
                RepoAnswer::Commit(o, _, _) => {
                    assert(asks_commit(log[i], o));
                    let j = choose|j: int| 0 <= j < log.len() && #[trigger] asks_commit(log[j], o);
                    assert(same_reply(log[j], log[i]));
                },
            }
        }
        assert(gives_all(h, log));
    }
    if exists|h: RepoView| gives_all(h, log) {
        let h = choose|h: RepoView| gives_all(h, log);
        assert forall|i: int, j: int|
            0 <= i < log.len() && 0 <= j < log.len() implies #[trigger] same_reply(log[i], log[j]) by {
            assert(gives(h, log[i]));
            assert(gives(h, log[j]));
        }
    }
}

/// Every view that gives the later answers gives the earlier ones.
pub open spec fn log_grows(later: Seq<RepoAnswer>, earlier: Seq<RepoAnswer>) -> bool {
    forall|h: RepoView| #[trigger] gives_all(h, later) ==> gives_all(h, earlier)
}

proof fn lemma_push_grows(log: Seq<RepoAnswer>, a: RepoAnswer)
    ensures
        log_grows(log.push(a), log),
        forall|h: RepoView| #[trigger] gives_all(h, log.push(a)) ==> gives(h, a),
{
    assert forall|h: RepoView| #[trigger] gives_all(h, log.push(a)) implies gives_all(h, log) && gives(
        h,
        a,
    ) by {
        assert forall|i: int| 0 <= i < log.len() implies #[trigger] gives(h, log[i]) by {
            assert(log.push(a)[i] == log[i]);
            assert(gives(h, log.push(a)[i]));
        }
        assert(gives(h, log.push(a)[log.len() as int]));
    }
}

/// The commit `oid` leads to through at most `n` tags: itself where it is
/// a commit, and for a tag the commit its target leads to.
pub open spec fn peeled(h: RepoView, oid: Oid, n: nat) -> Option<Oid>
    decreases n,
{
    match (h.kind)(oid) {
        ObjectKind::Commit => Some(oid),
        ObjectKind::Tag => if n == 0 {
            None
        } else {
            peeled(h, (h.target)(oid), (n - 1) as nat)
        },
        _ => None,
    }
}

/// The object leads to the commit `c` through tags.
pub open spec fn peels_to(h: RepoView, oid: Oid, c: Oid) -> bool {
    exists|n: nat| #[trigger] peeled(h, oid, n) == Some(c)
}

/// The object `k` tags after `oid`.
pub open spec fn follow(h: RepoView, oid: Oid, k: nat) -> Oid
    decreases k,
{
    if k == 0 {
        oid
    } else {
        follow(h, (h.target)(oid), (k - 1) as nat)
    }
}

/// The first `k` objects on the way from `oid` are tags.
pub open spec fn tags_before(h: RepoView, oid: Oid, k: nat) -> bool {
    forall|j: nat| j < k ==> (h.kind)(#[trigger] follow(h, oid, j)) == ObjectKind::Tag
}

/// Following `k` tags: peeling `oid` with `n + k` is peeling what they
/// lead to with `n`, and with fewer than `k` finds nothing.
proof fn lemma_follow(h: RepoView, oid: Oid, k: nat, n: nat)
    requires
        tags_before(h, oid, k),
    ensures
        peeled(h, oid, n + k) == peeled(h, follow(h, oid, k), n),
        n < k ==> peeled(h, oid, n) is None,
    decreases k,
{
    if k > 0 {
        let t = (h.target)(oid);
        assert((h.kind)(follow(h, oid, 0)) == ObjectKind::Tag);
        assert(tags_before(h, t, (k - 1) as nat)) by {
            assert forall|j: nat| j < (k - 1) as nat implies (h.kind)(#[trigger] follow(h, t, j))
                == ObjectKind::Tag by {
                assert(follow(h, oid, j + 1) == follow(h, t, j));
                assert((h.kind)(follow(h, oid, j + 1)) == ObjectKind::Tag);
            }
        }
        lemma_follow(h, t, (k - 1) as nat, n);
        assert(follow(h, oid, k) == follow(h, t, (k - 1) as nat));
        assert((n + k - 1) as nat == n + (k - 1) as nat);
        if n > 0 && n < k {
            lemma_follow(h, t, (k - 1) as nat, (n - 1) as nat);
        }
    }
}

/// Peeling finds at most one commit.
pub proof fn lemma_peeled_unique(h: RepoView, oid: Oid, n1: nat, n2: nat)
    requires
        peeled(h, oid, n1) is Some,
        peeled(h, oid, n2) is Some,
    ensures
        peeled(h, oid, n1) == peeled(h, oid, n2),
    decreases n1,
{
    if (h.kind)(oid) == ObjectKind::Tag {
        lemma_peeled_unique(h, (h.target)(oid), (n1 - 1) as nat, (n2 - 1) as nat);
    }
}

/// The history a revision names: the commits a first-parent walk from the
/// commit it peels to yields, reversed, so that commit comes last.
pub open spec fn history_of(h: RepoView, refname: Seq<char>, ids: Seq<Oid>) -> bool {
    &&& ids.len() >= 1
    &&& peels_to(h, (h.revision)(refname), ids.last())
    &&& ids == (h.walk)(ids.last()).reverse()
}

/// Two revisions that peel to one commit name one history: an annotated
/// tag, a lightweight tag and a branch of the same commit list the same
/// commits.
pub proof fn lemma_history_determined(
    h: RepoView,
    r1: Seq<char>,
    r2: Seq<char>,
    ids1: Seq<Oid>,
    ids2: Seq<Oid>,
    c: Oid,
)
    requires
        history_of(h, r1, ids1),
        history_of(h, r2, ids2),
        peels_to(h, (h.revision)(r1), c),
        peels_to(h, (h.revision)(r2), c),
    ensures
        ids1 == ids2,
{
    let a = (h.revision)(r1);
    let b = (h.revision)(r2);
    let n1 = choose|n: nat| #[trigger] peeled(h, a, n) == Some(ids1.last());
    let m1 = choose|n: nat| #[trigger] peeled(h, a, n) == Some(c);
    let n2 = choose|n: nat| #[trigger] peeled(h, b, n) == Some(ids2.last());
    let m2 = choose|n: nat| #[trigger] peeled(h, b, n) == Some(c);
    lemma_peeled_unique(h, a, n1, m1);
    lemma_peeled_unique(h, b, n2, m2);
}

/// What peeling does with an object of a kind: a commit is reached, a
/// tag's target is read next, and any other object ends the peeling.
#[derive(Clone, Copy, PartialEq, Eq, Structural, Debug)]
pub enum PeelStep {
    Done,
    Follow,
    Refuse,
}

/// The peeling step for an object of kind `kind`.
pub fn peel_step(kind: ObjectKind) -> (r: PeelStep)
    ensures
        r == (match kind {
            ObjectKind::Commit => PeelStep::Done,
            ObjectKind::Tag => PeelStep::Follow,
            _ => PeelStep::Refuse,
        }),
{
    match kind {
        ObjectKind::Commit => PeelStep::Done,
        ObjectKind::Tag => PeelStep::Follow,
        _ => PeelStep::Refuse,
    }
}

/// Why the history could not be listed.
#[derive(Debug)]
pub enum WalkError {
    /// The revision could not be resolved (an empty repository or an
    /// unborn branch among other causes).
    Resolve(gix::revision::spec::parse::single::Error),
    /// An object on the way from the revision to its commit could not be
    /// read.
    ReadObject(Oid, gix::objs::find::existing::Error),
    /// A tag on the way from the revision to its commit could not be
    /// decoded.
    CorruptTag(Oid, gix::objs::decode::Error),
    /// The revision leads to an object of this kind, not to a commit.
    NotACommit(Oid, ObjectKind),
    /// The tags that the revision leads through do not end.
    EndlessTags(Oid),
    /// The walk could not be started.
    Start(gix::revision::walk::Error),
    /// The walk failed on the way.
    Step(gix::revision::walk::iter::Error),
    /// The walk did not begin with its tip. (gix's first-parent walk yields
    /// its tip first; this reports a walk that does not.)
    NotFromTip(Oid),
}

/// Why a commit could not be read.
#[derive(Debug)]
pub enum CommitError {
    /// The commit object could not be read.
    Read(gix::objs::find::existing::Error),
    /// The object is not a commit.
    NotACommit(gix::object::try_into::Error),
    /// The committer time could not be decoded.
    Time(gix::object::commit::Error),
    /// The tree id could not be decoded.
    Tree(gix::objs::decode::Error),
}

/// The ids in the opposite order: the walk yields the tip first, and the
/// history is listed oldest first.
pub fn oldest_first(ids: Vec<Oid>) -> (r: Vec<Oid>)
    ensures
        r@ == ids@.reverse(),
{
    let mut r: Vec<Oid> = Vec::new();
    let mut i: usize = ids.len();
    while i > 0
        invariant
            i <= ids@.len(),
            r@ == ids@.skip(i as int).reverse(),
        decreases i,
    {
        i = i - 1;
        r.push(ids[i]);
        proof {
            assert(r@ =~= ids@.skip(i as int).reverse());
        }
    }
    proof {
        assert(ids@.skip(0) =~= ids@);
    }
    r
}

/// The commit an object leads to: the object itself where it is a
/// commit, and for a tag the commit its target leads to. Each kind and
/// target read is recorded.
pub fn peel_to_commit(repo: &gix::Repository, oid: Oid, log: &mut RepoLog) -> (r: Result<
    Oid,
    WalkError,
>)
    ensures
        log_grows(final(log).answers(), old(log).answers()),
        final(log).answers().len() >= old(log).answers().len(),
        r matches Ok(c) ==> forall|h: RepoView| #[trigger]
            gives_all(h, final(log).answers()) ==> peels_to(h, oid, c),
        r matches Err(e) && e is NotACommit ==> forall|h: RepoView| #[trigger]
            gives_all(h, final(log).answers()) ==> forall|n: nat| #[trigger] peeled(h, oid, n) is None,
        r matches Err(e) && e is EndlessTags ==> forall|h: RepoView| #[trigger]
            gives_all(h, final(log).answers()) ==> tags_before(h, oid, usize::MAX as nat + 1),
        r matches Err(e) ==> e is ReadObject || e is CorruptTag || e is NotACommit || e is EndlessTags,
{
    let ghost log0 = log.answers();
    let mut current = oid;
    let mut budget: usize = usize::MAX;
    let ghost mut steps: nat = 0;
    loop
        invariant
            budget <= usize::MAX,
            steps + budget == usize::MAX,
            log_grows(log.answers(), log0),
            log.answers().len() >= log0.len(),
            log0 == old(log).answers(),
            forall|h: RepoView| #[trigger]
                gives_all(h, log.answers()) ==> tags_before(h, oid, steps) && follow(h, oid, steps)
                    == current,
        decreases budget,
    {
        let kind = match read_kind(repo, current) {
            Ok(kind) => kind,
            Err(e) => return Err(WalkError::ReadObject(current, e)),
        };
        let ghost before = log.answers();
        log.record(Ghost(RepoAnswer::Kind(current, kind)));
        proof {
            lemma_push_grows(before, RepoAnswer::Kind(current, kind));
        }
        match peel_step(kind) {
            PeelStep::Done => {
                proof {
                    assert forall|h: RepoView| #[trigger] gives_all(h, log.answers()) implies peels_to(
                        h,
                        oid,
                        current,
                    ) by {
                        lemma_follow(h, oid, steps, 0);
                        assert(peeled(h, oid, 0 + steps) == Some(current));
                    }
                }
                return Ok(current);
            },
            PeelStep::Follow => {
                if budget == 0 {
                    proof {
                        assert forall|h: RepoView| #[trigger] gives_all(h, log.answers()) implies tags_before(
                            h,
                            oid,
                            usize::MAX as nat + 1,
                        ) by {
                            assert(gives_all(h, before));
                            assert forall|j: nat| j < usize::MAX as nat + 1 implies (h.kind)(
                                #[trigger] follow(h, oid, j),
                            ) == ObjectKind::Tag by {
                                if j < steps {
                                    assert(tags_before(h, oid, steps));
                                }
                            }
                        }
                    }
                    return Err(WalkError::EndlessTags(oid));
                }
                let target = match read_tag_target(repo, current) {
                    Ok(target) => target,
                    Err(e) => return Err(e),
                };
                let ghost mid = log.answers();
                log.record(Ghost(RepoAnswer::Target(current, target)));
                proof {
                    lemma_push_grows(mid, RepoAnswer::Target(current, target));
                    assert forall|h: RepoView| #[trigger] gives_all(h, log.answers()) implies tags_before(
                        h,
                        oid,
                        steps + 1,
                    ) && follow(h, oid, steps + 1) == target by {
                        assert(gives_all(h, mid));
                        assert(gives_all(h, before));
                        lemma_follow_last(h, oid, steps);
                        assert forall|j: nat| j < steps + 1 implies (h.kind)(#[trigger] follow(h, oid, j))
                            == ObjectKind::Tag by {
                            if j < steps {
                                assert(tags_before(h, oid, steps));
                            }
                        }
                    }
                    steps = steps + 1;
                }
                current = target;
                budget = budget - 1;
            },
            PeelStep::Refuse => {
                proof {
                    assert forall|h: RepoView| #[trigger] gives_all(h, log.answers()) implies forall|
                        n: nat,
                    | #[trigger] peeled(h, oid, n) is None by {
                        assert forall|n: nat| #[trigger] peeled(h, oid, n) is None by {
                            if n >= steps {
                                lemma_follow(h, oid, steps, (n - steps) as nat);
                                assert((n - steps) as nat + steps == n);
                            } else {
                                lemma_follow(h, oid, steps, n);
                            }
                        }
                    }
                }
                return Err(WalkError::NotACommit(current, kind));
            },
        }
    }
}

/// One more tag: the object after `k + 1` tags is the target of the one
/// after `k`.
proof fn lemma_follow_last(h: RepoView, oid: Oid, k: nat)
    ensures
        follow(h, oid, k + 1) == (h.target)(follow(h, oid, k)),
    decreases k,
{
    let t = (h.target)(oid);
    if k == 0 {
        assert(follow(h, t, 0) == t);
    } else {
        lemma_follow_last(h, t, (k - 1) as nat);
        assert(follow(h, oid, k + 1) == follow(h, t, k));
        assert(follow(h, oid, k) == follow(h, t, (k - 1) as nat));
        assert((k - 1) as nat + 1 == k);
    }
}

/// The history, oldest first, from the ids a first-parent walk yielded,
/// newest first: the walk must have begun with its tip, which then comes
/// last.
pub fn chain_from_walk(tip: Oid, walked: Vec<Oid>) -> (r: Result<Vec<Oid>, WalkError>)
    ensures
        r is Ok <==> walked@.len() >= 1 && walked@[0] == tip,
        r matches Ok(ids) ==> ids@ == walked@.reverse() && ids@.last() == tip,
        r matches Err(e) ==> e matches WalkError::NotFromTip(t) && t == tip,
{
    if walked.len() == 0 || walked[0].0 != tip.0 || walked[0].1 != tip.1 {
        return Err(WalkError::NotFromTip(tip));
    }
    let ghost first = walked@[0];
    let oldest = oldest_first(walked);
    proof {
        assert(oldest@.last() == first);
    }
    Ok(oldest)
}

/// The first-parent chain from the commit `tip` to the root, oldest first:
/// the ids the walk yields, tip first, reversed, so the tip comes last. The
/// ids the walk yielded are recorded.
pub fn first_parent_chain(repo: &gix::Repository, tip: Oid, log: &mut RepoLog) -> (r: Result<
    Vec<Oid>,
    WalkError,
>)
    ensures
        log_grows(final(log).answers(), old(log).answers()),
        final(log).answers().len() >= old(log).answers().len(),
        r matches Ok(ids) ==> ids@.len() >= 1 && ids@.last() == tip && forall|h: RepoView| #[trigger]
            gives_all(h, final(log).answers()) ==> ids@ == (h.walk)(tip).reverse(),
        r matches Err(e) ==> e is Start || e is Step || e is NotFromTip,
        r matches Err(WalkError::NotFromTip(t)) ==> t == tip && forall|h: RepoView| #[trigger]
            gives_all(h, final(log).answers()) ==> !((h.walk)(tip).len() >= 1 && (h.walk)(tip)[0]
                == tip),
{
    let walked = match first_parent_ids(repo, tip) {
        Ok(walked) => walked,
        Err(e) => return Err(e),
    };
    let ghost before = log.answers();
    log.record(Ghost(RepoAnswer::Walk(tip, walked@)));
    proof {
        lemma_push_grows(before, RepoAnswer::Walk(tip, walked@));
    }
    chain_from_walk(tip, walked)
}

/// Resolves `refname`, peels it to a commit, and lists the first-parent
/// chain from that commit to the root, oldest first (the reverse of
/// `git log --first-parent`), ending with the commit the revision names;
/// commit times play no part in the order. Every answer read is recorded;
/// a revision that cannot be resolved is the one failure that records
/// nothing.
pub fn first_parent_oldest_first(repo: &gix::Repository, refname: &str, log: &mut RepoLog) -> (r:
    Result<Vec<Oid>, WalkError>)
    ensures
        log_grows(final(log).answers(), old(log).answers()),
        all_answered(final(log).answers()),
        (r matches Err(e) && e is Resolve) <==> final(log).answers() == old(log).answers(),
        r matches Ok(ids) ==> forall|h: RepoView| #[trigger]
            gives_all(h, final(log).answers()) ==> history_of(h, refname@, ids@),
        r matches Err(e) && e is NotACommit ==> forall|h: RepoView| #[trigger]
            gives_all(h, final(log).answers()) ==> forall|n: nat| #[trigger]
                peeled(h, (h.revision)(refname@), n) is None,
        r matches Err(e) && e is EndlessTags ==> forall|h: RepoView| #[trigger]
            gives_all(h, final(log).answers()) ==> tags_before(
                h,
                (h.revision)(refname@),
                usize::MAX as nat + 1,
            ),
        r matches Err(WalkError::NotFromTip(t)) ==> forall|h: RepoView| #[trigger]
            gives_all(h, final(log).answers()) ==> peels_to(h, (h.revision)(refname@), t) && !((
            h.walk)(t).len() >= 1 && (h.walk)(t)[0] == t),
{
    proof {
        use_type_invariant(&*log);
    }
    let named = match rev_parse_single(repo, refname) {
        Ok(id) => id,
        Err(e) => return Err(WalkError::Resolve(e)),
    };
    let ghost log0 = log.answers();
    log.record(Ghost(RepoAnswer::Revision(refname@, named)));
    let ghost log1 = log.answers();
    proof {
        lemma_push_grows(log0, RepoAnswer::Revision(refname@, named));
    }
    let tip = match peel_to_commit(repo, named, log) {
        Ok(tip) => tip,
        Err(e) => {
            proof {
                assert(log.answers().len() > log0.len());
                assert forall|h: RepoView| #[trigger] gives_all(h, log.answers()) implies (h.revision)(
                    refname@,
                ) == named by {
                    assert(gives_all(h, log1));
                }
                use_type_invariant(&*log);
            }
            return Err(e);
        },
    };
    let ghost log2 = log.answers();
    let r = first_parent_chain(repo, tip, log);
    proof {
        assert(log.answers().len() > log0.len());
        assert forall|h: RepoView| #[trigger] gives_all(h, log.answers()) implies (h.revision)(refname@)
            == named && peels_to(h, named, tip) by {
            assert(gives_all(h, log2));
            assert(gives_all(h, log1));
        }
        if r is Ok {
            assert forall|h: RepoView| #[trigger] gives_all(h, log.answers()) implies history_of(
                h,
                refname@,
                r->Ok_0@,
            ) by {
                assert(gives_all(h, log2));
                assert(gives_all(h, log1));
                assert(peels_to(h, named, tip));
            }
        }
        use_type_invariant(&*log);
    }
    r
}

/// A commit's committer time, in seconds since the Unix epoch, and the id
/// of its tree, as recorded. (A failure is about the commit `id`.)
pub fn commit_time_and_tree(repo: &gix::Repository, id: Oid, log: &mut RepoLog) -> (r: Result<
    (i64, Oid),
    CommitError,
>)
    ensures
        log_grows(final(log).answers(), old(log).answers()),
        r matches Ok((time, tree)) ==> forall|h: RepoView| #[trigger]
            gives_all(h, final(log).answers()) ==> (h.time)(id) == time && (h.tree)(id) == tree,
        r matches Ok((time, tree)) ==> final(log).answers() == old(log).answers().push(
            RepoAnswer::Commit(id, time, tree),
        ),
        r is Err ==> final(log).answers() == old(log).answers(),
        all_answered(final(log).answers()),
{
    let ghost log0 = log.answers();
    proof {
        assert(log_grows(log0, log0));
        use_type_invariant(&*log);
    }
    let (seconds, tree) = match read_commit(repo, id) {
        Ok(read) => read,
        Err(e) => return Err(e),
    };
    log.record(Ghost(RepoAnswer::Commit(id, seconds, tree)));
    proof {
        lemma_push_grows(log0, RepoAnswer::Commit(id, seconds, tree));
        use_type_invariant(&*log);
    }
    Ok((seconds, tree))
}

} // verus!
