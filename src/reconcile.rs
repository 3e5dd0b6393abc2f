use crate::index::{duplicate_groups_of, FileId, FingerprintIndex};
use vstd::prelude::*;

verus! {

/// The members of a duplicate group that are to be deleted on confirmation:
/// all but the first.
pub open spec fn removable(group: Seq<FileId>) -> Seq<FileId> {
    group.subrange(1, group.len() as int)
}

/// The deletions that the first `n` groups call for, in order, when group `g`
/// was answered `answers[g]`.
pub open spec fn deletions_of(groups: Seq<Seq<FileId>>, answers: Seq<bool>, n: nat) -> Seq<FileId>
    decreases n,
{
    if n == 0 {
        Seq::empty()
    } else {
        let earlier = deletions_of(groups, answers, (n - 1) as nat);
        if answers[n - 1] {
            earlier + removable(groups[n - 1])
        } else {
            earlier
        }
    }
}

/// Every group has at least two members.
pub open spec fn all_duplicates(groups: Seq<Seq<FileId>>) -> bool {
    forall|g: int| 0 <= g < groups.len() ==> #[trigger] groups[g].len() >= 2
}

/// No file occurs twice among the groups.
pub open spec fn files_distinct(groups: Seq<Seq<FileId>>) -> bool {
    forall|g1: int, k1: int, g2: int, k2: int|
        0 <= g1 < groups.len() && 0 <= k1 < groups[g1].len() && 0 <= g2 < groups.len() && 0 <= k2
            < groups[g2].len() && (g1 != g2 || k1 != k2) ==> #[trigger] groups[g1][k1]
            != #[trigger] groups[g2][k2]
}

/// What the caller is to do next.
#[derive(Clone, Copy, Debug, PartialEq, Eq, Structural)]
pub enum Action {
    /// There are no duplicate groups: report that; nothing is deleted.
    NoDuplicates,
    /// Show the group at this position to the operator and ask whether to
    /// delete its redundant copies.
    Confirm(usize),
    /// Delete this file and report the outcome.
    Delete(FileId),
    /// Every group has been handled.
    Finish,
}

/// Walks the duplicate groups one by one: asks for a decision on each, and on
/// an affirmative one deletes every member but the first, one file at a time.
///
/// A failed deletion is recorded and does not stop the walk.
pub struct Reconciler {
    groups: Vec<Vec<FileId>>,
    current: usize,
    next: usize,
    failures: Vec<FileId>,
    answers: Ghost<Seq<bool>>,
    attempted: Ghost<Seq<FileId>>,
}

impl Reconciler {
    /// The duplicate groups, in the order in which they are handled.
    pub closed spec fn groups(&self) -> Seq<Seq<FileId>> {
        self.groups.deep_view()
    }

    /// The position of the group being handled; the number of groups once all
    /// are done.
    pub closed spec fn current(&self) -> nat {
        self.current as nat
    }

    /// 0 while the operator's answer on the current group is awaited; else the
    /// position, within the current group, of the next file to delete.
    pub closed spec fn next(&self) -> nat {
        self.next as nat
    }

    /// The operator's answers so far, one per group, in order.
    pub closed spec fn answers(&self) -> Seq<bool> {
        self.answers@
    }

    /// The files whose deletion has been attempted so far, in order.
    pub closed spec fn attempted(&self) -> Seq<FileId> {
        self.attempted@
    }

    /// The files whose deletion failed so far, in order.
    pub closed spec fn failures(&self) -> Seq<FileId> {
        self.failures@
    }

    /// The state is consistent: the answers given and the deletions attempted
    /// are those that the groups handled so far call for.
    pub open spec fn wf(&self) -> bool {
        let groups = self.groups();
        &&& all_duplicates(groups)
        &&& self.current() <= groups.len()
        &&& self.current() == groups.len() ==> self.next() == 0
        &&& self.current() < groups.len() ==> self.next() < groups[self.current() as int].len()
        &&& self.next() == 0 ==> self.answers().len() == self.current()
        &&& self.next() > 0 ==> self.answers().len() == self.current() + 1 && self.answers().last()
        &&& self.next() == 0 ==> self.attempted() == deletions_of(
            groups,
            self.answers(),
            self.current(),
        )
        &&& self.next() > 0 ==> self.attempted() == deletions_of(
            groups,
            self.answers(),
            self.current(),
        ) + groups[self.current() as int].subrange(1, self.next() as int)
    }

    /// Starts on the duplicate groups of `index`, before any decision.
    pub fn from_index(index: &FingerprintIndex) -> (r: Self)
        ensures
            r.wf(),
            r.groups() == duplicate_groups_of(index@),
            r.current() == 0,
            r.next() == 0,
            r.answers().len() == 0,
            r.attempted().len() == 0,
            r.failures().len() == 0,
    {
        let groups = index.duplicate_groups();
        proof {
            crate::index::lemma_duplicate_groups_sizes(index@);
        }
        Reconciler {
            groups,
            current: 0,
            next: 0,
            failures: Vec::new(),
            answers: Ghost(Seq::empty()),
            attempted: Ghost(Seq::empty()),
        }
    }

    /// The group at position `g`.
    pub fn group(&self, g: usize) -> (r: &Vec<FileId>)
        requires
            g < self.groups().len(),
        ensures
            r@ == self.groups()[g as int],
    {
        let r = &self.groups[g];
        assert(r.deep_view() =~= r@);
        r
    }

    /// Number of duplicate groups.
    pub fn group_count(&self) -> (r: usize)
        ensures
            r == self.groups().len(),
    {
        self.groups.len()
    }

    /// The files whose deletion failed, in order.
    pub fn failed(&self) -> (r: &Vec<FileId>)
        ensures
            r@ == self.failures(),
    {
        &self.failures
    }

    /// What is to be done next.
    pub fn next_action(&self) -> (r: Action)
        requires
            self.wf(),
        ensures
            self.groups().len() == 0 ==> r == Action::NoDuplicates,
            self.groups().len() > 0 && self.current() == self.groups().len() ==> r == Action::Finish,
            self.current() < self.groups().len() && self.next() == 0 ==> r == Action::Confirm(
                self.current() as usize,
            ),
            self.current() < self.groups().len() && self.next() > 0 ==> r == Action::Delete(
                self.groups()[self.current() as int][self.next() as int],
            ),
    {
        if self.groups.len() == 0 {
            Action::NoDuplicates
        } else if self.current == self.groups.len() {
            Action::Finish
        } else if self.next == 0 {
            Action::Confirm(self.current)
        } else {
            assert(self.groups[self.current as int].deep_view() =~= self.groups[self.current as int]@);
            Action::Delete(self.groups[self.current][self.next])
        }
    }

    /// Takes the operator's decision on the current group. On `true` the
    /// deletions of its members after the first begin; on `false` the group is
    /// left as it is and the next group comes up.
    pub fn answer(&mut self, yes: bool)
        requires
            old(self).wf(),
            old(self).current() < old(self).groups().len(),
            old(self).next() == 0,
        ensures
            final(self).wf(),
            final(self).groups() == old(self).groups(),
            final(self).answers() == old(self).answers().push(yes),
            final(self).attempted() == old(self).attempted(),
            final(self).failures() == old(self).failures(),
            yes ==> final(self).current() == old(self).current() && final(self).next() == 1,
            !yes ==> final(self).current() == old(self).current() + 1 && final(self).next() == 0,
    {
        let ghost before = *self;
        let count = self.groups.len();
        assert(self.groups@.len() == self.groups().len());
        assert(self.current < count);
        self.answers = Ghost(self.answers@.push(yes));
        let ghost n = before.current();
        assert(self.answers().drop_last() =~= before.answers());
        proof {
            lemma_deletions_prefix(self.groups(), before.answers(), self.answers(), n);
        }
        if yes {
            self.next = 1;
            assert(self.groups()[n as int].subrange(1, 1) =~= Seq::<FileId>::empty());
            assert(self.attempted() =~= deletions_of(self.groups(), self.answers(), n)
                + self.groups()[n as int].subrange(1, 1));
        } else {
            self.current = self.current + 1;
            assert(deletions_of(self.groups(), self.answers(), n + 1) == deletions_of(
                self.groups(),
                self.answers(),
                n,
            ));
        }
    }

    /// Takes the outcome of the deletion that `next_action` asked for: `ok` is
    /// whether it succeeded. A failure is recorded; either way the walk goes on
    /// to the next member, or to the next group after the last member.
    pub fn record_deletion(&mut self, ok: bool)
        requires
            old(self).wf(),
            old(self).current() < old(self).groups().len(),
            old(self).next() > 0,
        ensures
            final(self).wf(),
            final(self).groups() == old(self).groups(),
            final(self).answers() == old(self).answers(),
            final(self).attempted() == old(self).attempted().push(
                old(self).groups()[old(self).current() as int][old(self).next() as int],
            ),
            ok ==> final(self).failures() == old(self).failures(),
            !ok ==> final(self).failures() == old(self).failures().push(
                old(self).groups()[old(self).current() as int][old(self).next() as int],
            ),
            old(self).next() + 1 < old(self).groups()[old(self).current() as int].len() ==> final(self).current() == old(self).current() && final(self).next() == old(self).next() + 1,
            old(self).next() + 1 == old(self).groups()[old(self).current() as int].len() ==> final(self).current() == old(self).current() + 1 && final(self).next() == 0,
    {
        let ghost groups = self.groups();
        let ghost n = self.current();
        let ghost k = self.next();
        assert(self.groups@.len() == self.groups().len());
        assert(self.groups[self.current as int].deep_view() =~= self.groups[self.current as int]@);
        let count = self.groups.len();
        let size = self.groups[self.current].len();
        assert(self.current < count && self.next < size);
        let file = self.groups[self.current][self.next];
        self.attempted = Ghost(self.attempted@.push(file));
        if !ok {
            self.failures.push(file);
        }
        assert(groups[n as int].subrange(1, (k + 1) as int) =~= groups[n as int].subrange(1, k as int).push(
            file,
        ));
        if self.next + 1 < size {
            self.next = self.next + 1;
        } else {
            self.current = self.current + 1;
            self.next = 0;
            assert(self.answers().len() == n + 1);
            assert(removable(groups[n as int]) =~= groups[n as int].subrange(1, (k + 1) as int));
        }
    }
}

/// The deletions that the first `n` groups call for depend only on the first
/// `n` answers.
proof fn lemma_deletions_prefix(groups: Seq<Seq<FileId>>, a: Seq<bool>, b: Seq<bool>, n: nat)
    requires
        n <= a.len(),
        n <= b.len(),
        forall|i: int| 0 <= i < n ==> a[i] == b[i],
    ensures
        deletions_of(groups, a, n) == deletions_of(groups, b, n),
    decreases n,
{
    if n > 0 {
        lemma_deletions_prefix(groups, a, b, (n - 1) as nat);
    }
}

/// Whether `x` is a member, after the first, of one of the first `n` groups
/// that were answered affirmatively.
pub open spec fn marked_for_deletion(
    groups: Seq<Seq<FileId>>,
    answers: Seq<bool>,
    n: nat,
    x: FileId,
) -> bool {
    exists|g: int, k: int|
        0 <= g < n && answers[g] && 1 <= k < groups[g].len() && #[trigger] groups[g][k] == x
}

/// A file is among the deletions of the first `n` groups exactly when it is a
/// member, after the first, of one of them that was answered affirmatively.
pub proof fn lemma_deletions_members(
    groups: Seq<Seq<FileId>>,
    answers: Seq<bool>,
    n: nat,
    x: FileId,
)
    requires
        all_duplicates(groups),
        n <= groups.len(),
        n <= answers.len(),
    ensures
        deletions_of(groups, answers, n).contains(x) == marked_for_deletion(groups, answers, n, x),
    decreases n,
{
    if n > 0 {
        let m = (n - 1) as nat;
        let earlier = deletions_of(groups, answers, m);
        let last = groups[m as int];
        lemma_deletions_members(groups, answers, m, x);
        assert(last.len() >= 2);
        if deletions_of(groups, answers, n).contains(x) {
            let i = choose|i: int|
                0 <= i < deletions_of(groups, answers, n).len() && deletions_of(
                    groups,
                    answers,
                    n,
                )[i] == x;
            if i < earlier.len() {
                assert(earlier[i] == x);
                assert(earlier.contains(x));
                let (g, k) = choose|g: int, k: int|
                    0 <= g < m && answers[g] && 1 <= k < groups[g].len() && #[trigger] groups[g][k]
                        == x;
                assert(groups[g][k] == x);
            } else {
                assert(answers[m as int]);
                let k = i - earlier.len() + 1;
                assert(removable(last)[k - 1] == last[k]);
                assert(groups[m as int][k] == x);
            }
        }
        if marked_for_deletion(groups, answers, n, x) {
            let (g, k) = choose|g: int, k: int|
                0 <= g < n && answers[g] && 1 <= k < groups[g].len() && #[trigger] groups[g][k]
                    == x;
            if g < m {
                assert(marked_for_deletion(groups, answers, m, x));
                let i = choose|i: int| 0 <= i < earlier.len() && earlier[i] == x;
                assert(deletions_of(groups, answers, n)[i] == x);
            } else {
                let i = earlier.len() + k - 1;
                assert(removable(last)[k - 1] == last[k]);
                assert(deletions_of(groups, answers, n)[i] == x);
            }
        }
    }
}

/// After an affirmative answer on a group, every member but the first is
/// deleted, and the first is not, provided no file occurs in two places among
/// the groups.
pub proof fn lemma_confirmed_group_keeps_first(
    groups: Seq<Seq<FileId>>,
    answers: Seq<bool>,
    g: int,
)
    requires
        all_duplicates(groups),
        files_distinct(groups),
        answers.len() == groups.len(),
        0 <= g < groups.len(),
        answers[g],
    ensures
        !deletions_of(groups, answers, groups.len()).contains(groups[g][0]),
        forall|k: int|
            1 <= k < groups[g].len() ==> deletions_of(groups, answers, groups.len()).contains(
                #[trigger] groups[g][k],
            ),
{
    let n = groups.len();
    assert(groups[g].len() >= 2);
    lemma_deletions_members(groups, answers, n, groups[g][0]);
    if marked_for_deletion(groups, answers, n, groups[g][0]) {
        let (h, k) = choose|h: int, k: int|
            0 <= h < n && answers[h] && 1 <= k < groups[h].len() && #[trigger] groups[h][k]
                == groups[g][0];
        assert(groups[h][k] != groups[g][0]);
    }
    assert forall|k: int| 1 <= k < groups[g].len() implies deletions_of(
        groups,
        answers,
        n,
    ).contains(#[trigger] groups[g][k]) by {
        lemma_deletions_members(groups, answers, n, groups[g][k]);
        assert(marked_for_deletion(groups, answers, n, groups[g][k]));
    }
}

/// After a negative answer on a group, none of its members is deleted,
/// provided no file occurs in two places among the groups.
pub proof fn lemma_declined_group_untouched(
    groups: Seq<Seq<FileId>>,
    answers: Seq<bool>,
    g: int,
)
    requires
        all_duplicates(groups),
        files_distinct(groups),
        answers.len() == groups.len(),
        0 <= g < groups.len(),
        !answers[g],
    ensures
        forall|k: int|
            0 <= k < groups[g].len() ==> !deletions_of(groups, answers, groups.len()).contains(
                #[trigger] groups[g][k],
            ),
{
    let n = groups.len();
    assert forall|k: int| 0 <= k < groups[g].len() implies !deletions_of(
        groups,
        answers,
        n,
    ).contains(#[trigger] groups[g][k]) by {
        lemma_deletions_members(groups, answers, n, groups[g][k]);
        if marked_for_deletion(groups, answers, n, groups[g][k]) {
            let (h, j) = choose|h: int, j: int|
                0 <= h < n && answers[h] && 1 <= j < groups[h].len() && #[trigger] groups[h][j]
                    == groups[g][k];
            assert(groups[h][j] != groups[g][k]);
        }
    }
}

/// Once every group has been handled, one answer stands for each group and
/// the deletions attempted are exactly those that the answers call for.
pub proof fn lemma_finished_run(r: &Reconciler)
    requires
        r.wf(),
        r.current() == r.groups().len(),
    ensures
        r.answers().len() == r.groups().len(),
        r.attempted() == deletions_of(r.groups(), r.answers(), r.groups().len()),
{
}

/// At the end of a run over groups in which no file occurs twice: of a group
/// answered affirmatively, every member but the first had its deletion
/// attempted and the first did not; of a group answered negatively, no member
/// did.
pub proof fn lemma_run_outcome(r: &Reconciler, g: int)
    requires
        r.wf(),
        r.current() == r.groups().len(),
        files_distinct(r.groups()),
        0 <= g < r.groups().len(),
    ensures
        r.answers()[g] ==> !r.attempted().contains(r.groups()[g][0]),
        r.answers()[g] ==> forall|k: int|
            1 <= k < r.groups()[g].len() ==> r.attempted().contains(#[trigger] r.groups()[g][k]),
        !r.answers()[g] ==> forall|k: int|
            0 <= k < r.groups()[g].len() ==> !r.attempted().contains(#[trigger] r.groups()[g][k]),
{
    lemma_finished_run(r);
    if r.answers()[g] {
        lemma_confirmed_group_keeps_first(r.groups(), r.answers(), g);
    } else {
        lemma_declined_group_untouched(r.groups(), r.answers(), g);
    }
}

} // verus!
