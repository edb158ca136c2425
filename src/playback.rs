use vstd::prelude::*;

use crate::discovery::texts;

verus! {

/// Why one file could not be played.
#[derive(PartialEq, Eq, Structural, Clone, Copy, Debug)]
pub enum PlaybackError {
    /// The file could not be opened.
    Open,
    /// The file's content is not decodable audio.
    Decode,
    /// The output device did not accept the audio.
    Device,
}

/// What came of one playback attempt.
#[derive(PartialEq, Eq, Structural, Clone, Copy, Debug)]
pub enum Outcome {
    Played,
    Failed(PlaybackError),
}

/// The line announced before a file plays: `Playing [index/total]: path`.
pub struct Announcement {
    /// Position of the file in the batch, counted from 1.
    pub index: usize,
    pub total: usize,
    pub path: String,
}

/// The abstract state of a batch.
pub struct BatchView {
    pub files: Seq<Seq<char>>,
    /// How many files have been attempted.
    pub next: nat,
    /// Positions (from 0) of the attempts that failed, in order.
    pub failed: Seq<nat>,
    /// How many attempts succeeded.
    pub played: nat,
}

/// The state of a batch after one more attempt with the given outcome.
pub open spec fn step(v: BatchView, o: Outcome) -> BatchView {
    BatchView {
        files: v.files,
        next: v.next + 1,
        failed: if o is Failed {
            v.failed.push(v.next)
        } else {
            v.failed
        },
        played: if o is Played {
            v.played + 1
        } else {
            v.played
        },
    }
}

/// A batch over `files` before any attempt.
pub open spec fn fresh(files: Seq<Seq<char>>) -> BatchView {
    BatchView { files, next: 0, failed: Seq::empty(), played: 0 }
}

/// The state after a run of attempts with the given outcomes, in order.
pub open spec fn run(v: BatchView, outcomes: Seq<Outcome>) -> BatchView
    decreases outcomes.len(),
{
    if outcomes.len() == 0 {
        v
    } else {
        step(run(v, outcomes.drop_last()), outcomes.last())
    }
}

/// The announcement due in a state: the next file with its position and the total.
pub open spec fn announcement_due(v: BatchView) -> Option<(nat, nat, Seq<char>)> {
    if v.next < v.files.len() {
        Some((v.next + 1, v.files.len(), v.files[v.next as int]))
    } else {
        None
    }
}

/// The positions, from 0, of the failed outcomes, in order.
pub open spec fn failed_positions(outcomes: Seq<Outcome>) -> Seq<nat>
    decreases outcomes.len(),
{
    if outcomes.len() == 0 {
        Seq::empty()
    } else if outcomes.last() is Failed {
        failed_positions(outcomes.drop_last()).push((outcomes.len() - 1) as nat)
    } else {
        failed_positions(outcomes.drop_last())
    }
}

/// How many of the outcomes are successes.
pub open spec fn played_count(outcomes: Seq<Outcome>) -> nat
    decreases outcomes.len(),
{
    if outcomes.len() == 0 {
        0
    } else if outcomes.last() is Played {
        played_count(outcomes.drop_last()) + 1
    } else {
        played_count(outcomes.drop_last())
    }
}

/// Sequential playback of a list of files, one at a time and in order.
///
/// The caller announces the file that `next_announcement` names, plays it, and
/// hands the outcome to `record`; a failed file is recorded and the batch moves on.
pub struct Batch {
    files: Vec<String>,
    next: usize,
    failed: Vec<usize>,
    played: usize,
}

impl View for Batch {
    type V = BatchView;

    closed spec fn view(&self) -> BatchView {
        BatchView {
            files: texts(self.files@),
            next: self.next as nat,
            failed: self.failed@.map_values(|i: usize| i as nat),
            played: self.played as nat,
        }
    }
}

impl Batch {
    pub closed spec fn wf(&self) -> bool {
        &&& self.next <= self.files@.len()
        &&& self.played <= self.next
    }

    /// A batch over `files` in the given order, with no attempt made yet.
    pub fn new(files: Vec<String>) -> (r: Batch)
        ensures
            r.wf(),
            r@ == fresh(texts(files@)),
    {
        let r = Batch { files, next: 0, failed: Vec::new(), played: 0 };
        assert(r@.failed =~= Seq::<nat>::empty());
        r
    }

    /// How many files the batch holds.
    pub fn total(&self) -> (r: usize)
        ensures
            r == self@.files.len(),
    {
        self.files.len()
    }

    /// Whether the batch holds no file, so that nothing is to be played.
    pub fn is_empty(&self) -> (r: bool)
        ensures
            r == (self@.files.len() == 0),
    {
        self.files.len() == 0
    }

    /// Whether every file has been attempted.
    pub fn is_finished(&self) -> (r: bool)
        requires
            self.wf(),
        ensures
            r == (announcement_due(self@) is None),
    {
        self.next >= self.files.len()
    }

    /// The announcement for the file to play next, if any is left.
    pub fn next_announcement(&self) -> (r: Option<Announcement>)
        requires
            self.wf(),
        ensures
            match r {
                Some(a) => announcement_due(self@) == Some(
                    (a.index as nat, a.total as nat, a.path@),
                ),
                None => announcement_due(self@) is None,
            },
    {
        if self.next < self.files.len() {
            Some(
                Announcement {
                    index: self.next + 1,
                    total: self.files.len(),
                    path: self.files[self.next].clone(),
                },
            )
        } else {
            None
        }
    }

    /// Records the outcome of playing the file last announced, and moves on to the
    /// next file whatever the outcome.
    pub fn record(&mut self, outcome: Outcome)
        requires
            old(self).wf(),
            announcement_due(old(self)@) is Some,
        ensures
            final(self).wf(),
            final(self)@ == step(old(self)@, outcome),
    {
        let ghost failed0 = self.failed@;
        assert(texts(self.files@).len() == self.files@.len());
        assert(self@.next == self.next as nat);
        assert(self.next < self.files.len());
        match outcome {
            Outcome::Played => {
                self.played = self.played + 1;
            },
            Outcome::Failed(_) => {
                self.failed.push(self.next);
                assert(self.failed@.map_values(|i: usize| i as nat) =~= failed0.map_values(
                    |i: usize| i as nat,
                ).push(self.next as nat));
            },
        }
        self.next = self.next + 1;
    }

    /// How many attempts succeeded.
    pub fn played(&self) -> (r: usize)
        ensures
            r == self@.played,
    {
        self.played
    }

    /// The positions, counted from 0, of the files whose playback failed.
    pub fn failed(&self) -> (r: &Vec<usize>)
        ensures
            r@.map_values(|i: usize| i as nat) == self@.failed,
    {
        &self.failed
    }
}

proof fn lemma_run_shape(files: Seq<Seq<char>>, outcomes: Seq<Outcome>)
    ensures
        run(fresh(files), outcomes) == (BatchView {
            files,
            next: outcomes.len(),
            failed: failed_positions(outcomes),
            played: played_count(outcomes),
        }),
    decreases outcomes.len(),
{
    if outcomes.len() > 0 {
        lemma_run_shape(files, outcomes.drop_last());
    }
}

/// A failed file never stops the batch: whatever each attempt gives, after `k`
/// attempts the file at position `k` is the one announced next (as `k + 1` of the
/// total), every file is attempted in order, and the failures recorded are
/// exactly the positions of the failed attempts.
pub proof fn lemma_batch_attempts_every_file(files: Seq<Seq<char>>, outcomes: Seq<Outcome>)
    requires
        outcomes.len() <= files.len(),
    ensures
        run(fresh(files), outcomes).failed == failed_positions(outcomes),
        run(fresh(files), outcomes).played == played_count(outcomes),
        outcomes.len() < files.len() ==> announcement_due(run(fresh(files), outcomes)) == Some(
            (outcomes.len() + 1, files.len(), files[outcomes.len() as int]),
        ),
        outcomes.len() == files.len() ==> announcement_due(run(fresh(files), outcomes)) is None,
{
    lemma_run_shape(files, outcomes);
}

/// Playing the same list twice announces the same files, in the same order and
/// with the same positions, whatever came of the attempts in either run.
pub proof fn lemma_announcements_repeat(
    files: Seq<Seq<char>>,
    first: Seq<Outcome>,
    second: Seq<Outcome>,
)
    requires
        first.len() == second.len(),
        first.len() <= files.len(),
    ensures
        announcement_due(run(fresh(files), first)) == announcement_due(run(fresh(files), second)),
{
    lemma_run_shape(files, first);
    lemma_run_shape(files, second);
}

/// An empty list makes no attempt: nothing is announced or played.
pub proof fn lemma_empty_batch_plays_nothing(files: Seq<Seq<char>>)
    requires
        files.len() == 0,
    ensures
        announcement_due(fresh(files)) is None,
{
}

} // verus!
