//! The pipeline loop's state machine.
//!
//! The surrounding process owns the I/O: it lists the inbox directory,
//! synthesizes and persists audio, appends it to the playback sink and
//! deletes source files. Every decision — what to do on a poll, which item to
//! hand out next, and when to shut down — is made here, over plain values.
//!
//! A cycle goes: in the polling phase the process hands in the current inbox
//! listing and whether the sink has finished playing, and is told to drain,
//! sleep, or exit; in the draining phase it takes the pending items one by
//! one, in lexicographic filename order, fully processing each before taking
//! the next.

use crate::order::lex_le;
use crate::order::sort_names;
use crate::order::sorted;
use crate::order::views;
use vstd::prelude::*;

verus! {

broadcast use
    vstd::seq_lib::group_to_multiset_ensures,
    vstd::multiset::group_multiset_axioms,
;

/// How long the process waits, in milliseconds, between polls of an inbox
/// that is empty while audio is still playing.
pub const POLL_INTERVAL_MS: u64 = 1000;

/// The phase the pipeline loop is in.
#[derive(Clone, Copy, Debug, PartialEq, Eq, Structural)]
pub enum Phase {
    /// Between drain passes: the next event is an inbox listing.
    Polling,
    /// Inside a drain pass: pending items remain to be processed.
    Draining,
    /// Terminal: the queue was empty and playback had finished.
    Done,
}

/// What the surrounding process must do after handing in a listing.
#[derive(Clone, Copy, Debug, PartialEq, Eq, Structural)]
pub enum Step {
    /// Items are pending: take and process them one by one.
    Drain,
    /// Nothing to synthesize but audio is still playing: wait one poll
    /// interval, then list the inbox again.
    Sleep,
    /// The inbox is empty and playback has finished: exit cleanly.
    Exit,
}

/// The pipeline loop's state: its phase, the items of the current drain pass
/// that are still pending, and (as ghost history) the items already handed
/// out in this pass and the pass's full listing.
pub struct Pipeline {
    phase: Phase,
    pending: Vec<Vec<u8>>,
    handed: Ghost<Seq<Seq<u8>>>,
    pass: Ghost<Seq<Seq<u8>>>,
}

impl Pipeline {
    /// The phase the loop is in.
    pub closed spec fn cur_phase(self) -> Phase {
        self.phase
    }

    /// The names still pending in the current drain pass, in processing
    /// order.
    pub closed spec fn queue_names(self) -> Seq<Seq<u8>> {
        views(self.pending@)
    }

    /// The names already handed out in the current drain pass, in the order
    /// they were handed out.
    pub closed spec fn handed_names(self) -> Seq<Seq<u8>> {
        self.handed@
    }

    /// The names of the current pass's listing.
    pub closed spec fn pass_names(self) -> Seq<Seq<u8>> {
        self.pass@
    }

    /// Well-formedness: handed-out names followed by pending names are in
    /// lexicographic order and together are exactly the pass's listing, and
    /// items are pending exactly in the draining phase.
    pub closed spec fn wf(self) -> bool {
        &&& sorted(self.handed@ + views(self.pending@))
        &&& (self.handed@ + views(self.pending@)).to_multiset() == self.pass@.to_multiset()
        &&& (self.phase == Phase::Draining <==> self.pending@.len() > 0)
    }

    /// A fresh pipeline: polling, with no pass under way.
    pub fn new() -> (p: Pipeline)
        ensures
            p.wf(),
            p.cur_phase() == Phase::Polling,
            p.handed_names() == Seq::<Seq<u8>>::empty(),
            p.pass_names() == Seq::<Seq<u8>>::empty(),
    {
        let p = Pipeline {
            phase: Phase::Polling,
            pending: Vec::new(),
            handed: Ghost(Seq::empty()),
            pass: Ghost(Seq::empty()),
        };
        proof {
            assert(p.handed@ + views(p.pending@) =~= Seq::<Seq<u8>>::empty());
            assert((p.handed@ + views(p.pending@)).to_multiset() =~= p.pass@.to_multiset());
        }
        p
    }

    /// Reports whether a drain pass is under way, so the caller knows to keep
    /// taking items.
    pub fn is_draining(&self) -> (b: bool)
        ensures
            b == (self.cur_phase() == Phase::Draining),
    {
        self.phase == Phase::Draining
    }

    /// Decides what to do with one poll's observations: the inbox listing and
    /// whether the sink has finished playing everything appended so far.
    ///
    /// An empty listing with a quiet sink ends the loop; an empty listing
    /// with audio still playing means sleep and poll again; a non-empty
    /// listing starts a drain pass over exactly those names, arranged in
    /// lexicographic order.
    pub fn on_listing(&mut self, listing: Vec<Vec<u8>>, sink_empty: bool) -> (step: Step)
        requires
            old(self).wf(),
            old(self).cur_phase() == Phase::Polling,
        ensures
            final(self).wf(),
            listing@.len() == 0 && sink_empty ==> final(self).cur_phase() == Phase::Done && step
                == Step::Exit,
            listing@.len() == 0 && !sink_empty ==> final(self).cur_phase() == Phase::Polling && step
                == Step::Sleep,
            listing@.len() > 0 ==> {
                &&& final(self).cur_phase() == Phase::Draining
                &&& step == Step::Drain
                &&& final(self).pass_names() == views(listing@)
                &&& final(self).handed_names() == Seq::<Seq<u8>>::empty()
                &&& sorted(final(self).queue_names())
                &&& final(self).queue_names().to_multiset() == views(listing@).to_multiset()
            },
    {
        if listing.len() == 0 {
            if sink_empty {
                self.phase = Phase::Done;
                Step::Exit
            } else {
                Step::Sleep
            }
        } else {
            let ghost l = views(listing@);
            let sorted_listing = sort_names(listing);
            self.pending = sorted_listing;
            self.phase = Phase::Draining;
            self.handed = Ghost(Seq::empty());
            self.pass = Ghost(l);
            proof {
                assert(self.handed@ + views(self.pending@) =~= views(self.pending@));
                assert(views(self.pending@).to_multiset().len() == l.to_multiset().len());
                assert(views(self.pending@).len() > 0);
            }
            Step::Drain
        }
    }

    /// Hands out the next item of the drain pass: the lexicographically least
    /// pending name. The caller must fully process it — synthesize, persist
    /// the artifact, append it to the sink, delete the source — before taking
    /// another. When the last item is handed out the loop returns to polling
    /// without sleeping.
    pub fn take_next(&mut self) -> (item: Vec<u8>)
        requires
            old(self).wf(),
            old(self).cur_phase() == Phase::Draining,
        ensures
            final(self).wf(),
            item@ == old(self).queue_names()[0],
            final(self).queue_names() == old(self).queue_names().drop_first(),
            final(self).handed_names() == old(self).handed_names().push(item@),
            final(self).pass_names() == old(self).pass_names(),
            forall|j: int|
                0 <= j < final(self).queue_names().len() ==> lex_le(
                    item@,
                    final(self).queue_names()[j],
                ),
            final(self).cur_phase() == if old(self).queue_names().len() == 1 {
                Phase::Polling
            } else {
                Phase::Draining
            },
    {
        let ghost old_handed = self.handed@;
        let ghost old_queue = views(self.pending@);
        let item = self.pending.remove(0);
        self.handed = Ghost(self.handed@.push(item@));
        if self.pending.len() == 0 {
            self.phase = Phase::Polling;
        }
        proof {
            assert(views(self.pending@) =~= old_queue.drop_first());
            assert(self.handed@ + views(self.pending@) =~= old_handed + old_queue);
            assert forall|j: int| 0 <= j < views(self.pending@).len() implies lex_le(
                item@,
                views(self.pending@)[j],
            ) by {
                let h = old_handed.len() as int;
                assert((old_handed + old_queue)[h] == old_queue[0]);
                assert((old_handed + old_queue)[h + 1 + j] == old_queue[1 + j]);
            }
        }
        item
    }

    /// Every drain pass hands its items to playback in lexicographic filename
    /// order: at any point, the names handed out so far, in the order they
    /// were handed out, are sorted.
    pub proof fn lemma_handed_in_order(self)
        requires
            self.wf(),
        ensures
            sorted(self.handed_names()),
    {
        let all = self.handed@ + views(self.pending@);
        assert forall|i: int, j: int| 0 <= i <= j < self.handed@.len() implies lex_le(
            self.handed@[i],
            self.handed@[j],
        ) by {
            assert(all[i] == self.handed@[i]);
            assert(all[j] == self.handed@[j]);
        }
    }

    /// Once a drain pass has completed — no items are pending — the names
    /// handed out are exactly the names of the pass's listing, and they were
    /// handed out in lexicographic order.
    pub proof fn lemma_pass_complete(self)
        requires
            self.wf(),
            self.cur_phase() != Phase::Draining,
        ensures
            self.handed_names().to_multiset() == self.pass_names().to_multiset(),
            sorted(self.handed_names()),
    {
        assert(views(self.pending@) =~= Seq::<Seq<u8>>::empty());
        assert(self.handed@ + views(self.pending@) =~= self.handed@);
        self.lemma_handed_in_order();
    }

    /// Within one drain pass, a name that occurs once in the listing is
    /// handed out at most once.
    pub proof fn lemma_pass_at_most_once(self, name: Seq<u8>)
        requires
            self.wf(),
            self.pass_names().to_multiset().count(name) <= 1,
        ensures
            self.handed_names().to_multiset().count(name) <= 1,
    {
        vstd::seq_lib::lemma_multiset_commutative(self.handed@, views(self.pending@));
    }
}

} // verus!
