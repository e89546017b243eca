//! Asking the server for the reactions to a question, page by page.

use vstd::prelude::*;

use crate::calendar::Timestamp;
use crate::names::NameMap;
use crate::quiz::answers::{
    choice_of_emoji, collect_votes, is_vote, related_views, server_votes, undecryptable_count,
    AnswerRecord, RelatedEvent, RelatedView,
};
use crate::quiz::merge::{
    is_added, is_corrected, is_removed, merge_reconciled_answers, merged, ReconciliationSummary,
};
use crate::text::{opt_str, texts};

verus! {

/// What is known of the reactions on the server.
pub struct Reconciliation {
    /// The answers seen so far.
    pub votes: NameMap<u8>,
    /// Whether all pages were seen.
    pub complete: bool,
}

/// What asking for reactions does next.
pub enum PageStep {
    /// Ask for the page that starts at `from`, or for the first one.
    Ask { from: Option<String> },
    /// All pages were seen.
    Done,
}

impl Reconciliation {
    /// Nothing is known yet: the first page is asked for.
    pub fn start() -> (r: (Reconciliation, PageStep))
        ensures
            r.0.votes@ == Map::<Seq<char>, u8>::empty(),
            !r.0.complete,
            r.1 == (PageStep::Ask { from: None }),
    {
        let step = PageStep::Ask { from: None };
        (Reconciliation { votes: NameMap::new(), complete: false }, step)
    }

    /// Takes in a page, newest first, that is followed by the page at `next`.
    /// Also returns how many messages could not be decrypted.
    pub fn on_page(
        &mut self,
        events: &Vec<RelatedEvent>,
        own_id: Option<&str>,
        next: Option<String>,
    ) -> (r: (PageStep, usize))
        ensures
            final(self).votes@ == server_votes(
                old(self).votes@,
                related_views(events@),
                opt_str(own_id),
            ),
            final(self).complete == (next is None),
            r.0 == (if next is Some {
                PageStep::Ask { from: next }
            } else {
                PageStep::Done
            }),
            r.1 == undecryptable_count(related_views(events@)),
    {
        let undecryptable: usize = collect_votes(&mut self.votes, events, own_id);
        self.complete = next.is_none();
        match next {
            Some(token) => (PageStep::Ask { from: Some(token) }, undecryptable),
            None => (PageStep::Done, undecryptable),
        }
    }

    /// Brings answers in line with the server. Where pages are missing, the
    /// answers stay as they are: a part of the reactions would cost answers.
    pub fn finish(&self, answers: &mut NameMap<AnswerRecord>, now: Timestamp) -> (r:
        ReconciliationSummary)
        ensures
            !self.complete ==> {
                &&& *final(answers) == *old(answers)
                &&& r.added.len() == 0 && r.corrected.len() == 0 && r.removed.len() == 0
            },
            self.complete ==> {
                &&& final(answers).answers() == merged(old(answers).answers(), self.votes@, now)
                &&& texts(r.removed@) == old(answers).keys().filter(
                    |k: Seq<char>| is_removed(old(answers).answers(), self.votes@, k),
                )
                &&& texts(r.added@) == self.votes.keys().filter(
                    |k: Seq<char>| is_added(old(answers).answers(), self.votes@, k),
                )
                &&& texts(r.corrected@) == self.votes.keys().filter(
                    |k: Seq<char>| is_corrected(old(answers).answers(), self.votes@, k),
                )
            },
    {
        if self.complete {
            merge_reconciled_answers(answers, &self.votes, now)
        } else {
            ReconciliationSummary { added: Vec::new(), corrected: Vec::new(), removed: Vec::new() }
        }
    }
}

/// Reactions count the same however they are cut into pages.
pub proof fn law_pages_read_as_one(
    start: Map<Seq<char>, u8>,
    first: Seq<RelatedView>,
    second: Seq<RelatedView>,
    own_id: Option<Seq<char>>,
)
    ensures
        server_votes(server_votes(start, first, own_id), second, own_id) == server_votes(
            start,
            first + second,
            own_id,
        ),
    decreases second.len(),
{
    if second.len() == 0 {
        assert(first + second =~= first);
    } else {
        law_pages_read_as_one(start, first, second.drop_last(), own_id);
        assert((first + second).drop_last() =~= first + second.drop_last());
        assert((first + second).last() == second.last());
    }
}

/// Whether a message is an answer of `user`.
pub open spec fn is_vote_of(e: RelatedView, own_id: Option<Seq<char>>, user: Seq<char>) -> bool {
    is_vote(e, own_id) && e->sender == user
}

proof fn lemma_no_vote(events: Seq<RelatedView>, own_id: Option<Seq<char>>, user: Seq<char>)
    requires
        forall|j: int| 0 <= j < events.len() ==> !is_vote_of(#[trigger] events[j], own_id, user),
    ensures
        !server_votes(Map::empty(), events, own_id).dom().contains(user),
    decreases events.len(),
{
    if events.len() > 0 {
        let init: Seq<RelatedView> = events.drop_last();
        assert forall|j: int| 0 <= j < init.len() implies !is_vote_of(
            #[trigger] init[j],
            own_id,
            user,
        ) by {
            assert(init[j] == events[j]);
        }
        lemma_no_vote(init, own_id, user);
        assert(!is_vote_of(events[events.len() - 1], own_id, user));
    }
}

/// The newest reaction of a user counts.
pub proof fn law_newest_reaction_counts(
    events: Seq<RelatedView>,
    own_id: Option<Seq<char>>,
    user: Seq<char>,
    i: int,
)
    requires
        0 <= i < events.len(),
        is_vote_of(events[i], own_id, user),
        forall|j: int| 0 <= j < i ==> !is_vote_of(#[trigger] events[j], own_id, user),
    ensures
        server_votes(Map::empty(), events, own_id).dom().contains(user),
        Some(server_votes(Map::empty(), events, own_id)[user]) == choice_of_emoji(
            events[i]->key,
        ),
    decreases events.len(),
{
    let init: Seq<RelatedView> = events.drop_last();
    if i < init.len() {
        assert forall|j: int| 0 <= j < i implies !is_vote_of(
            #[trigger] init[j],
            own_id,
            user,
        ) by {
            assert(init[j] == events[j]);
        }
        law_newest_reaction_counts(init, own_id, user, i);
    } else {
        assert forall|j: int| 0 <= j < init.len() implies !is_vote_of(
            #[trigger] init[j],
            own_id,
            user,
        ) by {
            assert(init[j] == events[j]);
        }
        lemma_no_vote(init, own_id, user);
    }
}

/// The marks that the bot puts under a question are no answers.
pub proof fn law_own_reactions_do_not_count(events: Seq<RelatedView>, own_id: Seq<char>)
    ensures
        !server_votes(Map::empty(), events, Some(own_id)).dom().contains(own_id),
{
    assert forall|j: int| 0 <= j < events.len() implies !is_vote_of(
        #[trigger] events[j],
        Some(own_id),
        own_id,
    ) by {
    }
    lemma_no_vote(events, Some(own_id), own_id);
}

} // verus!
