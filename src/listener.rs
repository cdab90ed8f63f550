use vstd::prelude::*;

use crate::models::{Snapshot, Snapshots};

verus! {

/// Progress of a replay of past blocks, in hundredths of a percent, once it is done.
pub const FULL_PROGRESS: u32 = 10000;

/// One notification of the chain scanner. `L` is the log as the scanner hands it over.
#[derive(Debug)]
pub enum Update<L> {
    /// A log, with the number of the block that holds it when the scanner knows it.
    NewLog { log: L, block_number: Option<u64> },
    /// A batch of past blocks was scanned; `progress` is in hundredths of a percent.
    PastBatchCompleted { from_block: u64, to_block: u64, progress: u32 },
    /// A new block was produced.
    NewBlock(u64),
}

/// What the listener asks to be done for an update, in this order.
#[derive(Debug)]
pub enum Action<L> {
    /// Extract the candidates of the log and acknowledge them.
    HandleLog { log: L, block_number: u64 },
    /// Run the answering sweep over the chain's active oracles.
    AnswerActiveOracles,
    /// Record the block as the chain's checkpoint.
    UpdateCheckpoint(u64),
}

/// The dispatcher of one chain's updates.
pub struct Listener {
    pub chain_id: u64,
    pub template_id: u64,
    /// Whether past blocks are still being replayed.
    pub scanning_past: bool,
}

/// The replay flag after `u`.
pub open spec fn next_scanning_past<L>(scanning_past: bool, u: Update<L>) -> bool {
    match u {
        Update::PastBatchCompleted { progress, .. } => scanning_past && progress != FULL_PROGRESS,
        _ => scanning_past,
    }
}

/// The checkpoint that `u` writes, if any.
pub open spec fn checkpoint_write<L>(scanning_past: bool, u: Update<L>) -> Option<u64> {
    match u {
        Update::NewLog { .. } => None,
        Update::PastBatchCompleted { to_block, .. } => Some(to_block),
        Update::NewBlock(n) => if scanning_past {
            None
        } else {
            Some(n)
        },
    }
}

/// The block that an update speaks of, if any.
pub open spec fn event_block<L>(u: Update<L>) -> Option<u64> {
    match u {
        Update::NewLog { block_number, .. } => block_number,
        Update::PastBatchCompleted { to_block, .. } => Some(to_block),
        Update::NewBlock(n) => Some(n),
    }
}

/// The replay flag and the last checkpoint written after the updates `us`,
/// starting from the flag `scanning_past` and the checkpoint `checkpoint`.
pub open spec fn replay<L>(scanning_past: bool, checkpoint: Option<u64>, us: Seq<Update<L>>) -> (
    bool,
    Option<u64>,
)
    decreases us.len(),
{
    if us.len() == 0 {
        (scanning_past, checkpoint)
    } else {
        let (p, c) = replay(scanning_past, checkpoint, us.drop_last());
        let next_c = match checkpoint_write(p, us.last()) {
            Some(b) => Some(b),
            None => c,
        };
        (next_scanning_past(p, us.last()), next_c)
    }
}

/// The largest block that the updates `us` speak of, or 0 when none does.
pub open spec fn max_block<L>(us: Seq<Update<L>>) -> u64
    decreases us.len(),
{
    if us.len() == 0 {
        0
    } else {
        let m = max_block(us.drop_last());
        match event_block(us.last()) {
            Some(b) => if b > m {
                b
            } else {
                m
            },
            None => m,
        }
    }
}

/// Whether `u` reports that the replay of past blocks is complete.
pub open spec fn completes_replay<L>(u: Update<L>) -> bool {
    match u {
        Update::PastBatchCompleted { progress, .. } => progress == FULL_PROGRESS,
        _ => false,
    }
}

/// Whether a replay of past blocks completed among the updates `us`.
pub open spec fn replay_completed<L>(us: Seq<Update<L>>) -> bool {
    exists|i: int| 0 <= i < us.len() && completes_replay(#[trigger] us[i])
}

/// The actions for an update, in the order they are to be run.
pub open spec fn actions_for<L>(scanning_past: bool, u: Update<L>) -> Seq<Action<L>> {
    match u {
        Update::NewLog { log, block_number } => match block_number {
            Some(b) => seq![Action::HandleLog { log, block_number: b }],
            None => Seq::empty(),
        },
        Update::PastBatchCompleted { to_block, .. } => seq![Action::UpdateCheckpoint(to_block)],
        Update::NewBlock(n) => if scanning_past {
            seq![Action::AnswerActiveOracles]
        } else {
            seq![Action::AnswerActiveOracles, Action::UpdateCheckpoint(n)]
        },
    }
}

impl Listener {
    /// A listener for one chain, in the replay of past blocks.
    pub fn new(chain_id: u64, template_id: u64) -> (r: Listener)
        ensures
            r.chain_id == chain_id,
            r.template_id == template_id,
            r.scanning_past,
    {
        Listener { chain_id, template_id, scanning_past: true }
    }

    /// A log is handled only where its block is known.
    fn on_log<L>(&self, log: L, block_number: Option<u64>) -> (r: Vec<Action<L>>)
        ensures
            r@ == actions_for(self.scanning_past, Update::NewLog { log, block_number }),
    {
        let mut actions: Vec<Action<L>> = Vec::new();
        match block_number {
            Some(b) => actions.push(Action::HandleLog { log, block_number: b }),
            None => {},
        }
        proof {
            assert(actions@ =~= actions_for(self.scanning_past, Update::NewLog { log, block_number }));
        }
        actions
    }

    /// Records `block_number` as this chain's checkpoint.
    pub fn update_checkpoint_block_number(&self, store: &mut Snapshots, block_number: u64)
        ensures
            final(store)@ == old(store)@.insert(self.chain_id, block_number),
    {
        Snapshot::update(store, self.chain_id, block_number);
    }

    /// Routes one update. A completed replay of past blocks ends the replay; the
    /// checkpoint moves to the end of each past batch, and to each new block only
    /// once the replay has ended, after the answering sweep of that block.
    pub fn on_update<L>(&mut self, update: Update<L>) -> (r: Vec<Action<L>>)
        ensures
            final(self).chain_id == old(self).chain_id,
            final(self).template_id == old(self).template_id,
            final(self).scanning_past == next_scanning_past(old(self).scanning_past, update),
            r@ == actions_for(old(self).scanning_past, update),
    {
        match update {
            Update::NewLog { log, block_number } => self.on_log(log, block_number),
            Update::PastBatchCompleted { to_block, progress, .. } => {
                if progress == FULL_PROGRESS {
                    self.scanning_past = false;
                }
                let mut actions: Vec<Action<L>> = Vec::new();
                actions.push(Action::UpdateCheckpoint(to_block));
                proof {
                    assert(actions@ =~= actions_for(old(self).scanning_past, update));
                }
                actions
            },
            Update::NewBlock(block_number) => {
                let mut actions: Vec<Action<L>> = Vec::new();
                actions.push(Action::AnswerActiveOracles);
                if !self.scanning_past {
                    actions.push(Action::UpdateCheckpoint(block_number));
                }
                proof {
                    assert(actions@ =~= actions_for(old(self).scanning_past, update));
                }
                actions
            },
        }
    }
}

/// After any prefix of a chain's updates, the checkpoint is the block of one of
/// the updates processed, and no update processed spoke of a later block.
pub proof fn lemma_checkpoint_never_ahead<L>(us: Seq<Update<L>>)
    ensures
        replay(true, None, us).1 matches Some(c) ==> c <= max_block(us) && exists|i: int|
            0 <= i < us.len() && event_block(#[trigger] us[i]) == Some(c),
    decreases us.len(),
{
    if us.len() > 0 {
        let init = us.drop_last();
        lemma_checkpoint_never_ahead(init);
        lemma_max_block_grows(init, us);
        let (p, c) = replay(true, None::<u64>, init);
        if let Some(c2) = replay(true, None::<u64>, us).1 {
            if checkpoint_write(p, us.last()) is Some {
                assert(event_block(us[us.len() - 1]) == Some(c2));
            } else {
                let i = choose|i: int| 0 <= i < init.len() && event_block(#[trigger] init[i]) == Some(c2);
                assert(us[i] == init[i]);
            }
        }
    }
}

proof fn lemma_max_block_grows<L>(init: Seq<Update<L>>, us: Seq<Update<L>>)
    requires
        us.len() > 0,
        init == us.drop_last(),
    ensures
        max_block(init) <= max_block(us),
        event_block(us.last()) matches Some(b) ==> b <= max_block(us),
{
}

/// Where the updates arrive in block order, the checkpoint never passes the block
/// of the last update processed.
pub proof fn lemma_checkpoint_not_past_last_update<L>(us: Seq<Update<L>>, last: u64)
    requires
        us.len() > 0,
        event_block(us.last()) == Some(last),
        forall|i: int| 0 <= i < us.len() ==> (event_block(#[trigger] us[i]) matches Some(b) ==> b <= last),
    ensures
        replay(true, None, us).1 matches Some(c) ==> c <= last,
{
    lemma_checkpoint_never_ahead(us);
    if let Some(c) = replay(true, None::<u64>, us).1 {
        let i = choose|i: int| 0 <= i < us.len() && event_block(#[trigger] us[i]) == Some(c);
    }
}

/// The replay of past blocks has ended exactly when a past batch reported full
/// progress.
pub proof fn lemma_replay_ends_on_full_progress<L>(us: Seq<Update<L>>)
    ensures
        replay(true, None, us).0 == !replay_completed(us),
    decreases us.len(),
{
    if us.len() > 0 {
        let init = us.drop_last();
        lemma_replay_ends_on_full_progress(init);
        if replay_completed(init) {
            let i = choose|i: int| 0 <= i < init.len() && completes_replay(#[trigger] init[i]);
            assert(us[i] == init[i]);
        }
        if replay_completed(us) && !completes_replay(us.last()) {
            let i = choose|i: int| 0 <= i < us.len() && completes_replay(#[trigger] us[i]);
            assert(init[i] == us[i]);
        }
    }
}

/// While past blocks are replayed only a completed past batch moves the checkpoint.
/// Once the replay has ended, each new block moves it, after the answering sweep of
/// that block.
pub proof fn lemma_checkpoint_order<L>(u: Update<L>, n: u64)
    ensures
        checkpoint_write(true, u) is Some ==> u is PastBatchCompleted,
        actions_for(true, Update::<L>::NewBlock(n)) == seq![Action::<L>::AnswerActiveOracles],
        actions_for(false, Update::<L>::NewBlock(n)) == seq![
            Action::<L>::AnswerActiveOracles,
            Action::<L>::UpdateCheckpoint(n),
        ],
{
}

} // verus!
