use vstd::prelude::*;

use crate::codec::{decode_config, enc_config, encode_config, hash, spec_fingerprint};
use crate::config::{add_nodepool_rel, add_ruleset_rel, remove_nodepool_rel, remove_ruleset_rel,
    ConfigState, NodePool, RuleSet};

verus! {

/// Why a stored snapshot could not be used at startup.
#[derive(Clone, Copy, PartialEq, Eq, Structural, Debug)]
pub enum LoadError {
    /// The stored document exists but is not a valid snapshot.
    Corrupt,
}

/// The in-memory side of the durable snapshot store: the authoritative
/// model plus the fingerprint of the last snapshot handed out for writing.
/// Reading and writing the stored file itself stays with the caller; the
/// store only decides what to persist and when.
pub struct OnDiskState {
    pub state: ConfigState,
    pub last_saved: Option<u64>,
}

impl OnDiskState {
    pub open spec fn wf(self) -> bool {
        self.state.wf()
    }

    /// Builds the store at startup from the stored snapshot text, if one
    /// exists. No stored text falls back to the empty model; text that is
    /// not a valid snapshot is a fatal error, never silently replaced.
    pub fn start(stored: Option<Vec<char>>) -> (r: Result<OnDiskState, LoadError>)
        ensures
            match r {
                Ok(s) => s.wf() && s.last_saved is None && (match stored {
                    Some(text) => enc_config(s.state) == text@,
                    None => s.state.nodepools@.len() == 0 && s.state.rulesets@.len() == 0
                        && s.state.dependency_tree@.len() == 0,
                }),
                Err(e) => stored is Some && e == LoadError::Corrupt,
            },
    {
        match stored {
            None => Ok(OnDiskState { state: ConfigState::new(), last_saved: None }),
            Some(text) => match decode_config(&text) {
                Some(state) => Ok(OnDiskState { state, last_saved: None }),
                None => Err(LoadError::Corrupt),
            },
        }
    }

    /// One pass of the persistence loop: returns the snapshot text to
    /// write when the model's fingerprint differs from the last snapshot
    /// written, and nothing otherwise.
    pub fn tick(&mut self) -> (r: Option<Vec<char>>)
        requires
            old(self).wf(),
        ensures
            final(self).wf(),
            final(self).state == old(self).state,
            final(self).last_saved == Some(spec_fingerprint(old(self).state)),
            match r {
                Some(text) => old(self).last_saved != Some(spec_fingerprint(old(self).state))
                    && text@ == enc_config(old(self).state),
                None => old(self).last_saved == Some(spec_fingerprint(old(self).state)),
            },
    {
        let h = hash(&self.state);
        let changed = match self.last_saved {
            Some(prev) => prev != h,
            None => true,
        };
        self.last_saved = Some(h);
        if changed {
            Some(encode_config(&self.state))
        } else {
            None
        }
    }

    /// Inserts or replaces a pool; see `ConfigState::add_nodepool`.
    pub fn add_nodepool(&mut self, id: String, nodepool: NodePool)
        requires
            old(self).wf(),
            nodepool.wf(),
        ensures
            final(self).wf(),
            final(self).last_saved == old(self).last_saved,
            add_nodepool_rel(old(self).state, final(self).state, id@, nodepool@),
    {
        self.state.add_nodepool(id, nodepool);
    }

    /// Replaces a rule set; see `ConfigState::add_ruleset`.
    pub fn add_ruleset(&mut self, id: String, ruleset: RuleSet)
        requires
            old(self).wf(),
            ruleset.wf(),
        ensures
            final(self).wf(),
            final(self).last_saved == old(self).last_saved,
            add_ruleset_rel(old(self).state, final(self).state, id@, ruleset@),
    {
        self.state.add_ruleset(id, ruleset);
    }

    /// Removes a pool; see `ConfigState::remove_nodepool`.
    pub fn remove_nodepool(&mut self, id: &String)
        requires
            old(self).wf(),
        ensures
            final(self).wf(),
            final(self).last_saved == old(self).last_saved,
            remove_nodepool_rel(old(self).state, final(self).state, id@),
    {
        self.state.remove_nodepool(id);
    }

    /// Removes a rule set; see `ConfigState::remove_ruleset`.
    pub fn remove_ruleset(&mut self, id: &String)
        requires
            old(self).wf(),
        ensures
            final(self).wf(),
            final(self).last_saved == old(self).last_saved,
            remove_ruleset_rel(old(self).state, final(self).state, id@),
    {
        self.state.remove_ruleset(id);
    }
}

/// The effect of one `tick`, abstracted over states and the written text.
pub open spec fn tick_rel(pre: OnDiskState, post: OnDiskState, wrote: Option<Seq<char>>) -> bool {
    &&& post.state == pre.state
    &&& post.last_saved == Some(spec_fingerprint(pre.state))
    &&& (match wrote {
        Some(text) => pre.last_saved != Some(spec_fingerprint(pre.state)) && text == enc_config(
            pre.state,
        ),
        None => pre.last_saved == Some(spec_fingerprint(pre.state)),
    })
}

/// Of two consecutive persistence passes with no mutation in between, the
/// first writes exactly when the model is not yet on disk, and the second
/// never writes.
pub proof fn lemma_tick_writes_once(
    s0: OnDiskState,
    s1: OnDiskState,
    s2: OnDiskState,
    w1: Option<Seq<char>>,
    w2: Option<Seq<char>>,
)
    requires
        tick_rel(s0, s1, w1),
        tick_rel(s1, s2, w2),
    ensures
        w2 is None,
        s0.last_saved is None ==> w1 is Some,
{
}

/// Reloading a written snapshot restores a state with the same document
/// and hence the same fingerprint as the one that was written.
pub proof fn lemma_snapshot_round_trip(written: OnDiskState, reloaded: OnDiskState, text: Seq<char>)
    requires
        text == enc_config(written.state),
        enc_config(reloaded.state) == text,
    ensures
        spec_fingerprint(reloaded.state) == spec_fingerprint(written.state),
{
}

} // verus!
