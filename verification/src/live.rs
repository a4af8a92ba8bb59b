use vstd::prelude::*;

use crate::strmap::{map_at, map_has, map_index, map_wf, lemma_map_index_unique, AssocMap};
use crate::config::{lemma_insert_frame, lemma_remove_frame};
use vstd::arithmetic::power2::pow2;

verus! {

#[verifier::external_type_specification]
#[verifier::external_body]
#[verifier::reject_recursive_types(T)]
pub struct ExSender<T>(tokio::sync::mpsc::Sender<T>);

#[verifier::external_type_specification]
#[verifier::external_body]
#[verifier::reject_recursive_types(T)]
pub struct ExReceiver<T>(tokio::sync::mpsc::Receiver<T>);

/// The sending half of one subscriber's notification channel. The payload
/// is empty: a message only means "something changed, re-fetch".
pub struct NotifyHandle {
    pub tx: tokio::sync::mpsc::Sender<()>,
}

impl View for NotifyHandle {
    type V = ();

    open spec fn view(&self) -> () {
        ()
    }
}

/// How many unread notifications a subscriber may pile up before further
/// ones are dropped.
pub const NOTIFY_CAPACITY: usize = 10;

/// Relies on tokio::sync::mpsc::channel: returns a connected bounded
/// sender/receiver pair. A capacity of zero, or one beyond the semaphore's
/// permit limit, panics there, so both are excluded.
#[verifier::external_body]
fn notify_channel(capacity: usize) -> (tokio::sync::mpsc::Sender<()>, tokio::sync::mpsc::Receiver<
    (),
>)
    requires
        1 <= capacity <= usize::MAX >> 3,
{
    tokio::sync::mpsc::channel(capacity)
}

/// Relies on tokio::sync::mpsc::Sender::try_send: queues one message
/// without blocking and reports failure when the queue is full or the
/// receiver is gone; nothing is promised about which outcome occurs.
#[verifier::external_body]
fn try_notify(tx: &tokio::sync::mpsc::Sender<()>) -> bool {
    tx.try_send(()).is_ok()
}

/// The registry holds `ip` as a subscriber of `ruleset`.
pub open spec fn live_has(
    m: Seq<(Seq<char>, Seq<(Seq<char>, ())>)>,
    ruleset: Seq<char>,
    ip: Seq<char>,
) -> bool {
    map_has(m, ruleset) && map_has(map_at(m, ruleset), ip)
}

/// Distinct rule-set keys, and each entry a non-empty map of distinct
/// subscriber addresses: an entry disappears with its last subscriber.
pub open spec fn live_wf(m: Seq<(Seq<char>, Seq<(Seq<char>, ())>)>) -> bool {
    map_wf(m) && forall|i: int| 0 <= i < m.len() ==> ((#[trigger] m[i].1).len() > 0 && map_wf(
        m[i].1,
    ))
}

/// Tracks, per rule set, the currently connected subscribers and the
/// sending half of each one's notification channel. Not persisted; it
/// mirrors live connections only.
pub struct LiveStateInner {
    pub clients: AssocMap<AssocMap<NotifyHandle>>,
}

impl LiveStateInner {
    pub open spec fn wf(&self) -> bool {
        live_wf(self.clients@)
    }

    pub fn new() -> (r: Self)
        ensures
            r.wf(),
            r.clients@ =~= Seq::<(Seq<char>, Seq<(Seq<char>, ())>)>::empty(),
    {
        LiveStateInner { clients: AssocMap::new() }
    }

    /// Registers `ip` as a subscriber of `ruleset` and hands back the
    /// receiving half of a fresh channel. Re-registering replaces the
    /// previous channel, whose receiver goes permanently silent.
    pub fn add_client(&mut self, ip: String, ruleset: String) -> (r: tokio::sync::mpsc::Receiver<
        (),
    >)
        requires
            old(self).wf(),
        ensures
            final(self).wf(),
            forall|rs: Seq<char>, a: Seq<char>| live_has(final(self).clients@, rs, a)
                <==> live_has(old(self).clients@, rs, a) || (rs == ruleset@ && a == ip@),
    {
        proof {
            vstd::bits::lemma_usize_shr_is_div(usize::MAX, 3);
            vstd::arithmetic::power2::lemma2_to64();
            assert(usize::MAX >= u32::MAX);
            assert(usize::MAX as nat / pow2(3) >= 10);
        }
        let (tx, rx) = notify_channel(NOTIFY_CAPACITY);
        let handle = NotifyHandle { tx };
        let ghost pre = self.clients@;
        match self.clients.index_of(&ruleset) {
            Some(i) => {
                proof {
                    lemma_map_index_unique(pre, ruleset@, i as int);
                }
                let mut subs = self.clients.take_val_at(i, AssocMap::new());
                let ghost subs_pre = subs@;
                subs.insert(ip, handle);
                proof {
                    lemma_insert_frame::<()>(subs_pre, subs@, ip@, ());
                }
                self.clients.set_val_at(i, subs);
                proof {
                    assert(self.clients@ =~= pre.update(i as int, (ruleset@, subs@)));
                    assert forall|a: int, b: int|
                        0 <= a < b < self.clients@.len() implies self.clients@[a].0
                        != self.clients@[b].0 by {
                        assert(self.clients@[a].0 == pre[a].0);
                        assert(self.clients@[b].0 == pre[b].0);
                    }
                    lemma_insert_frame::<Seq<(Seq<char>, ())>>(
                        pre,
                        self.clients@,
                        ruleset@,
                        subs@,
                    );
                    assert forall|rs: Seq<char>, a: Seq<char>|
                        live_has(self.clients@, rs, a) <==> live_has(pre, rs, a) || (rs
                        == ruleset@ && a == ip@) by {
                        if rs == ruleset@ {
                            assert(map_at(pre, rs) == subs_pre);
                            assert(map_at(self.clients@, rs) == subs@);
                        }
                    }
                    assert forall|j: int| 0 <= j < self.clients@.len() implies ((
                    #[trigger] self.clients@[j].1).len() > 0 && map_wf(self.clients@[j].1)) by {
                        if j != i {
                            assert(self.clients@[j] == pre[j]);
                        } else {
                            assert(self.clients@[j].1 == subs@);
                            assert(subs@.len() > 0) by {
                                assert(map_has(subs@, ip@));
                            }
                        }
                    }
                }
            },
            None => {
                let mut subs: AssocMap<NotifyHandle> = AssocMap::new();
                let ghost subs_pre = subs@;
                subs.insert(ip, handle);
                proof {
                    lemma_insert_frame::<()>(subs_pre, subs@, ip@, ());
                }
                self.clients.insert(ruleset, subs);
                proof {
                    lemma_insert_frame::<Seq<(Seq<char>, ())>>(
                        pre,
                        self.clients@,
                        ruleset@,
                        subs@,
                    );
                    assert forall|rs: Seq<char>, a: Seq<char>|
                        live_has(self.clients@, rs, a) <==> live_has(pre, rs, a) || (rs
                        == ruleset@ && a == ip@) by {
                        if rs == ruleset@ {
                            assert(!map_has(pre, rs));
                            assert(map_at(self.clients@, rs) == subs@);
                        }
                    }
                    assert forall|j: int| 0 <= j < self.clients@.len() implies ((
                    #[trigger] self.clients@[j].1).len() > 0 && map_wf(self.clients@[j].1)) by {
                        if j < pre.len() {
                            assert(self.clients@[j] == pre[j]);
                        } else {
                            assert(self.clients@[j].1 == subs@);
                            assert(subs@.len() > 0) by {
                                assert(map_has(subs@, ip@));
                            }
                        }
                    }
                }
            },
        }
        rx
    }

    /// Removes `ip` as a subscriber of `ruleset`, dropping the rule set's
    /// whole entry once its last subscriber is gone; a no-op otherwise.
    pub fn remove_client(&mut self, ip: String, ruleset: String)
        requires
            old(self).wf(),
        ensures
            final(self).wf(),
            forall|rs: Seq<char>, a: Seq<char>| live_has(final(self).clients@, rs, a)
                <==> live_has(old(self).clients@, rs, a) && !(rs == ruleset@ && a == ip@),
            !live_has(old(self).clients@, ruleset@, ip@) ==> *final(self) == *old(self),
    {
        let ghost pre = self.clients@;
        match self.clients.index_of(&ruleset) {
            Some(i) => {
                proof {
                    lemma_map_index_unique(pre, ruleset@, i as int);
                }
                if !self.clients.val_at(i).contains_key(&ip) {
                    proof {
                        assert(map_at(pre, ruleset@) == pre[i as int].1);
                        assert forall|rs: Seq<char>, a: Seq<char>|
                            live_has(self.clients@, rs, a) <==> live_has(pre, rs, a) && !(rs
                            == ruleset@ && a == ip@) by {}
                    }
                    return ;
                }
                let mut subs = self.clients.take_val_at(i, AssocMap::new());
                let ghost subs_pre = subs@;
                subs.remove(&ip);
                proof {
                    if map_has(subs_pre, ip@) {
                        lemma_remove_frame::<()>(subs_pre, subs@, map_index(subs_pre, ip@));
                        lemma_map_index_unique(subs_pre, ip@, map_index(subs_pre, ip@));
                    }
                }
                if subs.len() == 0 {
                    let _entry = self.clients.remove_at(i);
                    proof {
                        assert(self.clients@ =~= pre.remove(i as int)) by {
                            pre.remove_ensures(i as int);
                            let mid = pre.update(
                                i as int,
                                (ruleset@, Seq::<(Seq<char>, ())>::empty()),
                            );
                            mid.remove_ensures(i as int);
                            assert(self.clients@ =~= mid.remove(i as int));
                        }
                        lemma_remove_frame::<Seq<(Seq<char>, ())>>(pre, self.clients@, i as int);
                        assert forall|rs: Seq<char>, a: Seq<char>|
                            live_has(self.clients@, rs, a) <==> live_has(pre, rs, a) && !(rs
                            == ruleset@ && a == ip@) by {
                            if rs == ruleset@ {
                                assert(!map_has(self.clients@, rs));
                                if live_has(pre, rs, a) && a != ip@ {
                                    assert(map_at(pre, rs) == subs_pre);
                                    assert(map_has(subs@, a));
                                }
                            } else {
                                if map_has(pre, rs) {
                                    assert(map_at(self.clients@, rs) == map_at(pre, rs));
                                }
                            }
                        }
                        assert forall|j: int| 0 <= j < self.clients@.len() implies ((
                        #[trigger] self.clients@[j].1).len() > 0 && map_wf(
                            self.clients@[j].1,
                        )) by {
                            pre.remove_ensures(i as int);
                            let j0: int = if j < i { j } else { j + 1 };
                            assert(self.clients@[j] == pre[j0]);
                        }
                    }
                } else {
                    self.clients.set_val_at(i, subs);
                    proof {
                        assert(self.clients@ =~= pre.update(i as int, (ruleset@, subs@)));
                        assert forall|a: int, b: int|
                            0 <= a < b < self.clients@.len() implies self.clients@[a].0
                            != self.clients@[b].0 by {
                            assert(self.clients@[a].0 == pre[a].0);
                            assert(self.clients@[b].0 == pre[b].0);
                        }
                        lemma_insert_frame::<Seq<(Seq<char>, ())>>(
                            pre,
                            self.clients@,
                            ruleset@,
                            subs@,
                        );
                        assert forall|rs: Seq<char>, a: Seq<char>|
                            live_has(self.clients@, rs, a) <==> live_has(pre, rs, a) && !(rs
                            == ruleset@ && a == ip@) by {
                            if rs == ruleset@ {
                                assert(map_at(pre, rs) == subs_pre);
                                assert(map_at(self.clients@, rs) == subs@);
                            }
                        }
                        assert forall|j: int| 0 <= j < self.clients@.len() implies ((
                        #[trigger] self.clients@[j].1).len() > 0 && map_wf(
                            self.clients@[j].1,
                        )) by {
                            if j != i {
                                assert(self.clients@[j] == pre[j]);
                            } else {
                                assert(self.clients@[j].1 == subs@);
                            }
                        }
                    }
                }
            },
            None => {
                proof {
                    assert forall|rs: Seq<char>, a: Seq<char>|
                        live_has(self.clients@, rs, a) <==> live_has(pre, rs, a) && !(rs
                        == ruleset@ && a == ip@) by {
                        if rs == ruleset@ {
                            assert(!map_has(pre, rs));
                        }
                    }
                }
            },
        }
    }

    /// Delivers one notification to every current subscriber of `ruleset`,
    /// never blocking: a subscriber with a full queue is skipped. Returns
    /// how many subscribers accepted the message.
    pub fn notify(&self, ruleset: &String) -> (r: usize)
        requires
            self.wf(),
        ensures
            map_has(self.clients@, ruleset@) ==> r <= map_at(self.clients@, ruleset@).len(),
            !map_has(self.clients@, ruleset@) ==> r == 0,
    {
        match self.clients.index_of(ruleset) {
            Some(i) => {
                proof {
                    lemma_map_index_unique(self.clients@, ruleset@, i as int);
                }
                let subs = self.clients.val_at(i);
                let n = subs.len();
                let mut delivered: usize = 0;
                let mut j: usize = 0;
                while j < n
                    invariant
                        n == subs@.len(),
                        j <= n,
                        delivered <= j,
                    decreases n - j,
                {
                    if try_notify(&subs.val_at(j).tx) {
                        delivered = delivered + 1;
                    }
                    j = j + 1;
                }
                delivered
            },
            None => 0,
        }
    }
}

} // verus!
