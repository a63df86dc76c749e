//! Bookkeeping of shown notifications that may still be clicked.
//!
//! A shown notification stays pending for ten minutes: a click within that
//! time delivers its activation, late context from the page updates it, and
//! a cleanup worker drops it once its deadline has passed. Time is given as
//! nanoseconds on a monotonic clock; the worker's waiting is the caller's,
//! and [`cleanup_pending_notifications`] decides what each wake-up does.

use vstd::prelude::*;

use crate::notifications::{usable_context, NotificationActivation};
use crate::downloads::opt_string_view;
use crate::text::{decimal, decimal_string};

verus! {

/// How long a shown notification stays pending: ten minutes, in nanoseconds.
pub const PENDING_RETENTION: u64 = 600_000_000_000;

/// A shown notification that may still be clicked. `H` is the handle of the
/// application that showed it, carried through untouched.
pub struct PendingNativeNotification<H> {
    pub app_handle: H,
    pub origin_label: String,
    pub activation: NotificationActivation,
    pub created_at: u64,
}

/// The id under which a pending notification is kept: its activation's.
pub open spec fn pending_id<H>(e: PendingNativeNotification<H>) -> Seq<char> {
    e.activation@.0
}

/// Time elapsed from `from` to `now`, zero when `now` is earlier.
pub open spec fn elapsed(from: u64, now: u64) -> nat {
    if now >= from {
        (now - from) as nat
    } else {
        0
    }
}

/// Whether a notification created at `created_at` is still pending at `now`.
pub open spec fn is_fresh(created_at: u64, now: u64) -> bool {
    elapsed(created_at, now) < PENDING_RETENTION
}

/// The pending notifications of a sequence, keyed by id; a later entry
/// stands for an earlier one with the same id.
pub open spec fn seq_map<H>(s: Seq<PendingNativeNotification<H>>) -> Map<
    Seq<char>,
    PendingNativeNotification<H>,
>
    decreases s.len(),
{
    if s.len() == 0 {
        Map::empty()
    } else {
        seq_map(s.drop_last()).insert(pending_id(s.last()), s.last())
    }
}

pub open spec fn distinct_ids<H>(s: Seq<PendingNativeNotification<H>>) -> bool {
    forall|i: int, j: int|
        0 <= i < j < s.len() ==> pending_id(#[trigger] s[i]) != pending_id(#[trigger] s[j])
}

pub open spec fn filter_fresh<H>(s: Seq<PendingNativeNotification<H>>, now: u64) -> Seq<
    PendingNativeNotification<H>,
>
    decreases s.len(),
{
    if s.len() == 0 {
        s
    } else if is_fresh(s.last().created_at, now) {
        filter_fresh(s.drop_last(), now).push(s.last())
    } else {
        filter_fresh(s.drop_last(), now)
    }
}

/// The notifications still pending at `now`.
pub open spec fn expire<H>(m: Map<Seq<char>, PendingNativeNotification<H>>, now: u64) -> Map<
    Seq<char>,
    PendingNativeNotification<H>,
> {
    Map::new(
        |id: Seq<char>| m.dom().contains(id) && is_fresh(m[id].created_at, now),
        |id: Seq<char>| m[id],
    )
}

proof fn lemma_seq_map_dom<H>(s: Seq<PendingNativeNotification<H>>)
    requires
        distinct_ids(s),
    ensures
        forall|id: Seq<char>|
            seq_map(s).dom().contains(id) <==> exists|i: int|
                0 <= i < s.len() && pending_id(#[trigger] s[i]) == id,
        forall|i: int| 0 <= i < s.len() ==> seq_map(s)[pending_id(#[trigger] s[i])] == s[i],
    decreases s.len(),
{
    if s.len() > 0 {
        let init = s.drop_last();
        assert(distinct_ids(init)) by {
            assert forall|i: int, j: int| 0 <= i < j < init.len() implies pending_id(
                #[trigger] init[i],
            ) != pending_id(#[trigger] init[j]) by {
                assert(init[i] == s[i] && init[j] == s[j]);
            }
        }
        lemma_seq_map_dom(init);
        assert forall|id: Seq<char>|
            seq_map(s).dom().contains(id) implies exists|i: int|
                0 <= i < s.len() && pending_id(#[trigger] s[i]) == id by {
            if id == pending_id(s.last()) {
                assert(pending_id(s[s.len() - 1]) == id);
            } else {
                assert(seq_map(init).dom().contains(id));
                let i = choose|i: int| 0 <= i < init.len() && pending_id(#[trigger] init[i]) == id;
                assert(s[i] == init[i]);
            }
        }
        assert forall|id: Seq<char>|
            (exists|i: int| 0 <= i < s.len() && pending_id(#[trigger] s[i]) == id) implies seq_map(
            s,
        ).dom().contains(id) by {
            let i = choose|i: int| 0 <= i < s.len() && pending_id(#[trigger] s[i]) == id;
            if i < s.len() - 1 {
                assert(init[i] == s[i]);
            }
        }
        assert forall|i: int| 0 <= i < s.len() implies seq_map(s)[pending_id(#[trigger] s[i])]
            == s[i] by {
            if i < s.len() - 1 {
                assert(init[i] == s[i]);
                assert(pending_id(s[i]) != pending_id(s[s.len() - 1]));
            }
        }
    }
}

proof fn lemma_filter_fresh<H>(s: Seq<PendingNativeNotification<H>>, now: u64)
    requires
        distinct_ids(s),
    ensures
        distinct_ids(filter_fresh(s, now)),
        seq_map(filter_fresh(s, now)) == expire(seq_map(s), now),
        forall|e: PendingNativeNotification<H>|
            filter_fresh(s, now).contains(e) ==> s.contains(e) && is_fresh(e.created_at, now),
    decreases s.len(),
{
    if s.len() > 0 {
        let init = s.drop_last();
        let last = s.last();
        assert(distinct_ids(init)) by {
            assert forall|i: int, j: int| 0 <= i < j < init.len() implies pending_id(
                #[trigger] init[i],
            ) != pending_id(#[trigger] init[j]) by {
                assert(init[i] == s[i] && init[j] == s[j]);
            }
        }
        lemma_filter_fresh(init, now);
        lemma_seq_map_dom(init);
        assert(seq_map(s) == seq_map(init).insert(pending_id(last), last));
        let f = filter_fresh(init, now);
        assert(!seq_map(init).dom().contains(pending_id(last))) by {
            if seq_map(init).dom().contains(pending_id(last)) {
                let i = choose|i: int| 0 <= i < init.len() && pending_id(#[trigger] init[i]) == pending_id(last);
                assert(init[i] == s[i]);
                assert(s[s.len() - 1] == last);
            }
        }
        assert forall|e: PendingNativeNotification<H>| f.contains(e) implies pending_id(e) != pending_id(
            last,
        ) by {
            assert(init.contains(e));
            let i = choose|i: int| 0 <= i < init.len() && init[i] == e;
            assert(seq_map(init).dom().contains(pending_id(init[i])));
        }
        if is_fresh(last.created_at, now) {
            let f2 = f.push(last);
            assert forall|i: int, j: int| 0 <= i < j < f2.len() implies pending_id(
                #[trigger] f2[i],
            ) != pending_id(#[trigger] f2[j]) by {
                if j == f2.len() - 1 {
                    assert(f.contains(f2[i]));
                } else {
                    assert(f2[i] == f[i] && f2[j] == f[j]);
                }
            }
            assert forall|e: PendingNativeNotification<H>| f2.contains(e) implies s.contains(e)
                && is_fresh(e.created_at, now) by {
                let i = choose|i: int| 0 <= i < f2.len() && f2[i] == e;
                if i < f.len() {
                    assert(f2[i] == f[i]);
                    assert(f.contains(e));
                    assert(init.contains(e));
                    let j = choose|j: int| 0 <= j < init.len() && init[j] == e;
                    assert(init[j] == s[j]);
                    assert(s[j] == e);
                } else {
                    assert(s[s.len() - 1] == e);
                }
            }
            assert(f2.drop_last() =~= f);
            assert(seq_map(f2) == seq_map(f).insert(pending_id(last), last));
            assert(seq_map(f2) =~= expire(seq_map(s), now));
        } else {
            assert forall|e: PendingNativeNotification<H>| f.contains(e) implies s.contains(e)
                && is_fresh(e.created_at, now) by {
                assert(init.contains(e));
                let j = choose|j: int| 0 <= j < init.len() && init[j] == e;
                assert(init[j] == s[j]);
                assert(s[j] == e);
            }
            assert(seq_map(f) =~= expire(seq_map(s), now));
        }
    }
}

/// The notifications that may still be clicked, keyed by id.
pub struct PendingNotifications<H> {
    entries: Vec<PendingNativeNotification<H>>,
}

impl<H> View for PendingNotifications<H> {
    type V = Map<Seq<char>, PendingNativeNotification<H>>;

    /// The pending notifications by id.
    closed spec fn view(&self) -> Map<Seq<char>, PendingNativeNotification<H>> {
        seq_map(self.entries@)
    }
}

impl<H> PendingNotifications<H> {
    #[verifier::type_invariant]
    spec fn entries_distinct(self) -> bool {
        distinct_ids(self.entries@)
    }

    pub fn new() -> (r: Self)
        ensures
            r.view() == Map::<Seq<char>, PendingNativeNotification<H>>::empty(),
    {
        PendingNotifications { entries: Vec::new() }
    }

    /// The position of the notification with this id, if pending.
    fn find(&self, id: &str) -> (r: Option<usize>)
        ensures
            match r {
                Some(i) => i < self.entries@.len() && pending_id(self.entries@[i as int]) == id@,
                None => !self.view().dom().contains(id@),
            },
    {
        proof {
            use_type_invariant(self);
            lemma_seq_map_dom(self.entries@);
        }
        let mut i: usize = 0;
        while i < self.entries.len()
            invariant
                i <= self.entries@.len(),
                forall|k: int| 0 <= k < i ==> pending_id(#[trigger] self.entries@[k]) != id@,
            decreases self.entries@.len() - i,
        {
            if crate::text::chars_eq_str(
                &crate::text::chars_of(self.entries[i].activation.notification_id()),
                id,
            ) {
                return Some(i);
            }
            i = i + 1;
        }
        None
    }

    /// Whether a notification with this id is pending.
    pub fn contains(&self, id: &str) -> (b: bool)
        ensures
            b == self.view().dom().contains(id@),
    {
        proof {
            use_type_invariant(self);
            lemma_seq_map_dom(self.entries@);
        }
        match self.find(id) {
            Some(i) => true,
            None => false,
        }
    }

    /// Removes the entry at position `i`.
    fn remove_at(&mut self, i: usize) -> (e: PendingNativeNotification<H>)
        requires
            i < old(self).entries@.len(),
        ensures
            e == old(self).entries@[i as int],
            old(self).view().dom().contains(pending_id(e)),
            old(self).view()[pending_id(e)] == e,
            final(self).view() == old(self).view().remove(pending_id(e)),
    {
        proof {
            use_type_invariant(&*self);
        }
        let mut entries: Vec<PendingNativeNotification<H>> = Vec::new();
        std::mem::swap(&mut entries, &mut self.entries);
        let ghost before = entries@;
        let e = entries.remove(i);
        proof {
            lemma_seq_map_remove(before, i as int);
        }
        self.entries = entries;
        e
    }

    /// Adds a notification that is not pending yet.
    fn add(&mut self, e: PendingNativeNotification<H>)
        requires
            !old(self).view().dom().contains(pending_id(e)),
        ensures
            final(self).view() == old(self).view().insert(pending_id(e), e),
    {
        proof {
            use_type_invariant(&*self);
            lemma_seq_map_dom(self.entries@);
        }
        let mut entries: Vec<PendingNativeNotification<H>> = Vec::new();
        std::mem::swap(&mut entries, &mut self.entries);
        let ghost before = entries@;
        entries.push(e);
        proof {
            assert(entries@.drop_last() =~= before);
            assert forall|i: int, j: int| 0 <= i < j < entries@.len() implies pending_id(
                #[trigger] entries@[i],
            ) != pending_id(#[trigger] entries@[j]) by {
                if j == entries@.len() - 1 {
                    assert(entries@[i] == before[i]);
                    assert(seq_map(before).dom().contains(pending_id(before[i])));
                } else {
                    assert(entries@[i] == before[i] && entries@[j] == before[j]);
                }
            }
        }
        self.entries = entries;
    }

    /// Drops the notifications no longer pending at `now`.
    pub fn remove_expired(&mut self, now: u64)
        ensures
            final(self).view() == expire(old(self).view(), now),
    {
        proof {
            use_type_invariant(&*self);
        }
        let mut old_entries: Vec<PendingNativeNotification<H>> = Vec::new();
        std::mem::swap(&mut old_entries, &mut self.entries);
        let ghost orig = old_entries@;
        let mut kept: Vec<PendingNativeNotification<H>> = Vec::new();
        for e in it: old_entries
            invariant
                it.seq() == orig,
                kept@ == filter_fresh(orig.take(it.index() as int), now),
        {
            let ghost idx = it.index();
            assert(orig.take(idx + 1).drop_last() =~= orig.take(idx as int));
            assert(orig.take(idx + 1).last() == e);
            let age = if now >= e.created_at {
                now - e.created_at
            } else {
                0
            };
            if age < PENDING_RETENTION {
                kept.push(e);
            }
        }
        assert(orig.take(orig.len() as int) =~= orig);
        proof {
            lemma_filter_fresh(orig, now);
        }
        self.entries = kept;
    }

    /// Removes and returns the notification with this id, if pending.
    pub fn take(&mut self, id: &str) -> (r: Option<PendingNativeNotification<H>>)
        ensures
            final(self).view() == old(self).view().remove(id@),
            match r {
                Some(e) => old(self).view().dom().contains(id@) && old(self).view()[id@] == e
                    && pending_id(e) == id@,
                None => !old(self).view().dom().contains(id@),
            },
    {
        match self.find(id) {
            Some(i) => Some(self.remove_at(i)),
            None => {
                assert(self.view() =~= old(self).view().remove(id@));
                None
            },
        }
    }

    /// Removes the notification with this id if it was created at `created_at`.
    pub fn remove_if_created_at(&mut self, id: &str, created_at: u64)
        ensures
            final(self).view() == if old(self).view().dom().contains(id@) && old(self).view()[id@].created_at
                == created_at {
                old(self).view().remove(id@)
            } else {
                old(self).view()
            },
    {
        match self.find(id) {
            Some(i) => {
                if self.entries[i].created_at == created_at {
                    let _ = self.remove_at(i);
                } else {
                    proof {
                        use_type_invariant(&*self);
                        lemma_seq_map_dom(self.entries@);
                    }
                }
            },
            None => {},
        }
    }
}

proof fn lemma_seq_map_remove<H>(s: Seq<PendingNativeNotification<H>>, i: int)
    requires
        distinct_ids(s),
        0 <= i < s.len(),
    ensures
        distinct_ids(s.remove(i)),
        seq_map(s.remove(i)) == seq_map(s).remove(pending_id(s[i])),
        seq_map(s).dom().contains(pending_id(s[i])),
        seq_map(s)[pending_id(s[i])] == s[i],
{
    let r = s.remove(i);
    assert forall|a: int, b: int| 0 <= a < b < r.len() implies pending_id(#[trigger] r[a])
        != pending_id(#[trigger] r[b]) by {
        let a2 = if a < i { a } else { a + 1 };
        let b2 = if b < i { b } else { b + 1 };
        assert(r[a] == s[a2] && r[b] == s[b2]);
    }
    lemma_seq_map_dom(s);
    lemma_seq_map_dom(r);
    let k = pending_id(s[i]);
    assert forall|id: Seq<char>| seq_map(r).dom().contains(id) <==> seq_map(s).remove(k).dom().contains(id) by {
        if seq_map(r).dom().contains(id) {
            let a = choose|a: int| 0 <= a < r.len() && pending_id(#[trigger] r[a]) == id;
            let a2 = if a < i { a } else { a + 1 };
            assert(r[a] == s[a2]);
        }
        if seq_map(s).remove(k).dom().contains(id) {
            let a = choose|a: int| 0 <= a < s.len() && pending_id(#[trigger] s[a]) == id;
            assert(a != i);
            let a2 = if a < i { a } else { a - 1 };
            assert(r[a2] == s[a]);
        }
    }
    assert forall|id: Seq<char>| seq_map(r).dom().contains(id) implies seq_map(r)[id] == seq_map(s)[id] by {
        let a = choose|a: int| 0 <= a < r.len() && pending_id(#[trigger] r[a]) == id;
        let a2 = if a < i { a } else { a + 1 };
        assert(r[a] == s[a2]);
    }
    assert(seq_map(r) =~= seq_map(s).remove(k));
}

// ---------------------------------------------------------------------------
// The operations on shown notifications
// ---------------------------------------------------------------------------

/// The schedule of a cleanup: when, for which id, and for the notification
/// created at which time. A cleanup is due when the retention of the
/// registration it was made for has passed.
pub struct CleanupSchedule {
    deadline: u64,
    notification_id: String,
    created_at: u64,
}

/// The deadline of a schedule is the end of its registration's retention.
pub open spec fn schedule_well_formed(v: (u64, Seq<char>, u64)) -> bool {
    v.0 == v.2 + PENDING_RETENTION
}

/// A schedule as (deadline, notification id, creation time).
pub closed spec fn schedule_view(s: CleanupSchedule) -> (u64, Seq<char>, u64) {
    (s.deadline, s.notification_id@, s.created_at)
}

impl CleanupSchedule {
    #[verifier::type_invariant]
    spec fn deadline_ends_retention(self) -> bool {
        self.deadline == self.created_at + PENDING_RETENTION
    }

    /// The cleanup of the notification `notification_id` registered at
    /// `created_at`, due when its retention ends.
    pub fn new(notification_id: String, created_at: u64) -> (r: Self)
        requires
            created_at as int + PENDING_RETENTION as int <= u64::MAX,
        ensures
            schedule_view(r) == ((created_at + PENDING_RETENTION) as u64, notification_id@, created_at),
    {
        CleanupSchedule { deadline: created_at + PENDING_RETENTION, notification_id, created_at }
    }

    pub fn deadline(&self) -> (r: u64)
        ensures
            r == schedule_view(*self).0,
            schedule_well_formed(schedule_view(*self)),
    {
        proof {
            use_type_invariant(self);
        }
        self.deadline
    }

    pub fn notification_id(&self) -> (r: &str)
        ensures
            r@ == schedule_view(*self).1,
    {
        self.notification_id.as_str()
    }

    pub fn created_at(&self) -> (r: u64)
        ensures
            r == schedule_view(*self).2,
    {
        self.created_at
    }
}

/// Records a shown notification, after dropping those no longer pending, and
/// returns its id with the cleanup to schedule for it.
pub fn register_pending_notification<H>(
    store: &mut PendingNotifications<H>,
    app_handle: H,
    origin_label: String,
    activation: NotificationActivation,
    now: u64,
) -> (r: (String, CleanupSchedule))
    requires
        now as int + PENDING_RETENTION as int <= u64::MAX,
    ensures
        r.0@ == activation@.0,
        schedule_view(r.1) == ((now + PENDING_RETENTION) as u64, activation@.0, now),
        final(store).view() == expire(old(store).view(), now).insert(
            activation@.0,
            PendingNativeNotification { app_handle, origin_label, activation, created_at: now },
        ),
{
    let notification_id = activation.notification_id().to_owned();
    store.remove_expired(now);
    let _ = store.take(notification_id.as_str());
    let ghost before = store.view();
    let entry = PendingNativeNotification { app_handle, origin_label, activation, created_at: now };
    store.add(entry);
    assert(store.view() =~= expire(old(store).view(), now).insert(activation@.0, entry)) by {
        assert(before =~= expire(old(store).view(), now).remove(activation@.0));
    }
    let schedule = CleanupSchedule::new(notification_id.clone(), now);
    (notification_id, schedule)
}

/// Forgets the notification with this id (it was dismissed or failed to show).
pub fn remove_pending_notification<H>(store: &mut PendingNotifications<H>, notification_id: &str)
    ensures
        final(store).view() == old(store).view().remove(notification_id@),
{
    let _ = store.take(notification_id);
}

/// Takes the notification with this id for delivery, if it is still pending
/// at `now`; the notifications no longer pending are dropped.
pub fn dispatch_pending_notification<H>(
    store: &mut PendingNotifications<H>,
    notification_id: &str,
    now: u64,
) -> (r: Option<PendingNativeNotification<H>>)
    ensures
        final(store).view() == expire(old(store).view(), now).remove(notification_id@),
        match r {
            Some(e) => expire(old(store).view(), now).dom().contains(notification_id@) && expire(
                old(store).view(),
                now,
            )[notification_id@] == e,
            None => !expire(old(store).view(), now).dom().contains(notification_id@),
        },
{
    store.remove_expired(now);
    store.take(notification_id)
}

/// Applies late context from the page to a pending notification; the
/// notifications no longer pending at `now` are dropped.
pub fn update_notification_context<H>(
    store: &mut PendingNotifications<H>,
    notification_id: &str,
    team_id: Option<String>,
    channel_id: Option<String>,
    now: u64,
)
    ensures
        ({
            let m = expire(old(store).view(), now);
            if m.dom().contains(notification_id@) {
                &&& final(store).view().dom() == m.dom()
                &&& (forall|id: Seq<char>|
                    #![trigger final(store).view()[id]]
                    m.dom().contains(id) && id != notification_id@ ==> final(store).view()[id]
                        == m[id])
                &&& ({
                    let e = final(store).view()[notification_id@];
                    let o = m[notification_id@];
                    e.app_handle == o.app_handle && e.origin_label == o.origin_label && e.created_at
                        == o.created_at && e.activation@ == (
                        o.activation@.0,
                        usable_context(opt_string_view(team_id)),
                        usable_context(opt_string_view(channel_id)),
                    )
                })
            } else {
                final(store).view() == m
            }
        }),
{
    store.remove_expired(now);
    let ghost m = store.view();
    match store.take(notification_id) {
        Some(mut e) => {
            e.activation.update_context(team_id, channel_id);
            store.add(e);
            assert(store.view().dom() =~= m.dom());
        },
        None => {
            assert(store.view() =~= m);
        },
    }
}

/// Handles the answer of the platform to a shown notification: a click
/// takes it for delivery (if still pending at `now`), anything else forgets it.
pub fn respond_to_notification<H>(
    store: &mut PendingNotifications<H>,
    notification_id: &str,
    activated: bool,
    now: u64,
) -> (r: Option<PendingNativeNotification<H>>)
    ensures
        activated ==> final(store).view() == expire(old(store).view(), now).remove(notification_id@)
            && match r {
            Some(e) => expire(old(store).view(), now).dom().contains(notification_id@) && expire(
                old(store).view(),
                now,
            )[notification_id@] == e,
            None => !expire(old(store).view(), now).dom().contains(notification_id@),
        },
        !activated ==> r is None && final(store).view() == old(store).view().remove(notification_id@),
{
    if activated {
        dispatch_pending_notification(store, notification_id, now)
    } else {
        remove_pending_notification(store, notification_id);
        None
    }
}

/// The id of the `n`-th local notification, one never registered for
/// activation: `zlack-local-n`.
pub fn local_notification_id(n: u64) -> (r: String)
    ensures
        r@ == "zlack-local-"@ + decimal(n as nat),
{
    let mut r = "zlack-local-".to_owned();
    let d = decimal_string(n);
    r.append(d.as_str());
    r
}

// ---------------------------------------------------------------------------
// The cleanup worker
// ---------------------------------------------------------------------------

pub type ScheduleView = (u64, Seq<char>, u64);

/// The cleanups waiting for their deadline, in no particular order.
pub struct CleanupDeadlines {
    items: Vec<CleanupSchedule>,
}

/// The schedules whose deadline is still ahead of `now`.
pub open spec fn not_due(ds: Seq<ScheduleView>, now: u64) -> Seq<ScheduleView>
    decreases ds.len(),
{
    if ds.len() == 0 {
        ds
    } else if ds.last().0 > now {
        not_due(ds.drop_last(), now).push(ds.last())
    } else {
        not_due(ds.drop_last(), now)
    }
}

/// The earliest deadline of the schedules, if any.
pub open spec fn earliest(ds: Seq<ScheduleView>) -> Option<u64>
    decreases ds.len(),
{
    if ds.len() == 0 {
        None
    } else {
        match earliest(ds.drop_last()) {
            None => Some(ds.last().0),
            Some(m) => Some(if ds.last().0 < m { ds.last().0 } else { m }),
        }
    }
}

/// Every notification of `before` whose retention has not passed at `now`
/// is in `after` unchanged.
pub open spec fn spares_fresh<H>(
    before: Map<Seq<char>, PendingNativeNotification<H>>,
    after: Map<Seq<char>, PendingNativeNotification<H>>,
    now: u64,
) -> bool {
    forall|id: Seq<char>|
        #![trigger before.dom().contains(id)]
        before.dom().contains(id) && now < before[id].created_at + PENDING_RETENTION ==> after.dom().contains(
            id,
        ) && after[id] == before[id]
}

/// Whether a due schedule among `ds` clears the pending notification `id`:
/// one for this id and for the registration now pending under it.
pub open spec fn cleared<H>(
    m: Map<Seq<char>, PendingNativeNotification<H>>,
    ds: Seq<ScheduleView>,
    now: u64,
    id: Seq<char>,
) -> bool {
    m.dom().contains(id) && exists|i: int|
        0 <= i < ds.len() && (#[trigger] ds[i]).0 <= now && ds[i].1 == id && ds[i].2
            == m[id].created_at
}

/// The pending notifications once the due schedules among `ds` have run.
pub open spec fn after_cleanup<H>(
    m: Map<Seq<char>, PendingNativeNotification<H>>,
    ds: Seq<ScheduleView>,
    now: u64,
) -> Map<Seq<char>, PendingNativeNotification<H>> {
    Map::new(|id: Seq<char>| m.dom().contains(id) && !cleared(m, ds, now, id), |id: Seq<char>| m[id])
}

impl View for CleanupDeadlines {
    type V = Seq<ScheduleView>;

    /// The waiting schedules as (deadline, notification id, creation time).
    closed spec fn view(&self) -> Seq<ScheduleView> {
        self.items@.map_values(|s: CleanupSchedule| schedule_view(s))
    }
}

impl CleanupDeadlines {

    pub fn new() -> (r: Self)
        ensures
            r.view() == Seq::<ScheduleView>::empty(),
    {
        let r = CleanupDeadlines { items: Vec::new() };
        assert(r.view() =~= Seq::<ScheduleView>::empty());
        r
    }

    /// Adds a cleanup to wait for.
    pub fn push(&mut self, s: CleanupSchedule)
        ensures
            final(self).view() == old(self).view().push(schedule_view(s)),
    {
        self.items.push(s);
        assert(self.view() =~= old(self).view().push(schedule_view(s)));
    }

    pub fn len(&self) -> (n: usize)
        ensures
            n == self.view().len(),
    {
        self.items.len()
    }

    /// The earliest deadline waited for, if any.
    pub fn earliest_deadline(&self) -> (r: Option<u64>)
        ensures
            r == earliest(self.view()),
    {
        let mut best: Option<u64> = None;
        let mut i: usize = 0;
        while i < self.items.len()
            invariant
                i <= self.items@.len(),
                best == earliest(self.view().take(i as int)),
            decreases self.items@.len() - i,
        {
            let d = self.items[i].deadline;
            proof {
                let t = self.view().take(i + 1);
                assert(t.drop_last() =~= self.view().take(i as int));
                assert(t.last() == schedule_view(self.items@[i as int]));
            }
            best = match best {
                None => Some(d),
                Some(m) => Some(if d < m { d } else { m }),
            };
            i = i + 1;
        }
        assert(self.view().take(self.view().len() as int) =~= self.view());
        best
    }
}

/// What the cleanup worker waits for next.
pub enum CleanupWait {
    /// A new schedule, or the earliest deadline, whichever comes first.
    Until(u64),
    /// A new schedule only: nothing is waiting.
    Forever,
}

/// What woke the cleanup worker.
pub enum CleanupEvent {
    /// A cleanup was scheduled.
    Scheduled(CleanupSchedule),
    /// The earliest deadline passed.
    TimedOut,
    /// No more cleanups can be scheduled.
    Disconnected,
}

/// How long the worker waits: until the earliest deadline, or for the next
/// schedule when none is waiting.
pub fn cleanup_wait(deadlines: &CleanupDeadlines) -> (r: CleanupWait)
    ensures
        match r {
            CleanupWait::Until(d) => earliest(deadlines.view()) == Some(d),
            CleanupWait::Forever => earliest(deadlines.view()) is None,
        },
{
    match deadlines.earliest_deadline() {
        Some(d) => CleanupWait::Until(d),
        None => CleanupWait::Forever,
    }
}

/// Runs the schedules whose deadline is not after `now`: each drops its
/// notification if that is still the registration it was scheduled for.
/// The schedules still ahead stay.
pub fn remove_due_notifications<H>(
    deadlines: &mut CleanupDeadlines,
    store: &mut PendingNotifications<H>,
    now: u64,
)
    ensures
        final(deadlines).view() == not_due(old(deadlines).view(), now),
        final(store).view() == after_cleanup(old(store).view(), old(deadlines).view(), now),
        forall|i: int|
            0 <= i < final(deadlines).view().len() ==> (#[trigger] final(deadlines).view()[i]).0 > now,
        spares_fresh(old(store).view(), final(store).view(), now),
{
    let mut items: Vec<CleanupSchedule> = Vec::new();
    std::mem::swap(&mut items, &mut deadlines.items);
    let ghost ds = items@.map_values(|s: CleanupSchedule| schedule_view(s));
    let ghost orig = items@;
    let ghost m0 = store.view();
    assert(ds == old(deadlines).view());
    let mut kept: Vec<CleanupSchedule> = Vec::new();
    assert(store.view() =~= after_cleanup(m0, ds.take(0), now));
    for s in it: items
        invariant
            it.seq() == orig,
            ds == orig.map_values(|s: CleanupSchedule| schedule_view(s)),
            kept@.map_values(|s: CleanupSchedule| schedule_view(s)) == not_due(
                ds.take(it.index() as int),
                now,
            ),
            store.view() == after_cleanup(m0, ds.take(it.index() as int), now),
            forall|j: int| 0 <= j < it.index() ==> schedule_well_formed(#[trigger] ds[j]),
    {
        proof {
            use_type_invariant(&s);
        }
        let ghost idx = it.index();
        let ghost pre = ds.take(idx as int);
        let ghost post = ds.take(idx + 1);
        let ghost sv = schedule_view(s);
        assert(post.drop_last() =~= pre);
        assert(post.last() == sv);
        let ghost before = store.view();
        if s.deadline > now {
            kept.push(s);
            assert(kept@.map_values(|s: CleanupSchedule| schedule_view(s)) =~= not_due(pre, now).push(
                sv,
            ));
            assert forall|id: Seq<char>| cleared(m0, post, now, id) == cleared(m0, pre, now, id) by {
                if cleared(m0, post, now, id) {
                    let i = choose|i: int|
                        0 <= i < post.len() && (#[trigger] post[i]).0 <= now && post[i].1 == id
                            && post[i].2 == m0[id].created_at;
                    assert(i < pre.len());
                    assert(pre[i] == post[i]);
                }
                if cleared(m0, pre, now, id) {
                    let i = choose|i: int|
                        0 <= i < pre.len() && (#[trigger] pre[i]).0 <= now && pre[i].1 == id
                            && pre[i].2 == m0[id].created_at;
                    assert(pre[i] == post[i]);
                }
            }
            assert(store.view() =~= after_cleanup(m0, post, now));
        } else {
            store.remove_if_created_at(s.notification_id.as_str(), s.created_at);
            assert forall|id: Seq<char>|
                cleared(m0, post, now, id) == (cleared(m0, pre, now, id) || (m0.dom().contains(id)
                    && id == sv.1 && sv.2 == m0[id].created_at)) by {
                if cleared(m0, post, now, id) {
                    let i = choose|i: int|
                        0 <= i < post.len() && (#[trigger] post[i]).0 <= now && post[i].1 == id
                            && post[i].2 == m0[id].created_at;
                    if i < pre.len() {
                        assert(pre[i] == post[i]);
                    }
                }
                if cleared(m0, pre, now, id) {
                    let i = choose|i: int|
                        0 <= i < pre.len() && (#[trigger] pre[i]).0 <= now && pre[i].1 == id
                            && pre[i].2 == m0[id].created_at;
                    assert(pre[i] == post[i]);
                }
                if m0.dom().contains(id) && id == sv.1 && sv.2 == m0[id].created_at {
                    assert(post[post.len() - 1] == sv);
                }
            }
            assert(store.view() =~= after_cleanup(m0, post, now));
        }
    }
    assert(ds.take(ds.len() as int) =~= ds);
    deadlines.items = kept;
    proof {
        lemma_not_due_ahead(ds, now);
        lemma_cleanup_spares_fresh(m0, ds, now);
    }
}

proof fn lemma_not_due_ahead(ds: Seq<ScheduleView>, now: u64)
    ensures
        forall|i: int| 0 <= i < not_due(ds, now).len() ==> (#[trigger] not_due(ds, now)[i]).0 > now,
    decreases ds.len(),
{
    if ds.len() > 0 {
        lemma_not_due_ahead(ds.drop_last(), now);
        let r = not_due(ds.drop_last(), now);
        if ds.last().0 > now {
            assert forall|i: int| 0 <= i < r.push(ds.last()).len() implies (#[trigger] r.push(
                ds.last(),
            )[i]).0 > now by {
                if i < r.len() {
                    assert(r.push(ds.last())[i] == r[i]);
                }
            }
        }
    }
}

/// Handles one wake-up of the cleanup worker: a new schedule is added, a
/// passed deadline runs the due schedules at `now`, and a disconnection
/// stops the worker. Returns whether the worker keeps running.
pub fn cleanup_pending_notifications<H>(
    deadlines: &mut CleanupDeadlines,
    store: &mut PendingNotifications<H>,
    event: CleanupEvent,
    now: u64,
) -> (keep_running: bool)
    ensures
        match event {
            CleanupEvent::Scheduled(s) => keep_running && final(deadlines).view() == old(
                deadlines,
            ).view().push(schedule_view(s)) && final(store).view() == old(store).view(),
            CleanupEvent::TimedOut => keep_running && final(deadlines).view() == not_due(
                old(deadlines).view(),
                now,
            ) && final(store).view() == after_cleanup(old(store).view(), old(deadlines).view(), now)
                && spares_fresh(old(store).view(), final(store).view(), now),
            CleanupEvent::Disconnected => !keep_running && final(deadlines).view() == old(
                deadlines,
            ).view() && final(store).view() == old(store).view(),
        },
{
    match event {
        CleanupEvent::Scheduled(s) => {
            deadlines.push(s);
            true
        },
        CleanupEvent::TimedOut => {
            remove_due_notifications(deadlines, store, now);
            true
        },
        CleanupEvent::Disconnected => false,
    }
}

// ---------------------------------------------------------------------------
// Laws
// ---------------------------------------------------------------------------

/// A shown notification stays pending for ten minutes, counted in
/// nanoseconds.
pub proof fn lemma_retention_is_ten_minutes()
    ensures
        PENDING_RETENTION == 10 * 60 * 1_000_000_000,
{
}

/// A notification registered at `created_at` is delivered by a click at any
/// time before its retention has passed: the click gets back exactly what
/// was registered.
pub proof fn lemma_click_delivers_registered<H>(
    m: Map<Seq<char>, PendingNativeNotification<H>>,
    e: PendingNativeNotification<H>,
    now: u64,
)
    requires
        e.created_at <= now,
        now - e.created_at < PENDING_RETENTION,
    ensures
        ({
            let registered = expire(m, e.created_at).insert(pending_id(e), e);
            expire(registered, now).dom().contains(pending_id(e)) && expire(registered, now)[pending_id(e)] == e
        }),
{
}

/// A notification removed (dismissed, or failed to show) is never delivered
/// afterwards.
pub proof fn lemma_removed_never_delivered<H>(
    m: Map<Seq<char>, PendingNativeNotification<H>>,
    id: Seq<char>,
    now: u64,
)
    ensures
        !expire(m.remove(id), now).dom().contains(id),
{
}

/// Once its retention has passed, a notification is no longer pending.
pub proof fn lemma_expired_not_pending<H>(
    m: Map<Seq<char>, PendingNativeNotification<H>>,
    id: Seq<char>,
    now: u64,
)
    requires
        m.dom().contains(id),
        m[id].created_at <= now,
        now - m[id].created_at >= PENDING_RETENTION,
    ensures
        !expire(m, now).dom().contains(id),
{
}

/// A cleanup scheduled for an earlier registration of an id leaves a later
/// registration under the same id pending.
pub proof fn lemma_cleanup_spares_later_registration<H>(
    m: Map<Seq<char>, PendingNativeNotification<H>>,
    ds: Seq<ScheduleView>,
    now: u64,
    id: Seq<char>,
)
    requires
        m.dom().contains(id),
        forall|i: int| 0 <= i < ds.len() && (#[trigger] ds[i]).1 == id ==> ds[i].2 != m[id].created_at,
    ensures
        after_cleanup(m, ds, now).dom().contains(id),
        after_cleanup(m, ds, now)[id] == m[id],
{
}

/// A cleanup made by a registration is due only when that registration's
/// retention ends, so running the due cleanups never drops a notification
/// whose own retention has not passed, in particular a newer registration
/// under the id of an older one.
pub proof fn lemma_cleanup_spares_fresh<H>(
    m: Map<Seq<char>, PendingNativeNotification<H>>,
    ds: Seq<ScheduleView>,
    now: u64,
)
    requires
        forall|i: int| 0 <= i < ds.len() ==> schedule_well_formed(#[trigger] ds[i]),
    ensures
        spares_fresh(m, after_cleanup(m, ds, now), now),
{
    assert forall|id: Seq<char>|
        #![trigger m.dom().contains(id)]
        m.dom().contains(id) && now < m[id].created_at + PENDING_RETENTION implies !cleared(
            m,
            ds,
            now,
            id,
        ) by {
        if cleared(m, ds, now, id) {
            let i = choose|i: int|
                0 <= i < ds.len() && (#[trigger] ds[i]).0 <= now && ds[i].1 == id && ds[i].2
                    == m[id].created_at;
            assert(schedule_well_formed(ds[i]));
        }
    }
}

/// A cleanup drops only what it was scheduled for: every notification that
/// leaves the store was pending under the id of a due schedule created at
/// the same time, and no pending notification changes.
pub proof fn lemma_cleanup_only_drops<H>(
    m: Map<Seq<char>, PendingNativeNotification<H>>,
    ds: Seq<ScheduleView>,
    now: u64,
)
    ensures
        forall|id: Seq<char>|
            #[trigger] after_cleanup(m, ds, now).dom().contains(id) ==> m.dom().contains(id)
                && after_cleanup(m, ds, now)[id] == m[id],
        forall|id: Seq<char>|
            m.dom().contains(id) && !(#[trigger] after_cleanup(m, ds, now).dom().contains(id))
                ==> cleared(m, ds, now, id),
{
}

} // verus!
