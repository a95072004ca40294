//! Calendar reminders: which alerts are due, and the ledger that keeps each alert from
//! being delivered twice.
use vstd::prelude::*;

use crate::services::calendar::CalendarEvent;
use crate::config::ReminderSettings;
use crate::text::{
    chars_of, decimal, digit_char, eq_str, nat_digits, push_all, push_decimal_i64, push_str,
    string_of,
};

verus! {

// ---------------------------------------------------------------------------
// Association lists of (key, timestamp)
// ---------------------------------------------------------------------------

/// The value that the last entry with key `k` holds, if any entry has it.
pub open spec fn lookup(s: Seq<(Seq<char>, i64)>, k: Seq<char>) -> Option<i64>
    decreases s.len(),
{
    if s.len() == 0 {
        None
    } else if s.last().0 == k {
        Some(s.last().1)
    } else {
        lookup(s.drop_last(), k)
    }
}

/// The map that an association list stands for.
pub open spec fn map_of(s: Seq<(Seq<char>, i64)>) -> Map<Seq<char>, i64> {
    Map::new(|k: Seq<char>| lookup(s, k) is Some, |k: Seq<char>| lookup(s, k)->0)
}

/// No key occurs twice.
pub open spec fn distinct_keys(s: Seq<(Seq<char>, i64)>) -> bool {
    forall|i: int, j: int| 0 <= i < j < s.len() ==> s[i].0 != s[j].0
}

/// The entries whose key is not `k`.
pub open spec fn without_key(s: Seq<(Seq<char>, i64)>, k: Seq<char>) -> Seq<(Seq<char>, i64)>
    decreases s.len(),
{
    if s.len() == 0 {
        s
    } else if s.last().0 == k {
        without_key(s.drop_last(), k)
    } else {
        without_key(s.drop_last(), k).push(s.last())
    }
}

/// The entries whose value is at least `cutoff`.
pub open spec fn since(s: Seq<(Seq<char>, i64)>, cutoff: int) -> Seq<(Seq<char>, i64)>
    decreases s.len(),
{
    if s.len() == 0 {
        s
    } else if s.last().1 >= cutoff {
        since(s.drop_last(), cutoff).push(s.last())
    } else {
        since(s.drop_last(), cutoff)
    }
}

pub proof fn lemma_lookup_some(s: Seq<(Seq<char>, i64)>, k: Seq<char>)
    ensures
        lookup(s, k) is Some <==> exists|j: int| 0 <= j < s.len() && s[j].0 == k,
    decreases s.len(),
{
    if s.len() > 0 {
        lemma_lookup_some(s.drop_last(), k);
        if s.last().0 != k {
            if exists|j: int| 0 <= j < s.len() && s[j].0 == k {
                let j = choose|j: int| 0 <= j < s.len() && s[j].0 == k;
                assert(j < s.len() - 1);
                assert(s.drop_last()[j].0 == k);
            }
        } else {
            assert(s[s.len() - 1].0 == k);
        }
    }
}

pub proof fn lemma_lookup_at(s: Seq<(Seq<char>, i64)>, j: int)
    requires
        distinct_keys(s),
        0 <= j < s.len(),
    ensures
        lookup(s, s[j].0) == Some(s[j].1),
    decreases s.len(),
{
    if j < s.len() - 1 {
        assert(distinct_keys(s.drop_last()));
        lemma_lookup_at(s.drop_last(), j);
        assert(s.drop_last()[j] == s[j]);
    }
}

pub proof fn lemma_without_key(s: Seq<(Seq<char>, i64)>, k: Seq<char>, q: Seq<char>)
    ensures
        lookup(without_key(s, k), q) == (if q == k { None } else { lookup(s, q) }),
        distinct_keys(s) ==> distinct_keys(without_key(s, k)),
        forall|i: int|
            0 <= i < without_key(s, k).len() ==> exists|j: int|
                0 <= j < s.len() && #[trigger] without_key(s, k)[i] == s[j],
    decreases s.len(),
{
    if s.len() > 0 {
        lemma_without_key(s.drop_last(), k, q);
        let w = without_key(s.drop_last(), k);
        assert(w.push(s.last()).drop_last() =~= w);
        assert forall|i: int| 0 <= i < without_key(s, k).len() implies exists|j: int|
            0 <= j < s.len() && #[trigger] without_key(s, k)[i] == s[j] by {
            if i < w.len() {
                let j = choose|j: int| 0 <= j < s.drop_last().len() && w[i] == s.drop_last()[j];
                assert(without_key(s, k)[i] == s[j]);
            } else {
                assert(without_key(s, k)[i] == s[s.len() - 1]);
            }
        }
        if distinct_keys(s) {
            assert(distinct_keys(s.drop_last()));
            if s.last().0 != k {
                let t = w.push(s.last());
                assert forall|a: int, b: int| 0 <= a < b < t.len() implies t[a].0 != t[b].0 by {
                    if b == t.len() - 1 {
                        let j = choose|j: int| 0 <= j < s.drop_last().len() && w[a] == s.drop_last()[j];
                        assert(s[j].0 != s[s.len() - 1].0);
                    }
                }
            }
        }
    }
}

pub proof fn lemma_since(s: Seq<(Seq<char>, i64)>, cutoff: int, q: Seq<char>)
    requires
        distinct_keys(s),
    ensures
        lookup(since(s, cutoff), q) == (match lookup(s, q) {
            Some(v) => if v >= cutoff { Some(v) } else { None },
            None => None,
        }),
        distinct_keys(since(s, cutoff)),
        forall|i: int|
            0 <= i < since(s, cutoff).len() ==> exists|j: int|
                0 <= j < s.len() && #[trigger] since(s, cutoff)[i] == s[j],
    decreases s.len(),
{
    if s.len() > 0 {
        let d = s.drop_last();
        assert(distinct_keys(d));
        lemma_since(d, cutoff, q);
        let w = since(d, cutoff);
        assert(w.push(s.last()).drop_last() =~= w);
        assert forall|i: int| 0 <= i < since(s, cutoff).len() implies exists|j: int|
            0 <= j < s.len() && #[trigger] since(s, cutoff)[i] == s[j] by {
            if i < w.len() {
                let j = choose|j: int| 0 <= j < d.len() && w[i] == d[j];
                assert(since(s, cutoff)[i] == s[j]);
            } else {
                assert(since(s, cutoff)[i] == s[s.len() - 1]);
            }
        }
        if s.last().1 >= cutoff {
            let t = w.push(s.last());
            assert forall|a: int, b: int| 0 <= a < b < t.len() implies t[a].0 != t[b].0 by {
                if b == t.len() - 1 {
                    let j = choose|j: int| 0 <= j < d.len() && w[a] == d[j];
                    assert(s[j].0 != s[s.len() - 1].0);
                }
            }
        }
        if s.last().0 == q {
            lemma_lookup_some(d, q);
            if lookup(d, q) is Some {
                let j = choose|j: int| 0 <= j < d.len() && d[j].0 == q;
                assert(s[j].0 == s[s.len() - 1].0);
            }
        }
    }
}

pub proof fn lemma_map_of_len(p: Seq<(Seq<char>, i64)>)
    requires
        distinct_keys(p),
    ensures
        map_of(p).dom().finite(),
        map_of(p).dom().len() == p.len(),
{
    let keys = p.map_values(|e: (Seq<char>, i64)| e.0);
    assert forall|k: Seq<char>| map_of(p).dom().contains(k) <==> keys.to_set().contains(k) by {
        lemma_lookup_some(p, k);
        if keys.to_set().contains(k) {
            let j = choose|j: int| 0 <= j < keys.len() && keys[j] == k;
            assert(p[j].0 == k);
        }
        if map_of(p).dom().contains(k) {
            let j = choose|j: int| 0 <= j < p.len() && p[j].0 == k;
            assert(keys[j] == k);
        }
    }
    assert(map_of(p).dom() =~= keys.to_set());
    assert(keys.no_duplicates());
    keys.unique_seq_to_set();
}

pub proof fn lemma_map_of_push(s: Seq<(Seq<char>, i64)>, k: Seq<char>, v: i64)
    ensures
        map_of(s.push((k, v))) == map_of(s).insert(k, v),
{
    let t = s.push((k, v));
    assert(t.drop_last() =~= s);
    assert(map_of(t) =~= map_of(s).insert(k, v));
}

/// The ledger of delivered reminders: reminder id to the time it was delivered.
pub struct ReminderLedger {
    delivered: Vec<(String, i64)>,
}

impl Default for ReminderLedger {
    /// An empty ledger.
    fn default() -> (r: Self)
        ensures
            r@ == Map::<Seq<char>, i64>::empty(),
    {
        ReminderLedger::new()
    }
}

/// The entries of a list of (String, timestamp) pairs, each key taken by its characters.
pub open spec fn pairs_of(v: Seq<(String, i64)>) -> Seq<(Seq<char>, i64)> {
    v.map_values(|e: (String, i64)| (e.0@, e.1))
}

impl View for ReminderLedger {
    type V = Map<Seq<char>, i64>;

    closed spec fn view(&self) -> Map<Seq<char>, i64> {
        map_of(pairs_of(self.delivered@))
    }
}

impl ReminderLedger {
    #[verifier::type_invariant]
    closed spec fn keys_distinct(&self) -> bool {
        distinct_keys(pairs_of(self.delivered@))
    }

    /// An empty ledger.
    pub fn new() -> (r: Self)
        ensures
            r@ == Map::<Seq<char>, i64>::empty(),
    {
        let r = ReminderLedger { delivered: Vec::new() };
        assert(r@ =~= Map::<Seq<char>, i64>::empty());
        r
    }

    /// A ledger holding the given entries; a later entry for a key replaces an earlier one.
    pub fn from_entries(entries: Vec<(String, i64)>) -> (r: Self)
        ensures
            r@ == map_of(pairs_of(entries@)),
    {
        let mut r = ReminderLedger::new();
        let mut i: usize = 0;
        while i < entries.len()
            invariant
                i <= entries.len(),
                r@ == map_of(pairs_of(entries@.take(i as int))),
            decreases entries.len() - i,
        {
            let (k, v) = &entries[i];
            r.insert(k.clone(), *v);
            assert(pairs_of(entries@.take(i + 1)).drop_last() =~= pairs_of(entries@.take(i as int)));
            assert(r@ =~= map_of(pairs_of(entries@.take(i + 1))));
            i = i + 1;
        }
        assert(entries@.take(entries.len() as int) =~= entries@);
        r
    }

    /// The number of recorded deliveries.
    pub fn len(&self) -> (r: usize)
        ensures
            r == self@.dom().len(),
            self@.dom().finite(),
    {
        proof {
            use_type_invariant(self);
            lemma_map_of_len(pairs_of(self.delivered@));
        }
        self.delivered.len()
    }

    pub fn is_empty(&self) -> (r: bool)
        ensures
            r == (self@.dom().len() == 0),
            r == (self@ == Map::<Seq<char>, i64>::empty()),
    {
        proof {
            use_type_invariant(self);
            lemma_map_of_len(pairs_of(self.delivered@));
            if self@.dom().len() == 0 {
                assert(self@.dom() =~= Set::<Seq<char>>::empty());
                assert(self@ =~= Map::<Seq<char>, i64>::empty());
            }
        }
        self.delivered.len() == 0
    }

    /// When the reminder `id` was delivered, if it was.
    pub fn get(&self, id: &String) -> (r: Option<i64>)
        ensures
            r == (if self@.dom().contains(id@) { Some(self@[id@]) } else { None }),
    {
        proof {
            use_type_invariant(self);
        }
        let ghost p = pairs_of(self.delivered@);
        let mut i: usize = 0;
        while i < self.delivered.len()
            invariant
                i <= self.delivered.len(),
                p == pairs_of(self.delivered@),
                distinct_keys(p),
                forall|j: int| 0 <= j < i ==> p[j].0 != id@,
            decreases self.delivered.len() - i,
        {
            if self.delivered[i].0 == *id {
                proof {
                    lemma_lookup_at(p, i as int);
                }
                return Some(self.delivered[i].1);
            }
            i = i + 1;
        }
        proof {
            lemma_lookup_some(p, id@);
        }
        None
    }

    pub fn contains_key(&self, id: &String) -> (r: bool)
        ensures
            r == self@.dom().contains(id@),
    {
        self.get(id).is_some()
    }

    /// Records that reminder `id` was delivered at `at`.
    pub fn insert(&mut self, id: String, at: i64)
        ensures
            final(self)@ == old(self)@.insert(id@, at),
            final(self)@.dom().contains(id@),
    {
        self.remove(&id);
        let ghost mid = self@;
        proof {
            use_type_invariant(&*self);
        }
        let ghost before = pairs_of(self.delivered@);
        let ghost key = id@;
        let mut entries: Vec<(String, i64)> = Vec::new();
        std::mem::swap(&mut entries, &mut self.delivered);
        entries.push((id, at));
        proof {
            let after = pairs_of(entries@);
            assert(after =~= before.push((key, at)));
            assert(!self@.dom().contains(key));
            assert(!map_of(before).dom().contains(key));
            assert(!(lookup(before, key) is Some));
            lemma_lookup_some(before, key);
            assert forall|a: int, b: int| 0 <= a < b < after.len() implies after[a].0 != after[b].0 by {
                if b == after.len() - 1 {
                    assert(after[a] == before[a]);
                }
            }
        }
        self.delivered = entries;
        assert(mid == map_of(before));
        assert(mid == old(self)@.remove(key));
        proof {
            lemma_map_of_push(before, key, at);
            assert(pairs_of(self.delivered@) =~= before.push((key, at)));
            assert(old(self)@.remove(key).insert(key, at) =~= old(self)@.insert(key, at));
        }
    }

    /// Forgets the delivery of reminder `id`.
    pub fn remove(&mut self, id: &String)
        ensures
            final(self)@ == old(self)@.remove(id@),
    {
        proof {
            use_type_invariant(&*self);
        }
        let ghost p = pairs_of(self.delivered@);
        let mut kept: Vec<(String, i64)> = Vec::new();
        let mut i: usize = 0;
        while i < self.delivered.len()
            invariant
                i <= self.delivered.len(),
                p == pairs_of(self.delivered@),
                pairs_of(kept@) == without_key(p.take(i as int), id@),
            decreases self.delivered.len() - i,
        {
            assert(p.take(i + 1).drop_last() =~= p.take(i as int));
            if self.delivered[i].0 != *id {
                kept.push((self.delivered[i].0.clone(), self.delivered[i].1));
                assert(pairs_of(kept@) =~= without_key(p.take(i + 1), id@));
            }
            i = i + 1;
        }
        proof {
            assert(p.take(p.len() as int) =~= p);
            lemma_without_key(p, id@, id@);
            assert forall|q: Seq<char>| true implies lookup(pairs_of(kept@), q) == (if q == id@ {
                None
            } else {
                lookup(p, q)
            }) by {
                lemma_without_key(p, id@, q);
            }
        }
        self.delivered = kept;
        assert(self@ =~= old(self)@.remove(id@));
    }

    /// Keeps only the deliveries made at or after `cutoff`.
    pub fn retain_since(&mut self, cutoff: i64)
        ensures
            final(self)@ == recent(old(self)@, cutoff as int),
    {
        proof {
            use_type_invariant(&*self);
        }
        let ghost p = pairs_of(self.delivered@);
        let mut kept: Vec<(String, i64)> = Vec::new();
        let mut i: usize = 0;
        while i < self.delivered.len()
            invariant
                i <= self.delivered.len(),
                p == pairs_of(self.delivered@),
                pairs_of(kept@) == since(p.take(i as int), cutoff as int),
            decreases self.delivered.len() - i,
        {
            assert(p.take(i + 1).drop_last() =~= p.take(i as int));
            if self.delivered[i].1 >= cutoff {
                kept.push((self.delivered[i].0.clone(), self.delivered[i].1));
                assert(pairs_of(kept@) =~= since(p.take(i + 1), cutoff as int));
            }
            i = i + 1;
        }
        proof {
            assert(p.take(p.len() as int) =~= p);
            assert forall|q: Seq<char>| true implies lookup(pairs_of(kept@), q) == (match lookup(
                p,
                q,
            ) {
                Some(v) => if v >= cutoff { Some(v) } else { None },
                None => None,
            }) by {
                lemma_since(p, cutoff as int, q);
            }
            lemma_since(p, cutoff as int, seq![]);
        }
        self.delivered = kept;
        assert(self@ =~= recent(old(self)@, cutoff as int));
    }

    /// The recorded deliveries, as (id, time) pairs.
    pub fn entries(&self) -> (r: Vec<(String, i64)>)
        ensures
            map_of(pairs_of(r@)) == self@,
            distinct_keys(pairs_of(r@)),
    {
        proof {
            use_type_invariant(self);
        }
        let mut out: Vec<(String, i64)> = Vec::new();
        let mut i: usize = 0;
        while i < self.delivered.len()
            invariant
                i <= self.delivered.len(),
                pairs_of(out@) == pairs_of(self.delivered@).take(i as int),
            decreases self.delivered.len() - i,
        {
            let key = self.delivered[i].0.clone();
            let ghost prev = out@;
            out.push((key, self.delivered[i].1));
            assert(out@ == prev.push(self.delivered@[i as int]));
            assert(pairs_of(out@) =~= pairs_of(prev).push(pairs_of(self.delivered@)[i as int]));
            assert(pairs_of(out@) =~= pairs_of(self.delivered@).take(i + 1));
            i = i + 1;
        }
        assert(pairs_of(self.delivered@).take(i as int) =~= pairs_of(self.delivered@));
        out
    }

    /// A copy of this ledger.
    pub fn duplicate(&self) -> (r: Self)
        ensures
            r@ == self@,
    {
        proof {
            use_type_invariant(self);
        }
        let entries = self.entries();
        ReminderLedger { delivered: entries }
    }
}

/// The deliveries of `m` made at or after `cutoff`.
pub open spec fn recent(m: Map<Seq<char>, i64>, cutoff: int) -> Map<Seq<char>, i64> {
    Map::new(|k: Seq<char>| m.dom().contains(k) && m[k] >= cutoff, |k: Seq<char>| m[k])
}


// ---------------------------------------------------------------------------
// Due reminders
// ---------------------------------------------------------------------------

/// How long a delivery stays in the ledger: 31 days.
pub const LEDGER_RETENTION_SECONDS: i64 = 31 * 24 * 60 * 60;

/// A desktop alert to show.
pub struct ReminderNotice {
    pub title: String,
    pub body: String,
    pub ledger_ids: Vec<String>,
}

/// A notice as plain values: title, body and the ids of the reminders it delivers.
pub type NoticeView = (Seq<char>, Seq<char>, Seq<Seq<char>>);

pub open spec fn strings_view(v: Seq<String>) -> Seq<Seq<char>> {
    v.map_values(|s: String| s@)
}

impl ReminderNotice {
    pub open spec fn parts(&self) -> NoticeView {
        (self.title@, self.body@, strings_view(self.ledger_ids@))
    }
}

pub open spec fn notices_view(v: Seq<ReminderNotice>) -> Seq<NoticeView> {
    v.map_values(|n: ReminderNotice| n.parts())
}

/// The ledger id of the reminder `offset` minutes before `e` starts:
/// `provider:id:start:offset`.
pub open spec fn reminder_id_spec(e: CalendarEvent, offset: u16) -> Seq<char> {
    e.provider@ + seq![':'] + e.id@ + seq![':'] + decimal(e.start_unix as int) + seq![':']
        + decimal(offset as int)
}

/// Whether `e` can still be reminded of at `now`: timed, not cancelled, not yet started.
pub open spec fn reminder_eligible(e: CalendarEvent, now: i64) -> bool {
    !e.all_day && e.status@ != "cancelled"@ && e.start_unix > now
}

/// The offsets whose trigger time has come and whose reminder is not in `delivered`,
/// in the order of `offsets`.
pub open spec fn due_offsets(
    e: CalendarEvent,
    offsets: Seq<u16>,
    delivered: Map<Seq<char>, i64>,
    now: i64,
) -> Seq<u16>
    decreases offsets.len(),
{
    if offsets.len() == 0 {
        offsets
    } else {
        let rest = due_offsets(e, offsets.drop_last(), delivered, now);
        let o = offsets.last();
        if e.start_unix - o * 60 <= now && !delivered.dom().contains(reminder_id_spec(e, o)) {
            rest.push(o)
        } else {
            rest
        }
    }
}

/// The first position of `s` that holds a value greater than `x` (or its length).
pub open spec fn insert_position(s: Seq<u16>, x: u16) -> int
    decreases s.len(),
{
    if s.len() == 0 {
        0
    } else if s[0] > x {
        0
    } else {
        1 + insert_position(s.drop_first(), x)
    }
}

/// `s` sorted into ascending order, equal values keeping their order.
pub open spec fn sort_offsets(s: Seq<u16>) -> Seq<u16>
    decreases s.len(),
{
    if s.len() == 0 {
        s
    } else {
        let r = sort_offsets(s.drop_last());
        r.insert(insert_position(r, s.last()), s.last())
    }
}

/// Whole minutes from `now` to the start of `e`, rounded up.
pub open spec fn minutes_until(e: CalendarEvent, now: i64) -> int {
    (e.start_unix - now + 59) / 60
}

/// `Starts in N minute(s) at TIME`, then the location on a line of its own.
pub open spec fn notice_body(e: CalendarEvent, now: i64) -> Seq<char> {
    let m = minutes_until(e, now);
    let head = "Starts in "@ + decimal(m) + " minute"@ + (if m == 1 {
        Seq::<char>::empty()
    } else {
        "s"@
    }) + " at "@ + e.time_label@;
    match e.location {
        Some(l) => head + seq!['\n'] + l@,
        None => head,
    }
}

pub open spec fn ids_for(e: CalendarEvent, offsets: Seq<u16>) -> Seq<Seq<char>> {
    offsets.map_values(|o: u16| reminder_id_spec(e, o))
}

/// `m` with each of `ids` recorded as delivered at `now`.
pub open spec fn with_delivered(m: Map<Seq<char>, i64>, ids: Seq<Seq<char>>, now: i64) -> Map<
    Seq<char>,
    i64,
>
    decreases ids.len(),
{
    if ids.len() == 0 {
        m
    } else {
        with_delivered(m, ids.drop_last(), now).insert(ids.last(), now)
    }
}

/// The notice that `e` gives at `now`, if any, and the ledger after it.
pub open spec fn notice_step(
    e: CalendarEvent,
    offsets: Seq<u16>,
    m: Map<Seq<char>, i64>,
    now: i64,
) -> (Seq<NoticeView>, Map<Seq<char>, i64>) {
    if !reminder_eligible(e, now) {
        (seq![], m)
    } else {
        let due = due_offsets(e, offsets, m, now);
        if due.len() == 0 {
            (seq![], m)
        } else {
            let ids = ids_for(e, sort_offsets(due));
            (seq![(e.title@, notice_body(e, now), ids)], with_delivered(m, ids, now))
        }
    }
}

/// The notices that `events` give at `now`, in event order, and the ledger after them.
pub open spec fn notices_fold(
    events: Seq<CalendarEvent>,
    offsets: Seq<u16>,
    m: Map<Seq<char>, i64>,
    now: i64,
) -> (Seq<NoticeView>, Map<Seq<char>, i64>)
    decreases events.len(),
{
    if events.len() == 0 {
        (seq![], m)
    } else {
        let (ns, m1) = notices_fold(events.drop_last(), offsets, m, now);
        let (ns2, m2) = notice_step(events.last(), offsets, m1, now);
        (ns + ns2, m2)
    }
}

/// What `due_notices` returns and leaves in the ledger: old deliveries are pruned, then,
/// when reminders are on, each event yields the notice of its newly due reminders.
pub open spec fn due_notices_spec(
    events: Seq<CalendarEvent>,
    settings: ReminderSettings,
    ledger: Map<Seq<char>, i64>,
    now: i64,
) -> (Seq<NoticeView>, Map<Seq<char>, i64>) {
    let pruned = recent(ledger, now - LEDGER_RETENTION_SECONDS);
    if !settings.enabled || settings.offsets_minutes@.len() == 0 {
        (seq![], pruned)
    } else {
        notices_fold(events, settings.offsets_minutes@, pruned, now)
    }
}

/// The times involved stay within `i64`.
pub open spec fn reminder_times_in_range(
    events: Seq<CalendarEvent>,
    settings: ReminderSettings,
    now: i64,
) -> bool {
    &&& now - LEDGER_RETENTION_SECONDS >= i64::MIN
    &&& settings.enabled && settings.offsets_minutes@.len() > 0 ==> forall|i: int|
        0 <= i < events.len() && reminder_eligible(#[trigger] events[i], now) ==> event_times_in_range(
            events[i],
            settings.offsets_minutes@,
            now,
        )
}

pub open spec fn event_times_in_range(e: CalendarEvent, offsets: Seq<u16>, now: i64) -> bool {
    &&& e.start_unix - now + 59 <= i64::MAX
    &&& forall|j: int| 0 <= j < offsets.len() ==> e.start_unix - (#[trigger] offsets[j]) * 60 >= i64::MIN
}

/// The ledger id of a reminder: `provider:id:start:offset`.
pub fn reminder_id(event: &CalendarEvent, offset_minutes: u16) -> (r: String)
    ensures
        r@ == reminder_id_spec(*event, offset_minutes),
{
    let mut out: Vec<char> = chars_of(event.provider.as_str());
    out.push(':');
    push_str(&mut out, event.id.as_str());
    out.push(':');
    push_decimal_i64(&mut out, event.start_unix);
    out.push(':');
    push_decimal_i64(&mut out, offset_minutes as i64);
    assert(out@ =~= reminder_id_spec(*event, offset_minutes));
    string_of(&out)
}

proof fn lemma_insert_position(s: Seq<u16>, x: u16, j: int)
    requires
        0 <= j <= s.len(),
        forall|k: int| 0 <= k < j ==> s[k] <= x,
        j == s.len() || s[j] > x,
    ensures
        insert_position(s, x) == j,
    decreases j,
{
    if j > 0 {
        lemma_insert_position(s.drop_first(), x, j - 1);
    }
}

/// Sorts offsets into ascending order.
fn sorted_offsets(due: &Vec<u16>) -> (r: Vec<u16>)
    ensures
        r@ == sort_offsets(due@),
{
    let mut out: Vec<u16> = Vec::new();
    let mut i: usize = 0;
    while i < due.len()
        invariant
            i <= due.len(),
            out@ == sort_offsets(due@.take(i as int)),
        decreases due.len() - i,
    {
        let x = due[i];
        let mut j: usize = 0;
        while j < out.len() && out[j] <= x
            invariant
                j <= out.len(),
                forall|k: int| 0 <= k < j ==> out[k] <= x,
            decreases out.len() - j,
        {
            j = j + 1;
        }
        proof {
            lemma_insert_position(out@, x, j as int);
            assert(due@.take(i + 1).drop_last() =~= due@.take(i as int));
        }
        out.insert(j, x);
        i = i + 1;
    }
    assert(due@.take(due.len() as int) =~= due@);
    out
}

/// The alert text for `event` at `now`.
fn notice_body_text(event: &CalendarEvent, now_unix: i64) -> (r: String)
    requires
        event.start_unix > now_unix,
        event.start_unix - now_unix + 59 <= i64::MAX,
    ensures
        r@ == notice_body(*event, now_unix),
{
    let minutes_until = ((event.start_unix - now_unix) + 59) / 60;
    let mut out: Vec<char> = Vec::new();
    push_str(&mut out, "Starts in ");
    push_decimal_i64(&mut out, minutes_until);
    push_str(&mut out, " minute");
    if minutes_until != 1 {
        push_str(&mut out, "s");
    }
    push_str(&mut out, " at ");
    push_str(&mut out, event.time_label.as_str());
    match &event.location {
        Some(location) => {
            out.push('\n');
            push_str(&mut out, location.as_str());
        },
        None => {},
    }
    assert(out@ =~= notice_body(*event, now_unix));
    string_of(&out)
}

/// The notice that `event` gives at `now`, recording its reminders in the ledger.
fn notice_for_event(
    event: &CalendarEvent,
    offsets: &Vec<u16>,
    ledger: &mut ReminderLedger,
    now_unix: i64,
) -> (r: Option<ReminderNotice>)
    requires
        reminder_eligible(*event, now_unix) ==> event_times_in_range(*event, offsets@, now_unix),
    ensures
        (match r {
            Some(n) => seq![n.parts()],
            None => seq![],
        }, final(ledger)@) == notice_step(*event, offsets@, old(ledger)@, now_unix),
{
    let status = chars_of(event.status.as_str());
    if event.all_day || eq_str(&status, "cancelled") || event.start_unix <= now_unix {
        return None;
    }
    let ghost m = ledger@;
    let mut due: Vec<u16> = Vec::new();
    let mut j: usize = 0;
    while j < offsets.len()
        invariant
            j <= offsets.len(),
            ledger@ == m,
            event_times_in_range(*event, offsets@, now_unix),
            due@ == due_offsets(*event, offsets@.take(j as int), m, now_unix),
        decreases offsets.len() - j,
    {
        let offset = offsets[j];
        assert(event.start_unix - offsets@[j as int] * 60 >= i64::MIN);
        let trigger_at = event.start_unix - (offset as i64) * 60;
        let id = reminder_id(event, offset);
        assert(offsets@.take(j + 1).drop_last() =~= offsets@.take(j as int));
        if trigger_at <= now_unix && !ledger.contains_key(&id) {
            due.push(offset);
        }
        j = j + 1;
    }
    assert(offsets@.take(offsets.len() as int) =~= offsets@);
    if due.len() == 0 {
        return None;
    }
    let sorted = sorted_offsets(&due);
    let ghost ids = ids_for(*event, sorted@);
    let mut ledger_ids: Vec<String> = Vec::new();
    let mut k: usize = 0;
    while k < sorted.len()
        invariant
            k <= sorted.len(),
            ids == ids_for(*event, sorted@),
            strings_view(ledger_ids@) == ids.take(k as int),
            ledger@ == with_delivered(m, ids.take(k as int), now_unix),
        decreases sorted.len() - k,
    {
        let id = reminder_id(event, sorted[k]);
        ledger.insert(id.clone(), now_unix);
        ledger_ids.push(id);
        assert(ids.take(k + 1).drop_last() =~= ids.take(k as int));
        assert(strings_view(ledger_ids@) =~= ids.take(k + 1));
        k = k + 1;
    }
    assert(ids.take(sorted.len() as int) =~= ids);
    let notice = ReminderNotice {
        title: event.title.clone(),
        body: notice_body_text(event, now_unix),
        ledger_ids,
    };
    Some(notice)
}

/// The notices due at `now_unix`, in event order. Deliveries older than the retention window
/// leave the ledger first; each returned reminder is recorded as delivered at `now_unix`.
pub fn due_notices(
    events: &[CalendarEvent],
    settings: &ReminderSettings,
    ledger: &mut ReminderLedger,
    now_unix: i64,
) -> (r: Vec<ReminderNotice>)
    requires
        reminder_times_in_range(events@, *settings, now_unix),
    ensures
        (notices_view(r@), final(ledger)@) == due_notices_spec(
            events@,
            *settings,
            old(ledger)@,
            now_unix,
        ),
{
    ledger.retain_since(now_unix - LEDGER_RETENTION_SECONDS);
    let mut notices: Vec<ReminderNotice> = Vec::new();
    if !settings.enabled || settings.offsets_minutes.len() == 0 {
        return notices;
    }
    let ghost pruned = ledger@;
    let mut i: usize = 0;
    while i < events.len()
        invariant
            i <= events.len(),
            settings.enabled && settings.offsets_minutes@.len() > 0,
            reminder_times_in_range(events@, *settings, now_unix),
            (notices_view(notices@), ledger@) == notices_fold(
                events@.take(i as int),
                settings.offsets_minutes@,
                pruned,
                now_unix,
            ),
        decreases events.len() - i,
    {
        let event = &events[i];
        let ghost before = notices@;
        assert(events@.take(i + 1).drop_last() =~= events@.take(i as int));
        assert(events@.take(i + 1).last() == events@[i as int]);
        let found = notice_for_event(event, &settings.offsets_minutes, ledger, now_unix);
        match found {
            Some(n) => {
                notices.push(n);
                assert(notices_view(notices@) =~= notices_view(before) + seq![n.parts()]);
            },
            None => {
                assert(notices_view(before) + seq![] =~= notices_view(before));
            },
        }
        i = i + 1;
    }
    assert(events@.take(events.len() as int) =~= events@);
    notices
}

/// Forgets the deliveries of `failed_ids`, so that they can be delivered again.
pub fn restore_failed_deliveries(ledger: &mut ReminderLedger, failed_ids: &[String])
    ensures
        final(ledger)@ == without_ids(old(ledger)@, strings_view(failed_ids@)),
{
    let mut i: usize = 0;
    while i < failed_ids.len()
        invariant
            i <= failed_ids.len(),
            ledger@ == without_ids(old(ledger)@, strings_view(failed_ids@).take(i as int)),
        decreases failed_ids.len() - i,
    {
        ledger.remove(&failed_ids[i]);
        assert(strings_view(failed_ids@).take(i + 1).drop_last() =~= strings_view(failed_ids@).take(
            i as int,
        ));
        i = i + 1;
    }
    assert(strings_view(failed_ids@).take(failed_ids.len() as int) =~= strings_view(failed_ids@));
}

/// `m` without the keys `ids`.
pub open spec fn without_ids(m: Map<Seq<char>, i64>, ids: Seq<Seq<char>>) -> Map<Seq<char>, i64>
    decreases ids.len(),
{
    if ids.len() == 0 {
        m
    } else {
        without_ids(m, ids.drop_last()).remove(ids.last())
    }
}


// ---------------------------------------------------------------------------
// Laws of the reminder ledger
// ---------------------------------------------------------------------------

proof fn lemma_sort_offsets_members(s: Seq<u16>)
    ensures
        sort_offsets(s).len() == s.len(),
        forall|x: u16| sort_offsets(s).contains(x) ==> s.contains(x),
    decreases s.len(),
{
    if s.len() > 0 {
        let d = s.drop_last();
        lemma_sort_offsets_members(d);
        let r = sort_offsets(d);
        let p = insert_position(r, s.last());
        lemma_insert_position_bounds(r, s.last());
        let t = r.insert(p, s.last());
        assert forall|x: u16| t.contains(x) implies s.contains(x) by {
            let i = choose|i: int| 0 <= i < t.len() && t[i] == x;
            if i < p {
                assert(r[i] == x);
                assert(r.contains(x));
                assert(d.contains(x));
                let j = choose|j: int| 0 <= j < d.len() && d[j] == x;
                assert(d[j] == s[j]);
            } else if i == p {
                assert(s[s.len() - 1] == x);
            } else {
                assert(r[i - 1] == x);
                assert(r.contains(x));
                assert(d.contains(x));
                let j = choose|j: int| 0 <= j < d.len() && d[j] == x;
                assert(d[j] == s[j]);
            }
        }
    }
}

proof fn lemma_insert_position_bounds(s: Seq<u16>, x: u16)
    ensures
        0 <= insert_position(s, x) <= s.len(),
    decreases s.len(),
{
    if s.len() > 0 {
        lemma_insert_position_bounds(s.drop_first(), x);
    }
}

proof fn lemma_due_offsets_members(e: CalendarEvent, offsets: Seq<u16>, m: Map<Seq<char>, i64>, now: i64)
    ensures
        forall|x: u16|
            due_offsets(e, offsets, m, now).contains(x) ==> !m.dom().contains(
                reminder_id_spec(e, x),
            ),
    decreases offsets.len(),
{
    if offsets.len() > 0 {
        lemma_due_offsets_members(e, offsets.drop_last(), m, now);
        let rest = due_offsets(e, offsets.drop_last(), m, now);
        assert forall|x: u16| due_offsets(e, offsets, m, now).contains(x) implies !m.dom().contains(
            reminder_id_spec(e, x),
        ) by {
            let t = due_offsets(e, offsets, m, now);
            let i = choose|i: int| 0 <= i < t.len() && t[i] == x;
            if i < rest.len() {
                assert(rest[i] == x);
                assert(rest.contains(x));
            }
        }
    }
}

proof fn lemma_with_delivered(m: Map<Seq<char>, i64>, ids: Seq<Seq<char>>, now: i64, k: Seq<char>)
    ensures
        with_delivered(m, ids, now).dom().contains(k) <==> (m.dom().contains(k) || ids.contains(
            k,
        )),
        ids.contains(k) ==> with_delivered(m, ids, now)[k] == now,
        !ids.contains(k) && m.dom().contains(k) ==> with_delivered(m, ids, now)[k] == m[k],
    decreases ids.len(),
{
    if ids.len() > 0 {
        let d = ids.drop_last();
        lemma_with_delivered(m, d, now, k);
        if d.contains(k) {
            let i = choose|i: int| 0 <= i < d.len() && d[i] == k;
            assert(ids[i] == k);
        }
        if ids.contains(k) && ids.last() != k {
            let i = choose|i: int| 0 <= i < ids.len() && ids[i] == k;
            assert(i < ids.len() - 1);
            assert(d[i] == k);
        }
        if ids.last() == k {
            assert(ids[ids.len() - 1] == k);
        }
    }
}

proof fn lemma_without_ids(m: Map<Seq<char>, i64>, ids: Seq<Seq<char>>, k: Seq<char>)
    ensures
        without_ids(m, ids).dom().contains(k) <==> (m.dom().contains(k) && !ids.contains(k)),
        without_ids(m, ids).dom().contains(k) ==> without_ids(m, ids)[k] == m[k],
    decreases ids.len(),
{
    if ids.len() > 0 {
        let d = ids.drop_last();
        lemma_without_ids(m, d, k);
        if d.contains(k) {
            let i = choose|i: int| 0 <= i < d.len() && d[i] == k;
            assert(ids[i] == k);
        }
        if ids.contains(k) && ids.last() != k {
            let i = choose|i: int| 0 <= i < ids.len() && ids[i] == k;
            assert(d[i] == k);
        }
        if ids.last() == k {
            assert(ids[ids.len() - 1] == k);
        }
    }
}

/// The ids that the notices `ns` deliver.
pub open spec fn delivered_by(ns: Seq<NoticeView>, k: Seq<char>) -> bool {
    exists|a: int| 0 <= a < ns.len() && (#[trigger] ns[a]).2.contains(k)
}

proof fn lemma_step(e: CalendarEvent, offsets: Seq<u16>, m: Map<Seq<char>, i64>, now: i64)
    ensures
        ({
            let (ns, m2) = notice_step(e, offsets, m, now);
            &&& ns.len() <= 1
            &&& forall|k: Seq<char>| m.dom().contains(k) ==> #[trigger] m2.dom().contains(k)
            &&& forall|k: Seq<char>|
                #[trigger] m2.dom().contains(k) && !m.dom().contains(k) ==> delivered_by(ns, k)
            &&& forall|k: Seq<char>| #[trigger] m2.dom().contains(k) && m2[k] != now ==> m2[k] == m[k]
                && m.dom().contains(k)
            &&& forall|k: Seq<char>|
                #[trigger] delivered_by(ns, k) ==> !m.dom().contains(k) && m2.dom().contains(k)
                    && m2[k] == now
        }),
{
    let (ns, m2) = notice_step(e, offsets, m, now);
    if reminder_eligible(e, now) {
        let due = due_offsets(e, offsets, m, now);
        if due.len() > 0 {
            let sorted = sort_offsets(due);
            let ids = ids_for(e, sorted);
            lemma_sort_offsets_members(due);
            lemma_due_offsets_members(e, offsets, m, now);
            assert forall|k: Seq<char>| delivered_by(ns, k) implies !m.dom().contains(k)
                && m2.dom().contains(k) && m2[k] == now by {
                assert(ns[0].2 == ids);
                lemma_with_delivered(m, ids, now, k);
                let i = choose|i: int| 0 <= i < ids.len() && ids[i] == k;
                assert(sorted.contains(sorted[i]));
                assert(due.contains(sorted[i]));
            }
            assert forall|k: Seq<char>| m.dom().contains(k) implies #[trigger] m2.dom().contains(k) by {
                lemma_with_delivered(m, ids, now, k);
            }
            assert forall|k: Seq<char>| #[trigger] m2.dom().contains(k) && !m.dom().contains(k) implies delivered_by(ns, k) by {
                lemma_with_delivered(m, ids, now, k);
                assert(ns[0].2 == ids);
            }
            assert forall|k: Seq<char>| #[trigger] m2.dom().contains(k) && m2[k] != now implies m2[k] == m[k]
                && m.dom().contains(k) by {
                lemma_with_delivered(m, ids, now, k);
            }
        }
    }
}

proof fn lemma_fold(events: Seq<CalendarEvent>, offsets: Seq<u16>, m: Map<Seq<char>, i64>, now: i64)
    ensures
        ({
            let (ns, m2) = notices_fold(events, offsets, m, now);
            &&& ns.len() <= events.len()
            &&& forall|k: Seq<char>| m.dom().contains(k) ==> #[trigger] m2.dom().contains(k)
            &&& forall|k: Seq<char>| #[trigger] m2.dom().contains(k) && m2[k] != now ==> m2[k] == m[k]
                && m.dom().contains(k)
            &&& forall|k: Seq<char>|
                #[trigger] delivered_by(ns, k) ==> !m.dom().contains(k) && m2.dom().contains(k)
                    && m2[k] == now
        }),
    decreases events.len(),
{
    if events.len() > 0 {
        let (ns1, m1) = notices_fold(events.drop_last(), offsets, m, now);
        let (ns2, m2) = notice_step(events.last(), offsets, m1, now);
        lemma_fold(events.drop_last(), offsets, m, now);
        lemma_step(events.last(), offsets, m1, now);
        let ns = ns1 + ns2;
        assert forall|k: Seq<char>| #[trigger] delivered_by(ns, k) implies !m.dom().contains(k)
            && m2.dom().contains(k) && m2[k] == now by {
            let a = choose|a: int| 0 <= a < ns.len() && (#[trigger] ns[a]).2.contains(k);
            if a < ns1.len() {
                assert(ns1[a] == ns[a]);
                assert(delivered_by(ns1, k));
                assert(m1.dom().contains(k) && m1[k] == now);
                assert(m2.dom().contains(k));
                if m2[k] != now {
                    assert(m2[k] == m1[k]);
                }
            } else {
                assert(ns2[a - ns1.len()] == ns[a]);
                assert(delivered_by(ns2, k));
                assert(!m1.dom().contains(k));
                if m.dom().contains(k) {
                    assert(m1.dom().contains(k));
                }
            }
        }
        assert forall|k: Seq<char>| m.dom().contains(k) implies #[trigger] m2.dom().contains(k) by {
            assert(m1.dom().contains(k));
        }
        assert forall|k: Seq<char>| #[trigger] m2.dom().contains(k) && m2[k] != now implies m2[k] == m[k]
            && m.dom().contains(k) by {
            assert(m2[k] == m1[k] && m1.dom().contains(k));
        }
    }
}

/// A delivered reminder is not delivered again while its delivery is remembered: every
/// reminder id in the notices of one call is absent from the notices of the next call on the
/// ledger it left, so long as the next call comes within the retention window.
pub proof fn lemma_delivered_reminders_do_not_repeat(
    first_events: Seq<CalendarEvent>,
    second_events: Seq<CalendarEvent>,
    first_settings: ReminderSettings,
    second_settings: ReminderSettings,
    ledger: Map<Seq<char>, i64>,
    first_now: i64,
    second_now: i64,
)
    requires
        second_now - LEDGER_RETENTION_SECONDS <= first_now,
    ensures
        ({
            let (first, after) = due_notices_spec(first_events, first_settings, ledger, first_now);
            let (second, _) = due_notices_spec(second_events, second_settings, after, second_now);
            forall|k: Seq<char>| delivered_by(first, k) ==> !delivered_by(second, k)
        }),
{
    let (first, after) = due_notices_spec(first_events, first_settings, ledger, first_now);
    let (second, _) = due_notices_spec(second_events, second_settings, after, second_now);
    let c1 = first_now - LEDGER_RETENTION_SECONDS;
    let c2 = second_now - LEDGER_RETENTION_SECONDS;
    let pruned2 = recent(after, c2);
    if first_settings.enabled && first_settings.offsets_minutes@.len() > 0 {
        lemma_fold(first_events, first_settings.offsets_minutes@, recent(ledger, c1), first_now);
    }
    if second_settings.enabled && second_settings.offsets_minutes@.len() > 0 {
        lemma_fold(second_events, second_settings.offsets_minutes@, pruned2, second_now);
    }
    assert forall|k: Seq<char>| delivered_by(first, k) implies !delivered_by(second, k) by {
        assert(after.dom().contains(k) && after[k] == first_now);
        assert(pruned2.dom().contains(k));
    }
}

/// A call returns at most one notice per event, however many of its reminders are due.
pub proof fn lemma_one_notice_per_event(
    events: Seq<CalendarEvent>,
    settings: ReminderSettings,
    ledger: Map<Seq<char>, i64>,
    now: i64,
)
    ensures
        due_notices_spec(events, settings, ledger, now).0.len() <= events.len(),
{
    if settings.enabled && settings.offsets_minutes@.len() > 0 {
        lemma_fold(events, settings.offsets_minutes@, recent(ledger, now - LEDGER_RETENTION_SECONDS), now);
    }
}

/// After a call the ledger holds only deliveries within the retention window of `now`.
pub proof fn lemma_ledger_keeps_recent_deliveries(
    events: Seq<CalendarEvent>,
    settings: ReminderSettings,
    ledger: Map<Seq<char>, i64>,
    now: i64,
)
    ensures
        ({
            let after = due_notices_spec(events, settings, ledger, now).1;
            forall|k: Seq<char>| #[trigger] after.dom().contains(k) ==> after[k] >= now - LEDGER_RETENTION_SECONDS
        }),
{
    let pruned = recent(ledger, now - LEDGER_RETENTION_SECONDS);
    if settings.enabled && settings.offsets_minutes@.len() > 0 {
        lemma_fold(events, settings.offsets_minutes@, pruned, now);
    }
}

/// A delivery that failed can be retried: when the one notice of an event is taken back out
/// of the ledger, the next call at the same time gives the same notice and the same ledger.
pub proof fn lemma_failed_delivery_can_be_retried(
    event: CalendarEvent,
    settings: ReminderSettings,
    ledger: Map<Seq<char>, i64>,
    now: i64,
)
    requires
        due_notices_spec(seq![event], settings, ledger, now).0.len() == 1,
    ensures
        ({
            let (ns, after) = due_notices_spec(seq![event], settings, ledger, now);
            due_notices_spec(seq![event], settings, without_ids(after, ns[0].2), now) == (ns, after)
        }),
{
    let c = now - LEDGER_RETENTION_SECONDS;
    let pruned = recent(ledger, c);
    let offsets = settings.offsets_minutes@;
    let events = seq![event];
    assert(events.drop_last() =~= Seq::<CalendarEvent>::empty());
    assert(events.last() == event);
    let (ns, after) = notice_step(event, offsets, pruned, now);
    assert(notices_fold(events.drop_last(), offsets, pruned, now) == (Seq::<NoticeView>::empty(), pruned));
    assert(notices_fold(events, offsets, pruned, now) == (Seq::<NoticeView>::empty() + ns, after));
    assert(Seq::<NoticeView>::empty() + ns =~= ns);
    let ids = ns[0].2;
    let due = due_offsets(event, offsets, pruned, now);
    assert(ids == ids_for(event, sort_offsets(due)));
    assert(after == with_delivered(pruned, ids, now));
    lemma_step(event, offsets, pruned, now);
    let restored = without_ids(after, ids);
    assert forall|k: Seq<char>| #[trigger] restored.dom().contains(k) == pruned.dom().contains(k)
        && (restored.dom().contains(k) ==> restored[k] == pruned[k]) by {
        lemma_without_ids(after, ids, k);
        lemma_with_delivered(pruned, ids, now, k);
        if ids.contains(k) {
            let i = choose|i: int| 0 <= i < ids.len() && ids[i] == k;
            assert(ns[0].2.contains(k));
            assert(delivered_by(ns, k));
        }
    }
    assert(restored =~= pruned);
    assert(recent(pruned, c) =~= pruned);
}


// ---------------------------------------------------------------------------
// The scheduler's state
// ---------------------------------------------------------------------------

/// The events being watched, the reminder settings and the delivery ledger.
pub struct ReminderRuntime {
    pub events: Vec<CalendarEvent>,
    pub settings: ReminderSettings,
    pub ledger: ReminderLedger,
}

/// Replaces the reminder settings, keeping the events and the ledger.
pub fn update_settings(runtime: &mut ReminderRuntime, settings: ReminderSettings)
    ensures
        final(runtime).settings == settings,
        final(runtime).events == old(runtime).events,
        final(runtime).ledger == old(runtime).ledger,
{
    runtime.settings = settings;
}

/// Replaces the watched events and the settings, keeping the ledger.
pub fn replace_events(
    runtime: &mut ReminderRuntime,
    events: Vec<CalendarEvent>,
    settings: ReminderSettings,
)
    ensures
        final(runtime).events == events,
        final(runtime).settings == settings,
        final(runtime).ledger == old(runtime).ledger,
{
    runtime.events = events;
    runtime.settings = settings;
}

/// Whether the reminder arithmetic for these inputs stays within `i64`.
pub fn times_in_range(events: &[CalendarEvent], settings: &ReminderSettings, now_unix: i64) -> (r: bool)
    ensures
        r == reminder_times_in_range(events@, *settings, now_unix),
{
    if now_unix < i64::MIN + LEDGER_RETENTION_SECONDS {
        return false;
    }
    if !settings.enabled || settings.offsets_minutes.len() == 0 {
        return true;
    }
    let mut i: usize = 0;
    while i < events.len()
        invariant
            i <= events.len(),
            settings.enabled && settings.offsets_minutes@.len() > 0,
            forall|k: int|
                0 <= k < i && reminder_eligible(#[trigger] events@[k], now_unix) ==> event_times_in_range(
                    events@[k],
                    settings.offsets_minutes@,
                    now_unix,
                ),
        decreases events.len() - i,
    {
        let event = &events[i];
        let status = chars_of(event.status.as_str());
        if !event.all_day && !eq_str(&status, "cancelled") && event.start_unix > now_unix {
            assert(reminder_eligible(events@[i as int], now_unix));
            if (event.start_unix as i128) - (now_unix as i128) + 59 > i64::MAX as i128 {
                assert(!event_times_in_range(events@[i as int], settings.offsets_minutes@, now_unix));
                return false;
            }
            let offsets = &settings.offsets_minutes;
            let mut j: usize = 0;
            while j < offsets.len()
                invariant
                    j <= offsets.len(),
                    i < events.len(),
                    *event == events@[i as int],
                    reminder_eligible(events@[i as int], now_unix),
                    settings.enabled && settings.offsets_minutes@.len() > 0,
                    offsets@ == settings.offsets_minutes@,
                    forall|q: int| 0 <= q < j ==> event.start_unix - (#[trigger] offsets@[q]) * 60 >= i64::MIN,
                decreases offsets.len() - j,
            {
                if event.start_unix < i64::MIN + (offsets[j] as i64) * 60 {
                    assert(event.start_unix - offsets@[j as int] * 60 < i64::MIN);
                    assert(!event_times_in_range(events@[i as int], settings.offsets_minutes@, now_unix));
                    return false;
                }
                j = j + 1;
            }
        }
        i = i + 1;
    }
    true
}

impl ReminderRuntime {
    /// Works out the notices due at `now_unix` and records them in the ledger. Returns them
    /// with a copy of the ledger to persist, or `None`, leaving the state unchanged, when the
    /// times involved overflow `i64`.
    pub fn take_due(&mut self, now_unix: i64) -> (r: Option<(Vec<ReminderNotice>, ReminderLedger)>)
        ensures
            r is None <==> !reminder_times_in_range(old(self).events@, old(self).settings, now_unix),
            r is None ==> *final(self) == *old(self),
            r matches Some((notices, snapshot)) ==> {
                &&& (notices_view(notices@), final(self).ledger@) == due_notices_spec(
                    old(self).events@,
                    old(self).settings,
                    old(self).ledger@,
                    now_unix,
                )
                &&& snapshot@ == final(self).ledger@
                &&& final(self).events == old(self).events
                &&& final(self).settings == old(self).settings
            },
    {
        if !times_in_range(self.events.as_slice(), &self.settings, now_unix) {
            return None;
        }
        let notices = due_notices(self.events.as_slice(), &self.settings, &mut self.ledger, now_unix);
        let snapshot = self.ledger.duplicate();
        Some((notices, snapshot))
    }
}

/// The notice shown to check that desktop alerts work.
pub fn test_notice() -> (r: ReminderNotice)
    ensures
        r.parts() == ("Happy Wakey reminders are ready"@, "Calendar alerts will appear here before your next event."@, Seq::<Seq<char>>::empty()),
{
    let r = ReminderNotice {
        title: crate::text::from_str("Happy Wakey reminders are ready"),
        body: crate::text::from_str("Calendar alerts will appear here before your next event."),
        ledger_ids: Vec::new(),
    };
    assert(strings_view(r.ledger_ids@) =~= Seq::<Seq<char>>::empty());
    r
}

/// Whether a macOS bundle identifier is acceptable: non-empty, at most 255 bytes, and made
/// only of ASCII letters, digits, `.` and `-`.
pub open spec fn valid_bundle_id_spec(s: &str) -> bool {
    &&& s@.len() > 0
    &&& s.len() <= 255
    &&& forall|i: int|
        0 <= i < s@.len() ==> crate::text::is_ascii_alnum_spec(#[trigger] s@[i]) || s@[i] == '.'
            || s@[i] == '-'
}

pub fn is_valid_bundle_id(bundle_id: &str) -> (r: bool)
    ensures
        r == valid_bundle_id_spec(bundle_id),
{
    let cs = chars_of(bundle_id);
    if cs.len() == 0 || bundle_id.len() > 255 {
        return false;
    }
    let mut i: usize = 0;
    while i < cs.len()
        invariant
            i <= cs.len(),
            cs@ == bundle_id@,
            forall|k: int|
                0 <= k < i ==> crate::text::is_ascii_alnum_spec(#[trigger] bundle_id@[k])
                    || bundle_id@[k] == '.' || bundle_id@[k] == '-',
        decreases cs.len() - i,
    {
        let c = cs[i];
        if !(crate::text::is_ascii_alnum(c) || c == '.' || c == '-') {
            assert(bundle_id@[i as int] == c);
            return false;
        }
        i = i + 1;
    }
    true
}

} // verus!
