use vstd::prelude::*;

verus! {

use serde_json::Value;
use crate::get_current_time_in_ms;
use crate::types::{clone_value, ErrorTypes, Event, LogType, TrackerResult};

/// One query result row: the key together with the stored category and payload.
pub type Log = (u64, (LogType, Value));

/// Entries stand in strictly ascending timestamp order, so each key occurs once.
pub open spec fn sorted_by_timestamp(s: Seq<Event>) -> bool {
    forall|i: int, j: int|
        0 <= i < j < s.len() ==> #[trigger] s[i].timestamp < #[trigger] s[j].timestamp
}

/// Index of the first entry whose timestamp is at least `ts` (the length if none is).
pub open spec fn first_at_or_after(s: Seq<Event>, ts: u64) -> int
    decreases s.len(),
{
    if s.len() == 0 {
        0
    } else if s[0].timestamp >= ts {
        0
    } else {
        1 + first_at_or_after(s.drop_first(), ts)
    }
}

/// The store after accepting `e`: an entry at an equal key is overwritten,
/// any other entry keeps its place, and a fresh key enters in order.
pub open spec fn store_insert(s: Seq<Event>, e: Event) -> Seq<Event> {
    let i = first_at_or_after(s, e.timestamp);
    if i < s.len() && s[i].timestamp == e.timestamp {
        s.update(i, e)
    } else {
        s.insert(i, e)
    }
}

/// Whether an entry passes the category filter (no filter passes everything).
pub open spec fn passes_filter(e: Event, filter: Option<LogType>) -> bool {
    filter matches Some(t) ==> e.log_type == t
}

/// Whether an entry falls in the inclusive key range and passes the filter.
pub open spec fn entry_selected(e: Event, lo: u64, hi: u64, filter: Option<LogType>) -> bool {
    lo <= e.timestamp <= hi && passes_filter(e, filter)
}

/// The row a stored entry contributes to a query result.
pub open spec fn row_of(e: Event) -> Log {
    (e.timestamp, (e.log_type, e.payload))
}

/// The rows of `s` selected by the range and the filter, in store order.
pub open spec fn query_rows(s: Seq<Event>, lo: u64, hi: u64, filter: Option<LogType>) -> Seq<Log>
    decreases s.len(),
{
    if s.len() == 0 {
        Seq::empty()
    } else {
        let rest = query_rows(s.drop_first(), lo, hi, filter);
        if entry_selected(s[0], lo, hi, filter) {
            seq![row_of(s[0])] + rest
        } else {
            rest
        }
    }
}

/// Extending the store by one entry extends its query rows by that entry's
/// row exactly when the entry is selected.
proof fn lemma_query_rows_push(s: Seq<Event>, e: Event, lo: u64, hi: u64, filter: Option<LogType>)
    ensures
        query_rows(s.push(e), lo, hi, filter) == query_rows(s, lo, hi, filter) + (
        if entry_selected(e, lo, hi, filter) {
            seq![row_of(e)]
        } else {
            Seq::<Log>::empty()
        }),
    decreases s.len(),
{
    let t = s.push(e);
    let qs = query_rows(s, lo, hi, filter);
    let qd = query_rows(s.drop_first(), lo, hi, filter);
    let x: Seq<Log> = if entry_selected(e, lo, hi, filter) {
        seq![row_of(e)]
    } else {
        Seq::<Log>::empty()
    };
    if s.len() == 0 {
        assert(s =~= Seq::<Event>::empty());
        assert(t.drop_first() =~= Seq::<Event>::empty());
        assert(query_rows(Seq::<Event>::empty(), lo, hi, filter) == Seq::<Log>::empty());
        assert(t[0] == e);
        assert(query_rows(t, lo, hi, filter) =~= qs + x);
    } else {
        assert(t.drop_first() =~= s.drop_first().push(e));
        lemma_query_rows_push(s.drop_first(), e, lo, hi, filter);
        assert(query_rows(t.drop_first(), lo, hi, filter) == qd + x);
        assert(t[0] == s[0]);
        if entry_selected(s[0], lo, hi, filter) {
            assert(query_rows(t, lo, hi, filter) == seq![row_of(s[0])] + (qd + x));
            assert(seq![row_of(s[0])] + (qd + x) =~= (seq![row_of(s[0])] + qd) + x);
            assert(query_rows(t, lo, hi, filter) == qs + x);
        } else {
            assert(query_rows(t, lo, hi, filter) == qs + x);
        }
    }
}

/// The projection that turns a stored entry into a result row.
pub open spec fn to_row() -> spec_fn(Event) -> Log {
    |e: Event| row_of(e)
}

/// The predicate a category filter imposes on stored entries.
pub open spec fn filter_pred(filter: Option<LogType>) -> spec_fn(Event) -> bool {
    |e: Event| passes_filter(e, filter)
}

/// When every entry is selected, the query rows are the whole projection.
proof fn lemma_query_rows_all(s: Seq<Event>, lo: u64, hi: u64, filter: Option<LogType>)
    requires
        forall|k: int| 0 <= k < s.len() ==> entry_selected(#[trigger] s[k], lo, hi, filter),
    ensures
        query_rows(s, lo, hi, filter) == s.map_values(to_row()),
    decreases s.len(),
{
    if s.len() == 0 {
        assert(query_rows(s, lo, hi, filter) =~= s.map_values(to_row()));
    } else {
        let d = s.drop_last();
        assert(forall|k: int| 0 <= k < d.len() ==> #[trigger] d[k] == s[k]);
        lemma_query_rows_all(d, lo, hi, filter);
        assert(s =~= d.push(s.last()));
        lemma_query_rows_push(d, s.last(), lo, hi, filter);
        assert(entry_selected(s.last(), lo, hi, filter));
        assert(query_rows(s, lo, hi, filter) == d.map_values(to_row()) + seq![row_of(s.last())]);
        assert(d.map_values(to_row()) + seq![row_of(s.last())] =~= s.map_values(to_row()));
    }
}

/// When the range covers every key, the query rows are the filtered projection.
proof fn lemma_query_rows_filtered(s: Seq<Event>, hi: u64, filter: Option<LogType>)
    requires
        forall|k: int| 0 <= k < s.len() ==> #[trigger] s[k].timestamp <= hi,
    ensures
        query_rows(s, 0, hi, filter) == s.filter(filter_pred(filter)).map_values(to_row()),
    decreases s.len(),
{
    reveal(Seq::filter);
    let p = filter_pred(filter);
    if s.len() == 0 {
        assert(query_rows(s, 0, hi, filter) =~= s.filter(p).map_values(to_row()));
    } else {
        let d = s.drop_last();
        assert(forall|k: int| 0 <= k < d.len() ==> #[trigger] d[k] == s[k]);
        lemma_query_rows_filtered(d, hi, filter);
        assert(s =~= d.push(s.last()));
        lemma_query_rows_push(d, s.last(), 0, hi, filter);
        assert(p(s.last()) == passes_filter(s.last(), filter));
        assert(entry_selected(s.last(), 0, hi, filter) == passes_filter(s.last(), filter));
        if entry_selected(s.last(), 0, hi, filter) {
            assert(s.filter(p) == d.filter(p).push(s.last()));
            assert(query_rows(s, 0, hi, filter) == d.filter(p).map_values(to_row()) + seq![
                row_of(s.last()),
            ]);
            assert(d.filter(p).map_values(to_row()) + seq![row_of(s.last())] =~= d.filter(p).push(
                s.last(),
            ).map_values(to_row()));
        } else {
            assert(s.filter(p) == d.filter(p));
            assert(query_rows(s, 0, hi, filter) == d.filter(p).map_values(to_row()) + Seq::<
                Log,
            >::empty());
            assert(d.filter(p).map_values(to_row()) + Seq::<Log>::empty() =~= d.filter(
                p,
            ).map_values(to_row()));
        }
    }
}

/// An event the store has accepted is found by an unconstrained query exactly
/// once: one row carries the event, and every other row has another key.
pub proof fn lemma_insert_then_query_includes(s: Seq<Event>, e: Event)
    requires
        sorted_by_timestamp(s),
    ensures
        ({
            let t = store_insert(s, e);
            let rows = query_rows(t, 0, t.last().timestamp, None);
            exists|i: int|
                #![auto]
                {
                    &&& 0 <= i < rows.len()
                    &&& rows[i] == row_of(e)
                    &&& forall|j: int|
                        0 <= j < rows.len() && j != i ==> #[trigger] rows[j].0 != e.timestamp
                }
        }),
{
    let t = store_insert(s, e);
    lemma_store_insert_sorted(s, e);
    lemma_first_at_or_after_bounds(s, e.timestamp);
    let i0 = first_at_or_after(s, e.timestamp);
    assert(t[i0] == e);
    assert(t.len() > 0);
    assert forall|k: int| 0 <= k < t.len() implies entry_selected(
        #[trigger] t[k],
        0,
        t.last().timestamp,
        None,
    ) by {
        if k < t.len() - 1 {
            assert(t[k].timestamp < t[t.len() - 1].timestamp);
        }
    }
    lemma_query_rows_all(t, 0, t.last().timestamp, None);
    let rows = query_rows(t, 0, t.last().timestamp, None);
    assert(rows[i0] == row_of(e));
    assert forall|j: int| 0 <= j < rows.len() && j != i0 implies #[trigger] rows[j].0
        != e.timestamp by {
        assert(rows[j] == row_of(t[j]));
        if j < i0 {
            assert(t[j].timestamp < t[i0].timestamp);
        } else {
            assert(t[i0].timestamp < t[j].timestamp);
        }
    }
}

/// Writing twice at one key keeps only the second event: the store after the
/// two writes is exactly the store after the second write alone.
pub proof fn lemma_overwrite_last_write_wins(s: Seq<Event>, e1: Event, e2: Event)
    requires
        sorted_by_timestamp(s),
        e1.timestamp == e2.timestamp,
    ensures
        store_insert(store_insert(s, e1), e2) == store_insert(s, e2),
{
    let ts = e1.timestamp;
    lemma_first_at_or_after_bounds(s, ts);
    let i = first_at_or_after(s, ts);
    let t = store_insert(s, e1);
    if i < s.len() && s[i].timestamp == ts {
        lemma_first_at_or_after_is(t, ts, i);
        assert(store_insert(t, e2) == t.update(i, e2));
        assert(t.update(i, e2) =~= s.update(i, e2));
        assert(store_insert(s, e2) == s.update(i, e2));
    } else {
        lemma_first_at_or_after_is(t, ts, i);
        assert(t[i] == e1);
        assert(store_insert(t, e2) == t.update(i, e2));
        assert(t.update(i, e2) =~= s.insert(i, e2));
        assert(store_insert(s, e2) == s.insert(i, e2));
    }
}

/// With no range bounds and a category filter, the query returns exactly the
/// rows of the entries of that category, in store order.
pub proof fn lemma_filter_correctness(s: Seq<Event>, ty: LogType)
    requires
        sorted_by_timestamp(s),
        s.len() > 0,
    ensures
        query_rows(s, 0, s.last().timestamp, Some(ty)) == s.filter(
            filter_pred(Some(ty)),
        ).map_values(to_row()),
{
    assert forall|k: int| 0 <= k < s.len() implies #[trigger] s[k].timestamp
        <= s.last().timestamp by {
        if k < s.len() - 1 {
            assert(s[k].timestamp < s[s.len() - 1].timestamp);
        }
    }
    lemma_query_rows_filtered(s, s.last().timestamp, Some(ty));
}

/// Query rows come out in strictly ascending timestamp order, and each row
/// is the row of some stored entry.
pub proof fn lemma_query_rows_sorted(s: Seq<Event>, lo: u64, hi: u64, filter: Option<LogType>)
    requires
        sorted_by_timestamp(s),
    ensures
        ({
            let rows = query_rows(s, lo, hi, filter);
            &&& forall|p: int, q: int|
                0 <= p < q < rows.len() ==> #[trigger] rows[p].0 < #[trigger] rows[q].0
            &&& forall|p: int|
                0 <= p < rows.len() ==> exists|k: int|
                    #![auto]
                    0 <= k < s.len() && #[trigger] rows[p] == row_of(s[k])
        }),
    decreases s.len(),
{
    if s.len() == 0 {
    } else {
        let d = s.drop_first();
        assert(forall|k: int| 0 <= k < d.len() ==> #[trigger] d[k] == s[k + 1]);
        lemma_query_rows_sorted(d, lo, hi, filter);
        let rest = query_rows(d, lo, hi, filter);
        let rows = query_rows(s, lo, hi, filter);
        assert forall|p: int| 0 <= p < rows.len() implies exists|k: int|
            #![auto]
            0 <= k < s.len() && #[trigger] rows[p] == row_of(s[k]) by {
            if entry_selected(s[0], lo, hi, filter) {
                if p == 0 {
                    assert(rows[0] == row_of(s[0]));
                } else {
                    assert(rows[p] == rest[p - 1]);
                    let k = choose|k: int| #![auto] 0 <= k < d.len() && rest[p - 1] == row_of(d[k]);
                    assert(rows[p] == row_of(s[k + 1]));
                }
            } else {
                assert(rows[p] == rest[p]);
                let k = choose|k: int| #![auto] 0 <= k < d.len() && rest[p] == row_of(d[k]);
                assert(rows[p] == row_of(s[k + 1]));
            }
        }
        assert forall|p: int, q: int| 0 <= p < q < rows.len() implies #[trigger] rows[p].0
            < #[trigger] rows[q].0 by {
            if entry_selected(s[0], lo, hi, filter) {
                if p == 0 {
                    assert(rows[q] == rest[q - 1]);
                    let k = choose|k: int| #![auto] 0 <= k < d.len() && rest[q - 1] == row_of(d[k]);
                    assert(rows[q].0 == s[k + 1].timestamp);
                    assert(s[0].timestamp < s[k + 1].timestamp);
                } else {
                    assert(rows[p] == rest[p - 1] && rows[q] == rest[q - 1]);
                }
            } else {
                assert(rows[p] == rest[p] && rows[q] == rest[q]);
            }
        }
    }
}

/// A wrapper around the container type to store the logs. Entries are held
/// in ascending timestamp order, one entry per timestamp.
pub struct Storage {
    entries: Vec<Event>,
}

impl View for Storage {
    type V = Seq<Event>;

    closed spec fn view(&self) -> Seq<Event> {
        self.entries@
    }
}

impl Storage {
    /// The store's invariant: its entries are sorted by their keys.
    pub open spec fn wf(self) -> bool {
        sorted_by_timestamp(self@)
    }

    /// Create a new instance to store a set of logs in.
    pub fn new() -> (r: Self)
        ensures
            r@ == Seq::<Event>::empty(),
            r.wf(),
    {
        Storage { entries: Vec::new() }
    }

    /// How many entries the store currently holds.
    pub fn len(&self) -> (r: usize)
        ensures
            r == self@.len(),
    {
        self.entries.len()
    }

    /// Whether the store currently holds no entry at all.
    pub fn is_empty(&self) -> (r: bool)
        ensures
            r == (self@.len() == 0),
    {
        self.entries.is_empty()
    }

    /// Store `event`, taking `now` as the clock's current reading: an event
    /// dated up to `now` lands at its key (overwriting an equal key), a
    /// future-dated one is rejected whole and the store is left unchanged.
    pub fn write_log(&mut self, event: Event, now: u64) -> (r: TrackerResult<()>)
        requires
            old(self).wf(),
        ensures
            final(self).wf(),
            event.timestamp <= now ==> r is Ok && final(self)@ == store_insert(
                old(self)@,
                event,
            ),
            event.timestamp > now ==> (r matches Err(e) && e is FutureTimestamp
                && final(self)@ == old(self)@),
    {
        if event.timestamp > now {
            return Err(ErrorTypes::FutureTimestamp);
        }
        let ghost s = self.entries@;
        let ghost ts = event.timestamp;
        let mut i: usize = 0;
        while i < self.entries.len() && self.entries[i].timestamp < event.timestamp
            invariant
                self.entries@ == s,
                ts == event.timestamp,
                0 <= i <= s.len(),
                forall|j: int| 0 <= j < i ==> #[trigger] s[j].timestamp < ts,
            decreases s.len() - i,
        {
            i += 1;
        }
        proof {
            lemma_first_at_or_after_is(s, ts, i as int);
            lemma_store_insert_sorted(s, event);
        }
        if i < self.entries.len() && self.entries[i].timestamp == event.timestamp {
            self.entries.set(i, event);
        } else {
            self.entries.insert(i, event);
        }
        Ok(())
    }

    /// From a specified `start_time` and `end_time`, return a vector of the
    /// logs in the inclusive range, in ascending timestamp order. Optionally,
    /// can add an additional filter for specific events. `start_time` and
    /// `end_time` are optional as well: an omitted start bound is zero, an
    /// omitted end bound is the largest key currently present.
    /// # Errors
    ///
    /// Will return `Err` if `start_time` is greater than `end_time`, or if
    /// the store holds no entries at all.
    pub fn get_logs_in_range(
        &self,
        start_time: Option<u64>,
        end_time: Option<u64>,
        event_type: Option<LogType>,
    ) -> (r: TrackerResult<Vec<Log>>)
        requires
            self.wf(),
        ensures
            ({
                let bad = start_time matches Some(a) && end_time matches Some(b) && a > b;
                let lo = match start_time { Some(a) => a, None => 0u64 };
                let hi = match end_time {
                    Some(b) => b,
                    None => self@.last().timestamp,
                };
                &&& bad ==> (r matches Err(e) && e is InvalidRange)
                &&& !bad && self@.len() == 0 ==> (r matches Err(e) && e is EmptyLogFile)
                &&& !bad && self@.len() > 0 ==> (r matches Ok(v) && v@ == query_rows(
                    self@,
                    lo,
                    hi,
                    event_type,
                ))
            }),
    {
        if let (Some(start), Some(end)) = (start_time, end_time) {
            if start > end {
                return Err(
                    ErrorTypes::InvalidRange("Start time must be earlier than end time".to_owned()),
                );
            }
        }
        if self.entries.len() == 0 {
            return Err(ErrorTypes::EmptyLogFile);
        }
        let lo = match start_time {
            Some(a) => a,
            None => 0,
        };
        let hi = match end_time {
            Some(b) => b,
            None => self.entries[self.entries.len() - 1].timestamp,
        };
        let mut out: Vec<Log> = Vec::new();
        let mut i: usize = 0;
        while i < self.entries.len()
            invariant
                0 <= i <= self.entries@.len(),
                out@ == query_rows(self.entries@.take(i as int), lo, hi, event_type),
            decreases self.entries@.len() - i,
        {
            let e = &self.entries[i];
            let keep = lo <= e.timestamp && e.timestamp <= hi && (match &event_type {
                Some(t) => *t == e.log_type,
                None => true,
            });
            proof {
                assert(self.entries@.take(i + 1) =~= self.entries@.take(i as int).push(
                    self.entries@[i as int],
                ));
                lemma_query_rows_push(
                    self.entries@.take(i as int),
                    self.entries@[i as int],
                    lo,
                    hi,
                    event_type,
                );
            }
            if keep {
                out.push((e.timestamp, (e.log_type, clone_value(&e.payload))));
                proof {
                    assert(out@ =~= query_rows(self.entries@.take(i + 1), lo, hi, event_type));
                }
            } else {
                proof {
                    assert(out@ =~= query_rows(self.entries@.take(i + 1), lo, hi, event_type));
                }
            }
            i += 1;
        }
        proof {
            assert(self.entries@.take(self.entries@.len() as int) =~= self.entries@);
        }
        Ok(out)
    }

    /// Fetch the current time and store `event` against it. On success the
    /// event stands at its key; on any rejection nothing is mutated.
    pub fn write_log_to_storage(&mut self, event: Event) -> (r: TrackerResult<()>)
        requires
            old(self).wf(),
        ensures
            final(self).wf(),
            r is Ok ==> final(self)@ == store_insert(old(self)@, event),
            r matches Err(e) ==> final(self)@ == old(self)@ && (e is FutureTimestamp
                || e is TimeAnomaly),
    {
        match get_current_time_in_ms() {
            Ok(now) => self.write_log(event, now),
            Err(e) => Err(e),
        }
    }
}

impl Default for Storage {
    /// An empty store, as `new` makes one.
    fn default() -> (r: Self)
        ensures
            r@ == Seq::<Event>::empty(),
            r.wf(),
    {
        Storage::new()
    }
}

/// Where a scan stopped is exactly where `first_at_or_after` points.
proof fn lemma_first_at_or_after_is(s: Seq<Event>, ts: u64, i: int)
    requires
        0 <= i <= s.len(),
        forall|j: int| 0 <= j < i ==> #[trigger] s[j].timestamp < ts,
        i < s.len() ==> s[i].timestamp >= ts,
    ensures
        first_at_or_after(s, ts) == i,
    decreases s.len(),
{
    if s.len() == 0 {
    } else if i == 0 {
    } else {
        assert(s[0].timestamp < ts);
        lemma_first_at_or_after_is(s.drop_first(), ts, i - 1);
    }
}

/// Bounds of `first_at_or_after`: everything before it lies below `ts`,
/// and what stands at it (if anything) does not.
proof fn lemma_first_at_or_after_bounds(s: Seq<Event>, ts: u64)
    ensures
        0 <= first_at_or_after(s, ts) <= s.len(),
        forall|j: int| 0 <= j < first_at_or_after(s, ts) ==> #[trigger] s[j].timestamp < ts,
        first_at_or_after(s, ts) < s.len() ==> s[first_at_or_after(s, ts)].timestamp >= ts,
    decreases s.len(),
{
    if s.len() == 0 {
    } else if s[0].timestamp >= ts {
    } else {
        lemma_first_at_or_after_bounds(s.drop_first(), ts);
        assert forall|j: int| 0 <= j < first_at_or_after(s, ts) implies #[trigger] s[j].timestamp
            < ts by {
            if j > 0 {
                assert(s.drop_first()[j - 1].timestamp < ts);
            }
        }
    }
}

/// Accepting an event keeps the store sorted.
proof fn lemma_store_insert_sorted(s: Seq<Event>, e: Event)
    requires
        sorted_by_timestamp(s),
    ensures
        sorted_by_timestamp(store_insert(s, e)),
{
    lemma_first_at_or_after_bounds(s, e.timestamp);
    let i = first_at_or_after(s, e.timestamp);
    let t = store_insert(s, e);
    if i < s.len() && s[i].timestamp == e.timestamp {
        assert forall|p: int, q: int| 0 <= p < q < t.len() implies #[trigger] t[p].timestamp
            < #[trigger] t[q].timestamp by {
            assert(s[p].timestamp < s[q].timestamp);
        }
    } else {
        assert forall|p: int, q: int| 0 <= p < q < t.len() implies #[trigger] t[p].timestamp
            < #[trigger] t[q].timestamp by {
            if p < i && q == i {
            } else if p == i && q > i {
                assert(s[q - 1].timestamp >= s[i].timestamp) by {
                    if q - 1 > i {
                        assert(s[i].timestamp < s[q - 1].timestamp);
                    }
                }
            } else if p < i && q > i {
                assert(s[p].timestamp < e.timestamp);
                assert(s[q - 1].timestamp >= s[i].timestamp);
            } else {
            }
        }
    }
}

} // verus!
