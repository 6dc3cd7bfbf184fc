use vstd::prelude::*;
use vstd::string::StringExecFns;

verus! {

/// One bucket of the time aggregation: bucket start, request count,
/// mean latency in hundredths of a millisecond, and the tri-state
/// filtered class of the bucket.
pub struct TimeBucket {
    pub bucket_ms: i64,
    pub count: i64,
    pub avg_centi_ms: i64,
    pub filtered: Option<bool>,
}

/// The three standing series of the dashboard, one per filtered
/// class, plus totals.
pub struct DashboardSplit {
    pub rejected: Vec<(i64, i64, i64)>,
    pub approved: Vec<(i64, i64, i64)>,
    pub passed: Vec<(i64, i64, i64)>,
    pub total_count: i64,
    pub reject_count: i64,
}

pub open spec fn bucket_class(b: TimeBucket, class: Option<bool>) -> bool {
    b.filtered == class
}

pub open spec fn class_rows(rows: Seq<TimeBucket>, class: Option<bool>) -> Seq<(i64, i64, i64)> {
    rows.filter(|b: TimeBucket| b.filtered == class).map_values(
        |b: TimeBucket| (b.bucket_ms, b.count, b.avg_centi_ms),
    )
}

pub open spec fn count_sum(rows: Seq<TimeBucket>) -> int
    decreases rows.len(),
{
    if rows.len() == 0 {
        0
    } else {
        count_sum(rows.drop_last()) + rows.last().count
    }
}

pub open spec fn reject_sum(rows: Seq<TimeBucket>) -> int
    decreases rows.len(),
{
    if rows.len() == 0 {
        0
    } else {
        reject_sum(rows.drop_last()) + (if rows.last().filtered == Some(false) {
            rows.last().count as int
        } else {
            0
        })
    }
}

/// Split the aggregation buckets into the dashboard's three series,
/// keeping their order, and add up the totals the header shows.
pub fn build_dashboard(rows: &Vec<TimeBucket>) -> (r: DashboardSplit)
    requires
        forall|i: int| 0 <= i < rows@.len() ==> 0 <= (#[trigger] rows@[i]).count,
        count_sum(rows@) <= i64::MAX,
    ensures
        r.rejected@ == class_rows(rows@, Some(false)),
        r.approved@ == class_rows(rows@, Some(true)),
        r.passed@ == class_rows(rows@, None::<bool>),
        r.total_count == count_sum(rows@),
        r.reject_count == reject_sum(rows@),
{
    let mut rejected: Vec<(i64, i64, i64)> = Vec::new();
    let mut approved: Vec<(i64, i64, i64)> = Vec::new();
    let mut passed: Vec<(i64, i64, i64)> = Vec::new();
    let mut total_count: i64 = 0;
    let mut reject_count: i64 = 0;
    let mut i: usize = 0;
    proof {
        reveal_with_fuel(Seq::filter, 2);
        assert(rows@.take(0) =~= Seq::<TimeBucket>::empty());
        assert(count_sum(rows@.take(0)) == 0);
        assert(reject_sum(rows@.take(0)) == 0);
    }
    while i < rows.len()
        invariant
            i <= rows@.len(),
            forall|k: int| 0 <= k < rows@.len() ==> 0 <= (#[trigger] rows@[k]).count,
            count_sum(rows@) <= i64::MAX,
            rejected@ =~= class_rows(rows@.take(i as int), Some(false)),
            approved@ =~= class_rows(rows@.take(i as int), Some(true)),
            passed@ =~= class_rows(rows@.take(i as int), None::<bool>),
            total_count == count_sum(rows@.take(i as int)),
            reject_count == reject_sum(rows@.take(i as int)),
            0 <= total_count,
            0 <= reject_count <= total_count,
        decreases rows@.len() - i,
    {
        proof {
            reveal_with_fuel(Seq::filter, 2);
            assert(rows@.take(i as int + 1).drop_last() =~= rows@.take(i as int));
            assert(rows@.take(i as int + 1).last() == rows@[i as int]);
            lemma_count_sum_prefix(rows@, i as int + 1);
        }
        let b = &rows[i];
        let row = (b.bucket_ms, b.count, b.avg_centi_ms);
        match b.filtered {
            Some(false) => {
                rejected.push(row);
                reject_count = reject_count + b.count;
            },
            Some(true) => {
                approved.push(row);
            },
            None => {
                passed.push(row);
            },
        }
        total_count = total_count + b.count;
        i += 1;
    }
    proof {
        assert(rows@.take(rows@.len() as int) =~= rows@);
    }
    DashboardSplit { rejected, approved, passed, total_count, reject_count }
}

proof fn lemma_count_sum_prefix(rows: Seq<TimeBucket>, n: int)
    requires
        0 <= n <= rows.len(),
        forall|i: int| 0 <= i < rows.len() ==> 0 <= (#[trigger] rows[i]).count,
    ensures
        count_sum(rows.take(n)) <= count_sum(rows),
        reject_sum(rows.take(n)) >= 0,
        count_sum(rows.take(n)) >= 0,
        reject_sum(rows.take(n)) <= count_sum(rows.take(n)),
    decreases rows.len() - n,
{
    if n < rows.len() {
        lemma_count_sum_prefix(rows, n + 1);
        assert(rows.take(n + 1).drop_last() =~= rows.take(n));
        assert(rows.take(n + 1).last() == rows[n]);
        lemma_count_reject_nonneg(rows.take(n));
    } else {
        assert(rows.take(n) =~= rows);
        lemma_count_reject_nonneg(rows);
    }
}

proof fn lemma_count_reject_nonneg(rows: Seq<TimeBucket>)
    requires
        forall|i: int| 0 <= i < rows.len() ==> 0 <= (#[trigger] rows[i]).count,
    ensures
        0 <= count_sum(rows),
        0 <= reject_sum(rows) <= count_sum(rows),
    decreases rows.len(),
{
    if rows.len() > 0 {
        assert(rows.drop_last() =~= rows.take(rows.len() - 1));
        assert forall|i: int| 0 <= i < rows.drop_last().len() implies 0 <= (
        #[trigger] rows.drop_last()[i]).count by {
            assert(rows.drop_last()[i] == rows[i]);
        }
        lemma_count_reject_nonneg(rows.drop_last());
    }
}

/// A requested name, its trailing dot elided for display.
pub fn strip_display_dot(name: String) -> (r: String)
    ensures
        r@ == (if name@.len() > 0 && name@.last() == '.' {
            name@.drop_last()
        } else {
            name@
        }),
{
    let n = name.unicode_len();
    if n > 0 && name.as_str().get_char(n - 1) == '.' {
        let r = name.as_str().substring_char(0, n - 1);
        proof {
            assert(name@.subrange(0, name@.len() - 1) =~= name@.drop_last());
        }
        String::from_str(r)
    } else {
        name
    }
}

/// An error the presenter reports to its clients.
pub struct WebError {
    pub error: String,
}

impl WebError {
    pub fn new(error: String) -> (e: WebError)
        ensures
            e.error == error,
    {
        WebError { error }
    }

    /// The message carried, for display.
    pub fn message(&self) -> (r: &String)
        ensures
            r == self.error,
    {
        &self.error
    }
}

/// A live-stream command: store a subscriber, drop one, send one a
/// text, or send a text to all of them. The subscriber's sink itself
/// stays with the socket layer; the fan-out logic needs only the ids.
pub enum WsMessage {
    Store(u32),
    Drop(u32),
    Send(u32, String),
    SendAll(String),
}

/// What the fan-out consumer reacts to: a command from the channel,
/// or a delivery that ran out of its time budget.
pub enum WsEvent {
    Msg(WsMessage),
    SendTimedOut(u32),
}

/// What the socket layer must perform after a step: deliver a text to
/// a subscriber, or close one.
pub enum WsAction {
    Transmit(u32, String),
    Close(u32),
}

/// Subscriber ids are distinct.
pub open spec fn subs_wf(s: Seq<u32>) -> bool {
    forall|i: int, j: int| 0 <= i < j < s.len() ==> s[i] != s[j]
}

/// A drop (asked for, or forced by a timed-out delivery) removes the
/// subscriber, keeping the others in order, and closes it; dropping
/// an unknown id does nothing.
pub open spec fn drop_effect(pre: Seq<u32>, post: Seq<u32>, acts: Seq<WsAction>, id: u32) -> bool {
    &&& (pre.contains(id) ==> (exists|i: int|
        0 <= i < pre.len() && pre[i] == id && post == pre.remove(i)) && acts.len() == 1 && (
    acts[0] matches WsAction::Close(c) && c == id))
    &&& (!pre.contains(id) ==> post == pre && acts.len() == 0)
}

/// One step of the live fan-out consumer: `Store` adds a subscriber
/// if absent, `Drop` and a timed-out delivery remove and close one,
/// `Send` delivers to a present subscriber, and `SendAll` delivers to
/// every subscriber in order.
pub fn ws_step(subs: &mut Vec<u32>, ev: WsEvent) -> (acts: Vec<WsAction>)
    requires
        subs_wf(old(subs)@),
    ensures
        subs_wf(final(subs)@),
        match ev {
            WsEvent::Msg(m) => match m {
                WsMessage::Store(id) => final(subs)@ == (if old(subs)@.contains(id) {
                    old(subs)@
                } else {
                    old(subs)@.push(id)
                }) && acts@.len() == 0,
                WsMessage::Drop(id) => drop_effect(old(subs)@, final(subs)@, acts@, id),
                WsMessage::Send(id, t) => final(subs)@ == old(subs)@ && (if old(subs)@.contains(
                    id,
                ) {
                    acts@.len() == 1 && (acts@[0] matches WsAction::Transmit(i2, t2) && i2 == id
                        && t2 == t)
                } else {
                    acts@.len() == 0
                }),
                WsMessage::SendAll(t) => final(subs)@ == old(subs)@ && acts@.len() == old(
                    subs,
                )@.len() && (forall|k: int| 0 <= k < acts@.len() ==> ((#[trigger] acts@[k])
                    matches WsAction::Transmit(i2, t2) && i2 == old(subs)@[k] && t2 == t)),
            },
            WsEvent::SendTimedOut(id) => drop_effect(old(subs)@, final(subs)@, acts@, id),
        },
{
    let mut acts: Vec<WsAction> = Vec::new();
    match ev {
        WsEvent::Msg(WsMessage::Store(id)) => {
            match find_sub(subs, id) {
                Some(_) => {},
                None => {
                    let ghost pre = subs@;
                    subs.push(id);
                    proof {
                        assert forall|a: int, b: int| 0 <= a < b < subs@.len() implies subs@[a]
                            != subs@[b] by {
                            if b == subs@.len() - 1 {
                                assert(subs@[a] == pre[a]);
                            }
                        }
                    }
                },
            }
        },
        WsEvent::Msg(WsMessage::Drop(id)) => {
            remove_sub(subs, id, &mut acts);
        },
        WsEvent::SendTimedOut(id) => {
            remove_sub(subs, id, &mut acts);
        },
        WsEvent::Msg(WsMessage::Send(id, t)) => {
            match find_sub(subs, id) {
                Some(_) => {
                    acts.push(WsAction::Transmit(id, t));
                },
                None => {},
            }
        },
        WsEvent::Msg(WsMessage::SendAll(t)) => {
            let mut k: usize = 0;
            while k < subs.len()
                invariant
                    k <= subs@.len(),
                    acts@.len() == k,
                    forall|j: int| 0 <= j < k ==> ((#[trigger] acts@[j])
                        matches WsAction::Transmit(i2, t2) && i2 == subs@[j] && t2 == t),
                decreases subs@.len() - k,
            {
                acts.push(WsAction::Transmit(subs[k], t.clone()));
                k += 1;
            }
        },
    }
    acts
}

fn find_sub(subs: &Vec<u32>, id: u32) -> (r: Option<usize>)
    ensures
        match r {
            Some(i) => i < subs@.len() && subs@[i as int] == id,
            None => !subs@.contains(id),
        },
{
    let mut i: usize = 0;
    while i < subs.len()
        invariant
            i <= subs@.len(),
            forall|k: int| 0 <= k < i ==> subs@[k] != id,
        decreases subs@.len() - i,
    {
        if subs[i] == id {
            return Some(i);
        }
        i += 1;
    }
    proof {
        assert(!subs@.contains(id));
    }
    None
}

fn remove_sub(subs: &mut Vec<u32>, id: u32, acts: &mut Vec<WsAction>)
    requires
        subs_wf(old(subs)@),
        old(acts)@.len() == 0,
    ensures
        subs_wf(final(subs)@),
        drop_effect(old(subs)@, final(subs)@, final(acts)@, id),
{
    match find_sub(subs, id) {
        Some(i) => {
            let ghost pre = subs@;
            subs.remove(i);
            acts.push(WsAction::Close(id));
            proof {
                assert(pre.contains(id)) by {
                    assert(pre[i as int] == id);
                }
                assert(subs@ == pre.remove(i as int));
                assert forall|a: int, b: int| 0 <= a < b < subs@.len() implies subs@[a]
                    != subs@[b] by {
                    assert(subs@[a] == (if a < i { pre[a] } else { pre[a + 1] }));
                    assert(subs@[b] == (if b < i { pre[b] } else { pre[b + 1] }));
                }
            }
        },
        None => {},
    }
}

/// The cutoff for pruning old telemetry: thirty days before now.
pub const PRUNE_DAYS_MS: i64 = 2592000000;

pub fn prune_cutoff(now_ms: i64) -> (r: i64)
    ensures
        r as int == (if now_ms >= i64::MIN + PRUNE_DAYS_MS {
            now_ms - PRUNE_DAYS_MS
        } else {
            i64::MIN as int
        }),
{
    if now_ms >= i64::MIN + PRUNE_DAYS_MS {
        now_ms - PRUNE_DAYS_MS
    } else {
        i64::MIN
    }
}

} // verus!
