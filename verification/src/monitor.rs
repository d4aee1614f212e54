use vstd::prelude::*;
use std::collections::VecDeque;

use crate::sort::{
    count_of, is_stable_desc_sort, lemma_count_contains, lemma_count_two, lemma_stable_sort_counts, sort_desc_stable,
    sorted_desc, Keyed,
};
use crate::text::{str_eq, string_of};

verus! {

/// How many messages the monitor keeps by default.
pub fn default_max_messages() -> (n: usize)
    ensures
        n == 500,
{
    500
}

/// How many messages a listing returns by default.
pub fn default_limit() -> (n: usize)
    ensures
        n == 500,
{
    500
}

/// The width of the "last minute" window, in milliseconds.
pub const RECENT_WINDOW_MILLIS: u128 = 60_000;

/// How many payload bytes a message record shows before it is cut short.
pub const PAYLOAD_PREVIEW_BYTES: usize = 4096;

/// How many topics the statistics rank.
pub const TOP_TOPICS: usize = 8;

/// The parameters of a message listing.
pub struct MessagesQuery {
    /// Only the messages of the last minute.
    pub recent: bool,
    /// How many messages at most.
    pub limit: usize,
}

/// Whether the meters are due to be polled again: at least one second has
/// passed since the last poll.
pub fn meter_poll_due(elapsed_millis: u128) -> (due: bool)
    ensures
        due == (elapsed_millis >= 1000),
{
    elapsed_millis >= 1000
}

/// What the monitor's link to the broker delivered, as the collector reads it.
pub enum LinkEvent {
    /// A message forwarded to the monitor's subscription.
    Forward { topic: String, payload: Vec<u8>, retain: bool },
    /// Another notification.
    OtherNotification,
    /// Nothing to read.
    NoNotification,
    /// The wait for a notification timed out.
    TimedOut,
    /// The link failed.
    Failed,
}

/// What the collector does next.
pub enum LinkStep {
    /// Record the message (its QoS is recorded as 0).
    Record { topic: String, payload: Vec<u8>, qos: u8, retain: bool },
    /// Go on waiting.
    Continue,
    /// Stop collecting: the link failed.
    Stop,
}

/// Decides what the collector does with what the link delivered: a
/// forwarded message is recorded with QoS 0, a failed link stops the
/// collector, anything else is passed over.
pub fn handle_link_event(event: LinkEvent) -> (step: LinkStep)
    ensures
        (event is Failed) <==> (step is Stop),
        (event is OtherNotification || event is NoNotification || event is TimedOut) <==> (step is Continue),
        event matches LinkEvent::Forward { topic, payload, retain } ==> step matches LinkStep::Record {
            topic: t,
            payload: p,
            qos: q,
            retain: rt,
        } && t@ == topic@ && p@ == payload@ && q == 0 && rt == retain,
{
    match event {
        LinkEvent::Forward { topic, payload, retain } => LinkStep::Record { topic, payload, qos: 0, retain },
        LinkEvent::OtherNotification => LinkStep::Continue,
        LinkEvent::NoNotification => LinkStep::Continue,
        LinkEvent::TimedOut => LinkStep::Continue,
        LinkEvent::Failed => LinkStep::Stop,
    }
}

/// A message seen by the monitor.
pub struct MessageRecord {
    pub id: u64,
    pub ts: u128,
    pub topic: String,
    pub payload: String,
    pub payload_bytes: usize,
    pub qos: u8,
    pub retain: bool,
}

impl Keyed for MessageRecord {
    open spec fn key(&self) -> u128 {
        self.ts
    }

    fn sort_key(&self) -> (k: u128) {
        self.ts
    }
}

/// How many messages a topic has carried.
pub struct TopicCount {
    pub topic: String,
    pub count: usize,
}

impl Keyed for TopicCount {
    open spec fn key(&self) -> u128 {
        self.count as u128
    }

    fn sort_key(&self) -> (k: u128) {
        self.count as u128
    }
}

/// The statistics the monitor publishes.
pub struct MonitorStats {
    pub total_connections: usize,
    pub total_subscriptions: usize,
    pub total_messages: u64,
    pub messages_last_minute: u64,
    pub top_topics: Vec<TopicCount>,
    pub updated_at: u128,
}

impl Default for MonitorStats {
    fn default() -> (s: Self)
        ensures
            s.total_connections == 0,
            s.total_subscriptions == 0,
            s.total_messages == 0,
            s.messages_last_minute == 0,
            s.top_topics@.len() == 0,
            s.updated_at == 0,
    {
        MonitorStats {
            total_connections: 0,
            total_subscriptions: 0,
            total_messages: 0,
            messages_last_minute: 0,
            top_topics: Vec::new(),
            updated_at: 0,
        }
    }
}

/// What the monitor broadcasts to its listeners.
pub enum MonitorEvent {
    Message { message: MessageRecord },
    Stats { stats: MonitorStats },
}

/// A copy of a message record, field by field.
pub fn clone_record(r: &MessageRecord) -> (c: MessageRecord)
    ensures
        c == *r,
{
    MessageRecord {
        id: r.id,
        ts: r.ts,
        topic: r.topic.clone(),
        payload: r.payload.clone(),
        payload_bytes: r.payload_bytes,
        qos: r.qos,
        retain: r.retain,
    }
}

/// A copy of a topic count.
pub fn clone_count(c: &TopicCount) -> (d: TopicCount)
    ensures
        d == *c,
{
    TopicCount { topic: c.topic.clone(), count: c.count }
}

/// A copy of a list of topic counts.
pub fn clone_counts(v: &Vec<TopicCount>) -> (r: Vec<TopicCount>)
    ensures
        r@ == v@,
{
    let mut r: Vec<TopicCount> = Vec::new();
    let mut i: usize = 0;
    while i < v.len()
        invariant
            i <= v.len(),
            r@ == v@.take(i as int),
        decreases v.len() - i,
    {
        r.push(clone_count(&v[i]));
        i = i + 1;
        assert(r@ =~= v@.take(i as int));
    }
    assert(v@.take(v.len() as int) =~= v@);
    r
}

/// A copy of the statistics.
pub fn clone_stats(s: &MonitorStats) -> (c: MonitorStats)
    ensures
        c.total_connections == s.total_connections,
        c.total_subscriptions == s.total_subscriptions,
        c.total_messages == s.total_messages,
        c.messages_last_minute == s.messages_last_minute,
        c.top_topics@ == s.top_topics@,
        c.updated_at == s.updated_at,
{
    MonitorStats {
        total_connections: s.total_connections,
        total_subscriptions: s.total_subscriptions,
        total_messages: s.total_messages,
        messages_last_minute: s.messages_last_minute,
        top_topics: clone_counts(&s.top_topics),
        updated_at: s.updated_at,
    }
}

/// The moment `window` milliseconds before `now`, or 0.
pub open spec fn window_start(now: u128, window: u128) -> u128 {
    if now >= window { (now - window) as u128 } else { 0 }
}

/// The timestamps left once the oldest ones, those before `cutoff`, are dropped from the front.
pub open spec fn drop_before(s: Seq<u128>, cutoff: u128) -> Seq<u128>
    decreases s.len(),
{
    if s.len() > 0 && s[0] < cutoff {
        drop_before(s.drop_first(), cutoff)
    } else {
        s
    }
}

/// Dropping the timestamps before `cutoff` from the front leaves a suffix:
/// what is dropped is before `cutoff`, and what is left, if anything,
/// starts at `cutoff` or later.
proof fn lemma_drop_before_suffix(ts: Seq<u128>, cutoff: u128) -> (k: int)
    ensures
        0 <= k <= ts.len(),
        drop_before(ts, cutoff) == ts.skip(k),
        forall|i: int| 0 <= i < k ==> ts[i] < cutoff,
        k < ts.len() ==> ts[k] >= cutoff,
    decreases ts.len(),
{
    if ts.len() > 0 && ts[0] < cutoff {
        let k0 = lemma_drop_before_suffix(ts.drop_first(), cutoff);
        assert(ts.drop_first().skip(k0) =~= ts.skip(k0 + 1));
        assert forall|i: int| 0 <= i < k0 + 1 implies ts[i] < cutoff by {
            if i > 0 {
                assert(ts[i] == ts.drop_first()[i - 1]);
            }
        }
        k0 + 1
    } else {
        assert(ts.skip(0) =~= ts);
        0
    }
}

/// The monitor's minute: recording a message at `now` keeps every
/// timestamp, earlier or new, that lies at most 60 000 ms before `now`, and
/// keeps them in order as a suffix; when the timestamps are in order, it
/// keeps none older than that.
pub proof fn lemma_recent_is_the_last_minute(ts: Seq<u128>, now: u128)
    ensures
        forall|i: int| 0 <= i < ts.len() && ts[i] + 60_000 >= now
            ==> drop_before(ts, window_start(now, RECENT_WINDOW_MILLIS)).contains(#[trigger] ts[i]),
        exists|k: int| 0 <= k <= ts.len() && drop_before(ts, window_start(now, RECENT_WINDOW_MILLIS)) == ts.skip(k),
        (forall|i: int, j: int| 0 <= i <= j < ts.len() ==> ts[i] <= ts[j]) ==> forall|j: int|
            0 <= j < drop_before(ts, window_start(now, RECENT_WINDOW_MILLIS)).len()
            ==> #[trigger] drop_before(ts, window_start(now, RECENT_WINDOW_MILLIS))[j] + 60_000 >= now,
{
    let c = window_start(now, RECENT_WINDOW_MILLIS);
    let k = lemma_drop_before_suffix(ts, c);
    let r = drop_before(ts, c);
    assert forall|i: int| 0 <= i < ts.len() && ts[i] + 60_000 >= now implies r.contains(#[trigger] ts[i]) by {
        assert(ts[i] >= c);
        assert(i >= k);
        assert(r[i - k] == ts[i]);
    }
    if forall|i: int, j: int| 0 <= i <= j < ts.len() ==> ts[i] <= ts[j] {
        assert forall|j: int| 0 <= j < r.len() implies #[trigger] r[j] + 60_000 >= now by {
            assert(r[j] == ts[k + j]);
            assert(ts[k] <= ts[k + j]);
        }
    }
}

/// A listing of recent messages only holds exactly the kept messages that
/// lie at most 60 000 ms before `now`.
pub proof fn lemma_recent_listing_is_the_last_minute(msgs: Seq<MessageRecord>, now: u128, m: MessageRecord)
    ensures
        newest_matching(msgs, true, window_start(now, RECENT_WINDOW_MILLIS)).contains(m)
            <==> msgs.contains(m) && m.ts + 60_000 >= now,
    decreases msgs.len(),
{
    let c = window_start(now, RECENT_WINDOW_MILLIS);
    if msgs.len() > 0 {
        let init = msgs.drop_last();
        lemma_recent_listing_is_the_last_minute(init, now, m);
        let rest = newest_matching(init, true, c);
        if msgs.contains(m) {
            let i = choose|i: int| 0 <= i < msgs.len() && msgs[i] == m;
            if i < msgs.len() - 1 {
                assert(init[i] == m);
            }
        }
        if init.contains(m) {
            let i = choose|i: int| 0 <= i < init.len() && init[i] == m;
            assert(msgs[i] == m);
        }
        if listed(msgs.last(), true, c) {
            let all = seq![msgs.last()] + rest;
            if all.contains(m) {
                let i = choose|i: int| 0 <= i < all.len() && all[i] == m;
                if i > 0 {
                    assert(rest[i - 1] == m);
                }
            }
            if rest.contains(m) {
                let i = choose|i: int| 0 <= i < rest.len() && rest[i] == m;
                assert(all[i + 1] == m);
            }
            if m == msgs.last() {
                assert(all[0] == m);
            }
        }
    }
}

/// The counts as (topic, count) pairs.
pub open spec fn count_pairs(counts: Seq<TopicCount>) -> Seq<(Seq<char>, nat)> {
    counts.map_values(|c: TopicCount| (c.topic@, c.count as nat))
}

/// The counts once `topic` has carried one more message: its entry goes up
/// by one, or a new entry with count 1 is appended.
pub open spec fn counted(counts: Seq<(Seq<char>, nat)>, topic: Seq<char>) -> Seq<(Seq<char>, nat)> {
    if exists|i: int| 0 <= i < counts.len() && (#[trigger] counts[i]).0 == topic {
        let i = choose|i: int| 0 <= i < counts.len() && (#[trigger] counts[i]).0 == topic;
        counts.update(i, (topic, counts[i].1 + 1))
    } else {
        counts.push((topic, 1))
    }
}

/// A message passes the listing filter.
pub open spec fn listed(m: MessageRecord, recent_only: bool, cutoff: u128) -> bool {
    !recent_only || m.ts >= cutoff
}

/// The messages that pass the filter, newest (last stored) first.
pub open spec fn newest_matching(msgs: Seq<MessageRecord>, recent_only: bool, cutoff: u128) -> Seq<MessageRecord>
    decreases msgs.len(),
{
    if msgs.len() == 0 {
        Seq::empty()
    } else if listed(msgs.last(), recent_only, cutoff) {
        seq![msgs.last()] + newest_matching(msgs.drop_last(), recent_only, cutoff)
    } else {
        newest_matching(msgs.drop_last(), recent_only, cutoff)
    }
}

/// How many messages a listing returns: the requested number, at most the
/// number kept, and at least one.
pub open spec fn listing_limit(limit: usize, max_messages: usize) -> int {
    let l = if limit < max_messages { limit } else { max_messages };
    if l < 1 { 1 } else { l as int }
}

/// The sum of the numbers.
pub open spec fn sum_of(s: Seq<usize>) -> int
    decreases s.len(),
{
    if s.len() == 0 {
        0
    } else {
        sum_of(s.drop_last()) + s.last()
    }
}

/// The text shown for a payload: its lossy UTF-8 decoding, or, past
/// `PAYLOAD_PREVIEW_BYTES` bytes, the decoding of the first ones followed by
/// `… [N bytes]`.
pub open spec fn spec_payload_text(bytes: Seq<u8>) -> Seq<char> {
    if bytes.len() > 4096 {
        utf8_lossy(bytes.take(4096)) + seq!['…', ' ', '['] + decimal(bytes.len()) + seq![' ', 'b', 'y', 't', 'e', 's', ']']
    } else {
        utf8_lossy(bytes)
    }
}

/// What `String::from_utf8_lossy` makes of the bytes.
pub uninterp spec fn utf8_lossy(bytes: Seq<u8>) -> Seq<char>;

/// Calls `String::from_utf8_lossy`, which decodes UTF-8 and puts U+FFFD in
/// place of invalid sequences. Its result is taken to be `utf8_lossy` of the bytes.
#[verifier::external_body]
fn decode_utf8_lossy(bytes: &[u8]) -> (s: String)
    ensures
        s@ == utf8_lossy(bytes@),
{
    String::from_utf8_lossy(bytes).into_owned()
}

/// The decimal digit of a number below ten.
pub open spec fn digit(d: nat) -> char {
    ((d + 48) as u8) as char
}

/// The decimal writing of a number, without leading zeros.
pub open spec fn decimal(n: nat) -> Seq<char>
    decreases n,
{
    if n < 10 {
        seq![digit(n)]
    } else {
        decimal(n / 10).push(digit(n % 10))
    }
}

/// Writes a number in decimal.
pub fn decimal_chars(n: usize) -> (v: Vec<char>)
    ensures
        v@ == decimal(n as nat),
    decreases n,
{
    if n < 10 {
        let c = ((n as u8) + 48) as char;
        let v: Vec<char> = vec![c];
        assert(v@ =~= seq![digit(n as nat)]);
        v
    } else {
        let mut v = decimal_chars(n / 10);
        let d = n % 10;
        let c = ((d as u8) + 48) as char;
        v.push(c);
        v
    }
}

/// The text shown for a payload cut short: the decoded head followed by
/// `… [N bytes]`, `N` being the full payload size.
pub fn cut_payload_text(head: &str, total_bytes: usize) -> (s: String)
    ensures
        s@ == head@ + seq!['…', ' ', '['] + decimal(total_bytes as nat) + seq![' ', 'b', 'y', 't', 'e', 's', ']'],
{
    let mut out = crate::text::chars_of(head);
    out.push('…');
    out.push(' ');
    out.push('[');
    let digits = decimal_chars(total_bytes);
    crate::text::append_chars(&mut out, &digits);
    let tail: Vec<char> = vec![' ', 'b', 'y', 't', 'e', 's', ']'];
    crate::text::append_chars(&mut out, &tail);
    assert(out@ =~= head@ + seq!['…', ' ', '['] + decimal(total_bytes as nat)
        + seq![' ', 'b', 'y', 't', 'e', 's', ']']);
    string_of(&out)
}

/// The text shown for a payload.
pub fn payload_to_string(bytes: &[u8]) -> (s: String)
    ensures
        s@ == spec_payload_text(bytes@),
{
    if bytes.len() > PAYLOAD_PREVIEW_BYTES {
        let mut head: Vec<u8> = Vec::new();
        let mut i: usize = 0;
        while i < PAYLOAD_PREVIEW_BYTES
            invariant
                i <= 4096 < bytes@.len(),
                head@ == bytes@.take(i as int),
            decreases 4096 - i,
        {
            head.push(bytes[i]);
            i = i + 1;
            assert(head@ =~= bytes@.take(i as int));
        }
        let preview = decode_utf8_lossy(head.as_slice());
        cut_payload_text(preview.as_str(), bytes.len())
    } else {
        decode_utf8_lossy(bytes)
    }
}

/// How many messages the monitor keeps at most: `max_messages`, but never
/// fewer than the message just seen.
pub open spec fn kept_at_most(max_messages: usize) -> int {
    if max_messages == 0 { 1 } else { max_messages as int }
}

/// The kept messages once `r` is recorded: the oldest is dropped when
/// `max_messages` are already kept, then `r` is appended.
pub open spec fn after_push(msgs: Seq<MessageRecord>, max_messages: usize, r: MessageRecord) -> Seq<MessageRecord> {
    if msgs.len() >= max_messages && msgs.len() > 0 {
        msgs.drop_first().push(r)
    } else {
        msgs.push(r)
    }
}

/// The kept messages after recording `recs`, in order, starting from none.
pub open spec fn pushes(max_messages: usize, recs: Seq<MessageRecord>) -> Seq<MessageRecord>
    decreases recs.len(),
{
    if recs.len() == 0 {
        Seq::empty()
    } else {
        after_push(pushes(max_messages, recs.drop_last()), max_messages, recs.last())
    }
}

/// How many of `n` recorded messages stay kept.
pub open spec fn kept_count(n: int, max_messages: usize) -> int {
    if n < kept_at_most(max_messages) { n } else { kept_at_most(max_messages) }
}

/// After recording `n` messages on a new monitor, exactly the last
/// `min(n, max(max_messages, 1))` of them are kept, oldest first; when the
/// records carry the ids that `push_message` gives from a new monitor (1 to
/// `n`), the kept ones are numbered `n - kept + 1` to `n`.
pub proof fn lemma_pushes_keep_the_last(max_messages: usize, recs: Seq<MessageRecord>)
    ensures
        pushes(max_messages, recs) == recs.skip(recs.len() - kept_count(recs.len() as int, max_messages)),
        (forall|k: int| 0 <= k < recs.len() ==> (#[trigger] recs[k]).id == k + 1) ==> forall|j: int|
            0 <= j < pushes(max_messages, recs).len() ==> (#[trigger] pushes(max_messages, recs)[j]).id
                == recs.len() - kept_count(recs.len() as int, max_messages) + j + 1,
    decreases recs.len(),
{
    let n = recs.len() as int;
    if n > 0 {
        let init = recs.drop_last();
        lemma_pushes_keep_the_last(max_messages, init);
        let p = pushes(max_messages, init);
        let k0 = kept_count(n - 1, max_messages);
        assert(p == init.skip(n - 1 - k0));
        if p.len() >= max_messages && p.len() > 0 {
            assert(p.drop_first().push(recs.last()) =~= recs.skip(n - kept_count(n, max_messages)));
        } else {
            assert(p.push(recs.last()) =~= recs.skip(n - kept_count(n, max_messages)));
        }
    } else {
        assert(recs.skip(0) =~= Seq::<MessageRecord>::empty());
    }
}

/// The first `n` values of `s`, or all of them when there are fewer.
pub open spec fn first_n<T>(s: Seq<T>, n: int) -> Seq<T> {
    if n < s.len() { s.take(n) } else { s }
}

/// Filtering newest first over two stretches: the later stretch comes first.
pub proof fn lemma_newest_matching_concat(a: Seq<MessageRecord>, b: Seq<MessageRecord>, recent_only: bool, cutoff: u128)
    ensures
        newest_matching(a + b, recent_only, cutoff)
            == newest_matching(b, recent_only, cutoff) + newest_matching(a, recent_only, cutoff),
    decreases b.len(),
{
    if b.len() == 0 {
        assert(a + b =~= a);
        assert(Seq::<MessageRecord>::empty() + newest_matching(a, recent_only, cutoff) =~= newest_matching(a, recent_only, cutoff));
    } else {
        assert((a + b).drop_last() =~= a + b.drop_last());
        assert((a + b).last() == b.last());
        lemma_newest_matching_concat(a, b.drop_last(), recent_only, cutoff);
        if listed(b.last(), recent_only, cutoff) {
            assert(seq![b.last()] + (newest_matching(b.drop_last(), recent_only, cutoff) + newest_matching(a, recent_only, cutoff))
                =~= (seq![b.last()] + newest_matching(b.drop_last(), recent_only, cutoff)) + newest_matching(a, recent_only, cutoff));
        }
    }
}

/// A partial sum never exceeds the whole sum.
pub proof fn lemma_sum_prefix(s: Seq<usize>, i: int)
    requires
        0 <= i <= s.len(),
    ensures
        sum_of(s.take(i)) <= sum_of(s),
    decreases s.len(),
{
    if i < s.len() {
        assert(s.drop_last().take(i) =~= s.take(i));
        lemma_sum_prefix(s.drop_last(), i);
    } else {
        assert(s.take(i) =~= s);
    }
}

/// Drops from the front the timestamps before `cutoff`.
fn drop_timestamps_before(ts: &mut VecDeque<u128>, cutoff: u128)
    ensures
        final(ts)@ == drop_before(old(ts)@, cutoff),
{
    while ts.len() > 0 && ts[0] < cutoff
        invariant
            drop_before(ts@, cutoff) == drop_before(old(ts)@, cutoff),
        decreases ts@.len(),
    {
        let ghost before = ts@;
        let _ = ts.pop_front();
        assert(ts@ =~= before.drop_first());
    }
}

/// The monitor's state: the last messages, the message counts per topic,
/// the timestamps of the last minute and the last statistics.
pub struct MonitorState {
    messages: VecDeque<MessageRecord>,
    stats: MonitorStats,
    topic_counts: Vec<TopicCount>,
    recent_ts: VecDeque<u128>,
    message_total: u64,
    max_messages: usize,
}

/// What recording a message does to a monitor, `before` becoming `after`:
/// the record `r` gets the next id, the time, the topic, the payload (as
/// text, and its length in bytes), the QoS and the retain flag; one more
/// message is seen; the oldest kept message is dropped once the limit is
/// reached and `r` is kept; the topic is counted once more.
pub open spec fn pushed(
    before: MonitorState,
    after: MonitorState,
    r: MessageRecord,
    topic: Seq<char>,
    payload: Seq<u8>,
    qos: u8,
    retain: bool,
    now: u128,
) -> bool {
    &&& r.id == before.total() + 1
    &&& r.ts == now
    &&& r.topic@ == topic
    &&& r.payload@ == spec_payload_text(payload)
    &&& r.payload_bytes == payload.len()
    &&& r.qos == qos
    &&& r.retain == retain
    &&& after.total() == before.total() + 1
    &&& after.messages() == after_push(before.messages(), before.max_messages(), r)
    &&& count_pairs(after.counts()) == counted(count_pairs(before.counts()), topic)
    &&& after.max_messages() == before.max_messages()
}

impl MonitorState {
    /// The kept messages, oldest first.
    pub closed spec fn messages(&self) -> Seq<MessageRecord> {
        self.messages@
    }

    /// The message counts per topic, in the order the topics were first seen.
    pub closed spec fn counts(&self) -> Seq<TopicCount> {
        self.topic_counts@
    }

    /// The timestamps of the messages of the last minute, oldest first.
    pub closed spec fn recent(&self) -> Seq<u128> {
        self.recent_ts@
    }

    /// How many messages were seen in all.
    pub closed spec fn total(&self) -> u64 {
        self.message_total
    }

    /// How many messages are kept at most.
    pub closed spec fn max_messages(&self) -> usize {
        self.max_messages
    }

    /// The last published statistics.
    pub closed spec fn last_stats(&self) -> MonitorStats {
        self.stats
    }

    /// No topic is counted twice, and no topic has carried more messages than were seen in all.
    pub closed spec fn wf(&self) -> bool {
        &&& forall|i: int, j: int| 0 <= i < j < self.topic_counts@.len()
            ==> (#[trigger] self.topic_counts@[i]).topic@ != (#[trigger] self.topic_counts@[j]).topic@
        &&& forall|i: int| 0 <= i < self.topic_counts@.len()
            ==> (#[trigger] self.topic_counts@[i]).count <= self.message_total
    }

    /// An empty monitor that keeps at most `max_messages` messages.
    pub fn new(max_messages: usize) -> (s: Self)
        ensures
            s.wf(),
            s.messages().len() == 0,
            s.counts().len() == 0,
            s.recent().len() == 0,
            s.total() == 0,
            s.max_messages() == max_messages,
            s.last_stats().total_connections == 0,
            s.last_stats().total_subscriptions == 0,
            s.last_stats().total_messages == 0,
            s.last_stats().messages_last_minute == 0,
            s.last_stats().top_topics@.len() == 0,
            s.last_stats().updated_at == 0,
    {
        MonitorState {
            messages: VecDeque::new(),
            stats: MonitorStats::default(),
            topic_counts: Vec::new(),
            recent_ts: VecDeque::new(),
            message_total: 0,
            max_messages,
        }
    }

    /// Records a message seen at `now` (milliseconds): it gets the next id,
    /// the oldest message is dropped once `max_messages` are kept, its topic
    /// is counted, and the timestamps older than a minute before `now` are
    /// dropped. Returns the record, which the caller broadcasts.
    pub fn push_message(&mut self, topic: String, payload: &[u8], qos: u8, retain: bool, now: u128) -> (r: MessageRecord)
        requires
            old(self).wf(),
            old(self).total() < u64::MAX,
            old(self).total() < usize::MAX,
        ensures
            final(self).wf(),
            pushed(*old(self), *final(self), r, topic@, payload@, qos, retain, now),
            old(self).messages().len() <= kept_at_most(old(self).max_messages())
                ==> final(self).messages().len() <= kept_at_most(old(self).max_messages()),
            final(self).recent() == drop_before(old(self).recent().push(now), window_start(now, RECENT_WINDOW_MILLIS)),
            final(self).last_stats() == old(self).last_stats(),
    {
        let id = self.message_total + 1;
        self.message_total = id;
        let record = MessageRecord {
            id,
            ts: now,
            topic: topic.clone(),
            payload: payload_to_string(payload),
            payload_bytes: payload.len(),
            qos,
            retain,
        };

        if self.messages.len() >= self.max_messages {
            let _ = self.messages.pop_front();
        }
        self.messages.push_back(clone_record(&record));

        self.count_topic(topic);

        self.recent_ts.push_back(now);
        let cutoff = if now >= RECENT_WINDOW_MILLIS { now - RECENT_WINDOW_MILLIS } else { 0 };
        drop_timestamps_before(&mut self.recent_ts, cutoff);
        record
    }

    /// How many messages were seen in all.
    pub fn total_messages(&self) -> (n: u64)
        ensures
            n == self.total(),
    {
        self.message_total
    }

    /// The last published statistics, copied.
    pub fn stats(&self) -> (s: MonitorStats)
        ensures
            s.total_connections == self.last_stats().total_connections,
            s.total_subscriptions == self.last_stats().total_subscriptions,
            s.total_messages == self.last_stats().total_messages,
            s.messages_last_minute == self.last_stats().messages_last_minute,
            s.top_topics@ == self.last_stats().top_topics@,
            s.updated_at == self.last_stats().updated_at,
    {
        clone_stats(&self.stats)
    }

    /// Recomputes the statistics at `now` (milliseconds) from the message
    /// counts and the subscriptions of each connection, stores them and
    /// returns them: the topics are ranked by decreasing count (topics first
    /// seen earlier first among equal counts) and the first eight are kept.
    pub fn refresh_stats(&mut self, now: u128, subscriptions_per_connection: &Vec<usize>) -> (r: MonitorStats)
        requires
            old(self).wf(),
            sum_of(subscriptions_per_connection@) <= usize::MAX,
        ensures
            final(self).wf(),
            r.total_connections == subscriptions_per_connection@.len(),
            r.total_subscriptions == sum_of(subscriptions_per_connection@),
            r.total_messages == old(self).total(),
            r.messages_last_minute == old(self).recent().len(),
            r.updated_at == now,
            exists|all: Seq<TopicCount>| is_stable_desc_sort(all, old(self).counts())
                && r.top_topics@ == first_n(all, TOP_TOPICS as int),
            final(self).last_stats().total_connections == r.total_connections,
            final(self).last_stats().total_subscriptions == r.total_subscriptions,
            final(self).last_stats().total_messages == r.total_messages,
            final(self).last_stats().messages_last_minute == r.messages_last_minute,
            final(self).last_stats().top_topics@ == r.top_topics@,
            final(self).last_stats().updated_at == r.updated_at,
            final(self).messages() == old(self).messages(),
            final(self).counts() == old(self).counts(),
            final(self).recent() == old(self).recent(),
            final(self).total() == old(self).total(),
            final(self).max_messages() == old(self).max_messages(),
    {
        let messages_last_minute = self.recent_ts.len() as u64;
        let ranked = sort_desc_stable(clone_counts(&self.topic_counts));
        let ghost all = ranked@;
        let mut top = ranked;
        if top.len() > TOP_TOPICS {
            top.truncate(TOP_TOPICS);
        }
        assert(is_stable_desc_sort(all, self.topic_counts@) && top@ == first_n(all, TOP_TOPICS as int));
        let mut total_subscriptions: usize = 0;
        let mut i: usize = 0;
        while i < subscriptions_per_connection.len()
            invariant
                i <= subscriptions_per_connection@.len(),
                sum_of(subscriptions_per_connection@) <= usize::MAX,
                total_subscriptions == sum_of(subscriptions_per_connection@.take(i as int)),
            decreases subscriptions_per_connection@.len() - i,
        {
            proof {
                lemma_sum_prefix(subscriptions_per_connection@, i + 1);
                assert(subscriptions_per_connection@.take(i + 1).drop_last() =~= subscriptions_per_connection@.take(i as int));
            }
            total_subscriptions = total_subscriptions + subscriptions_per_connection[i];
            i = i + 1;
        }
        assert(subscriptions_per_connection@.take(i as int) =~= subscriptions_per_connection@);
        let stats = MonitorStats {
            total_connections: subscriptions_per_connection.len(),
            total_subscriptions,
            total_messages: self.message_total,
            messages_last_minute,
            top_topics: top,
            updated_at: now,
        };
        self.stats = clone_stats(&stats);
        stats
    }

    /// The newest kept messages (at most `limit`, at most `max_messages`,
    /// at least one), those of the last minute before `now` only when
    /// `recent_only`, sorted newest first by timestamp.
    pub fn list_messages(&self, recent_only: bool, limit: usize, now: u128) -> (r: Vec<MessageRecord>)
        ensures
            is_stable_desc_sort(
                r@,
                first_n(
                    newest_matching(self.messages(), recent_only, window_start(now, RECENT_WINDOW_MILLIS)),
                    listing_limit(limit, self.max_messages()),
                ),
            ),
    {
        let lim0 = if limit < self.max_messages { limit } else { self.max_messages };
        let lim = if lim0 < 1 { 1 } else { lim0 };
        let cutoff = if now >= RECENT_WINDOW_MILLIS { now - RECENT_WINDOW_MILLIS } else { 0 };
        let ghost msgs = self.messages@;
        let mut out: Vec<MessageRecord> = Vec::new();
        let mut i: usize = self.messages.len();
        assert(msgs.skip(i as int) =~= Seq::<MessageRecord>::empty());
        while i > 0 && out.len() < lim
            invariant
                i <= msgs.len(),
                msgs == self.messages@,
                out@.len() <= lim,
                out@ == newest_matching(msgs.skip(i as int), recent_only, cutoff),
            decreases i,
        {
            let m = &self.messages[i - 1];
            let ghost suffix = msgs.skip(i as int);
            proof {
                assert(msgs.skip(i - 1) =~= seq![msgs[i - 1]] + suffix);
                lemma_newest_matching_concat(seq![msgs[i - 1]], suffix, recent_only, cutoff);
                assert(seq![msgs[i - 1]].drop_last() =~= Seq::<MessageRecord>::empty());
                assert(seq![msgs[i - 1]].last() == msgs[i - 1]);
            }
            assert(newest_matching(Seq::<MessageRecord>::empty(), recent_only, cutoff) == Seq::<MessageRecord>::empty());
            if !recent_only || m.ts >= cutoff {
                let ghost before = out@;
                out.push(clone_record(m));
                assert(newest_matching(seq![msgs[i - 1]], recent_only, cutoff)
                    == seq![msgs[i - 1]] + newest_matching(Seq::<MessageRecord>::empty(), recent_only, cutoff));
                assert(newest_matching(seq![msgs[i - 1]], recent_only, cutoff) =~= seq![msgs[i - 1]]);
                assert(out@ =~= before + seq![msgs[i - 1]]);
            } else {
                assert(newest_matching(seq![msgs[i - 1]], recent_only, cutoff) =~= Seq::<MessageRecord>::empty());
                assert(newest_matching(suffix, recent_only, cutoff) + Seq::<MessageRecord>::empty()
                    =~= newest_matching(suffix, recent_only, cutoff));
            }
            i = i - 1;
        }
        proof {
            let all = newest_matching(msgs, recent_only, cutoff);
            assert(msgs =~= msgs.take(i as int) + msgs.skip(i as int));
            lemma_newest_matching_concat(msgs.take(i as int), msgs.skip(i as int), recent_only, cutoff);
            if i == 0 {
                assert(msgs.skip(0) =~= msgs);
            } else {
                assert(all.take(lim as int) =~= out@);
            }
        }
        sort_desc_stable(out)
    }

    /// Counts one more message on `topic`.
    fn count_topic(&mut self, topic: String)
        requires
            old(self).wf(),
            forall|i: int| 0 <= i < old(self).topic_counts@.len()
                ==> (#[trigger] old(self).topic_counts@[i]).count < old(self).message_total,
            old(self).message_total <= usize::MAX,
            old(self).message_total >= 1,
        ensures
            final(self).wf(),
            count_pairs(final(self).topic_counts@) == counted(count_pairs(old(self).topic_counts@), topic@),
            final(self).messages == old(self).messages,
            final(self).recent_ts == old(self).recent_ts,
            final(self).message_total == old(self).message_total,
            final(self).max_messages == old(self).max_messages,
            final(self).stats == old(self).stats,
    {
        let mut i: usize = 0;
        while i < self.topic_counts.len()
            invariant
                i <= self.topic_counts@.len(),
                *self == *old(self),
                old(self).wf(),
                forall|k: int| 0 <= k < old(self).topic_counts@.len()
                    ==> (#[trigger] old(self).topic_counts@[k]).count < old(self).message_total,
                old(self).message_total <= usize::MAX,
                forall|k: int| 0 <= k < i ==> (#[trigger] self.topic_counts@[k]).topic@ != topic@,
            decreases self.topic_counts@.len() - i,
        {
            if str_eq(self.topic_counts[i].topic.as_str(), topic.as_str()) {
                let ghost old_counts = self.topic_counts@;
                let ghost pairs = count_pairs(old_counts);
                proof {
                    assert(pairs[i as int].0 == topic@);
                    let j = choose|j: int| 0 <= j < pairs.len() && (#[trigger] pairs[j]).0 == topic@;
                    if j != i {
                        if j < i {
                            assert(old_counts[j].topic@ != topic@);
                        } else {
                            assert(old_counts[i as int].topic@ != old_counts[j].topic@);
                        }
                    }
                }
                let entry = TopicCount {
                    topic: self.topic_counts[i].topic.clone(),
                    count: self.topic_counts[i].count + 1,
                };
                self.topic_counts.set(i, entry);
                assert(count_pairs(self.topic_counts@) =~= pairs.update(i as int, (topic@, pairs[i as int].1 + 1)));
                return;
            }
            i = i + 1;
        }
        let ghost pairs = count_pairs(old(self).topic_counts@);
        assert(!exists|k: int| 0 <= k < pairs.len() && (#[trigger] pairs[k]).0 == topic@) by {
            if exists|k: int| 0 <= k < pairs.len() && (#[trigger] pairs[k]).0 == topic@ {
                let k = choose|k: int| 0 <= k < pairs.len() && (#[trigger] pairs[k]).0 == topic@;
                assert(old(self).topic_counts@[k].topic@ == topic@);
            }
        }
        let entry = TopicCount { topic, count: 1 };
        self.topic_counts.push(entry);
        assert(count_pairs(self.topic_counts@) =~= pairs.push((topic@, 1)));
        assert forall|i: int, j: int| 0 <= i < j < self.topic_counts@.len()
            implies (#[trigger] self.topic_counts@[i]).topic@ != (#[trigger] self.topic_counts@[j]).topic@ by {
            if j == self.topic_counts@.len() - 1 {
                assert(old(self).topic_counts@[i].topic@ != topic@);
            } else {
                assert(old(self).topic_counts@[i].topic@ != old(self).topic_counts@[j].topic@);
            }
        }
    }
}

/// The ranked topics of the statistics: at most eight of them, as many as
/// there are topics up to eight, by decreasing count.
pub proof fn lemma_top_topics_ranked(counts: Seq<TopicCount>, all: Seq<TopicCount>, top: Seq<TopicCount>)
    requires
        is_stable_desc_sort(all, counts),
        top == first_n(all, TOP_TOPICS as int),
    ensures
        top.len() == if counts.len() < 8 { counts.len() as int } else { 8 },
        sorted_desc(top),
        forall|i: int| 0 <= i < top.len() ==> top[i] == all[i],
{
}

/// A listing returns at most the listing limit, newest first.
pub proof fn lemma_listing_bounded(r: Seq<MessageRecord>, s: Seq<MessageRecord>, limit: usize, max_messages: usize)
    requires
        is_stable_desc_sort(r, first_n(s, listing_limit(limit, max_messages))),
    ensures
        r.len() <= listing_limit(limit, max_messages),
        r.len() <= s.len(),
        sorted_desc(r),
{
}

/// How many of the topics are `x`.
pub open spec fn occurrences(topics: Seq<Seq<char>>, x: Seq<char>) -> nat
    decreases topics.len(),
{
    if topics.len() == 0 {
        0
    } else {
        occurrences(topics.drop_last(), x) + if topics.last() == x { 1nat } else { 0nat }
    }
}

/// The (topic, count) pairs after messages on `topics`, in order, on a new monitor.
pub open spec fn tally(topics: Seq<Seq<char>>) -> Seq<(Seq<char>, nat)>
    decreases topics.len(),
{
    if topics.len() == 0 {
        Seq::empty()
    } else {
        counted(tally(topics.drop_last()), topics.last())
    }
}

/// No topic has two entries.
pub open spec fn distinct_topics(p: Seq<(Seq<char>, nat)>) -> bool {
    forall|i: int, j: int| 0 <= i < j < p.len() ==> (#[trigger] p[i]).0 != (#[trigger] p[j]).0
}

/// The counts on a new monitor after messages on `topics` have one entry
/// per topic seen, and each entry counts exactly the messages on its topic.
pub proof fn lemma_tally_counts_messages(topics: Seq<Seq<char>>)
    ensures
        distinct_topics(tally(topics)),
        forall|i: int| 0 <= i < tally(topics).len()
            ==> (#[trigger] tally(topics)[i]).1 == occurrences(topics, tally(topics)[i].0),
        forall|x: Seq<char>| (exists|i: int| 0 <= i < tally(topics).len() && (#[trigger] tally(topics)[i]).0 == x)
            <==> occurrences(topics, x) > 0,
    decreases topics.len(),
{
    if topics.len() > 0 {
        let init = topics.drop_last();
        let x = topics.last();
        lemma_tally_counts_messages(init);
        let p = tally(init);
        let q = tally(topics);
        assert(q == counted(p, x));
        if exists|i: int| 0 <= i < p.len() && (#[trigger] p[i]).0 == x {
            let i = choose|i: int| 0 <= i < p.len() && (#[trigger] p[i]).0 == x;
            assert(q == p.update(i, (x, p[i].1 + 1)));
            assert forall|k: int| 0 <= k < q.len() implies (#[trigger] q[k]).1 == occurrences(topics, q[k].0) by {
                if k != i {
                    assert(p[k].0 != x) by {
                        if k < i { assert(p[k].0 != p[i].0); } else { assert(p[i].0 != p[k].0); }
                    }
                }
            }
            assert forall|y: Seq<char>| (exists|k: int| 0 <= k < q.len() && (#[trigger] q[k]).0 == y)
                <==> occurrences(topics, y) > 0 by {
                if exists|k: int| 0 <= k < q.len() && (#[trigger] q[k]).0 == y {
                    let k = choose|k: int| 0 <= k < q.len() && (#[trigger] q[k]).0 == y;
                    if k != i {
                        assert(p[k].0 == y);
                    }
                }
                if occurrences(topics, y) > 0 {
                    if y == x {
                        assert(q[i].0 == y);
                    } else {
                        assert(occurrences(init, y) > 0);
                        assert(exists|k: int| 0 <= k < p.len() && (#[trigger] p[k]).0 == y);
                        let k = choose|k: int| 0 <= k < p.len() && (#[trigger] p[k]).0 == y;
                        assert(q[k].0 == y);
                    }
                }
            }
        } else {
            assert(q == p.push((x, 1nat)));
            assert(occurrences(init, x) == 0);
            assert forall|k: int| 0 <= k < q.len() implies (#[trigger] q[k]).1 == occurrences(topics, q[k].0) by {
                if k < p.len() {
                    assert(q[k] == p[k]);
                    assert(p[k].0 != x);
                }
            }
            assert forall|y: Seq<char>| (exists|k: int| 0 <= k < q.len() && (#[trigger] q[k]).0 == y)
                <==> occurrences(topics, y) > 0 by {
                if exists|k: int| 0 <= k < q.len() && (#[trigger] q[k]).0 == y {
                    let k = choose|k: int| 0 <= k < q.len() && (#[trigger] q[k]).0 == y;
                    if k < p.len() {
                        assert(p[k].0 == y);
                    }
                }
                if occurrences(topics, y) > 0 {
                    if y == x {
                        assert(q[p.len() as int].0 == y);
                    } else {
                        assert(occurrences(init, y) > 0);
                        assert(exists|k: int| 0 <= k < p.len() && (#[trigger] p[k]).0 == y);
                        let k = choose|k: int| 0 <= k < p.len() && (#[trigger] p[k]).0 == y;
                        assert(q[k].0 == y);
                    }
                }
            }
            assert forall|a: int, b: int| 0 <= a < b < q.len() implies (#[trigger] q[a]).0 != (#[trigger] q[b]).0 by {
                if b < p.len() {
                    assert(p[a].0 != p[b].0);
                } else {
                    assert(q[a] == p[a]);
                }
            }
        }
    }
}

/// A value of a stable sort is a value of the sorted counts.
proof fn lemma_sorted_value_in_counts(all: Seq<TopicCount>, counts: Seq<TopicCount>, i: int)
    requires
        is_stable_desc_sort(all, counts),
        0 <= i < all.len(),
    ensures
        exists|p: int| 0 <= p < counts.len() && counts[p] == all[i],
{
    lemma_count_contains(all, all[i]);
    lemma_stable_sort_counts(all, counts, all[i]);
    lemma_count_contains(counts, all[i]);
}

/// Messages recorded one after the other on a new monitor (`states[0]` as
/// `new` leaves it, `states[k + 1]` as `push_message` leaves `states[k]` for
/// the k-th message): the k-th record gets id `k + 1` and the k-th message's
/// topic, payload text and length, QoS and retain flag; the monitor has seen
/// `n` messages, keeps the last `min(n, max(max_messages, 1))` records in
/// order, and counts each topic by its messages.
pub proof fn lemma_messages_from_new(
    max_messages: usize,
    states: Seq<MonitorState>,
    recs: Seq<MessageRecord>,
    topics: Seq<Seq<char>>,
    payloads: Seq<Seq<u8>>,
    qos: Seq<u8>,
    retains: Seq<bool>,
    times: Seq<u128>,
)
    requires
        states.len() == recs.len() + 1,
        topics.len() == recs.len(),
        payloads.len() == recs.len(),
        qos.len() == recs.len(),
        retains.len() == recs.len(),
        times.len() == recs.len(),
        states[0].messages().len() == 0,
        states[0].counts().len() == 0,
        states[0].total() == 0,
        states[0].max_messages() == max_messages,
        forall|k: int| 0 <= k < recs.len() ==> #[trigger] pushed(
            states[k], states[k + 1], recs[k], topics[k], payloads[k], qos[k], retains[k], times[k]),
    ensures
        forall|k: int| 0 <= k < recs.len() ==> {
            &&& (#[trigger] recs[k]).id == k + 1
            &&& recs[k].topic@ == topics[k]
            &&& recs[k].payload@ == spec_payload_text(payloads[k])
            &&& recs[k].payload_bytes == payloads[k].len()
            &&& recs[k].qos == qos[k]
            &&& recs[k].retain == retains[k]
        },
        states.last().total() == recs.len(),
        states.last().max_messages() == max_messages,
        states.last().messages() == recs.skip(recs.len() - kept_count(recs.len() as int, max_messages)),
        count_pairs(states.last().counts()) == tally(topics),
    decreases recs.len(),
{
    let n = recs.len() as int;
    if n == 0 {
        assert(count_pairs(states[0].counts()) =~= Seq::<(Seq<char>, nat)>::empty());
        assert(recs.skip(0) =~= states[0].messages());
    } else {
        lemma_messages_from_new(
            max_messages,
            states.drop_last(),
            recs.drop_last(),
            topics.drop_last(),
            payloads.drop_last(),
            qos.drop_last(),
            retains.drop_last(),
            times.drop_last(),
        );
        assert forall|k: int| 0 <= k < n - 1 implies #[trigger] pushed(
            states.drop_last()[k], states.drop_last()[k + 1], recs.drop_last()[k], topics.drop_last()[k],
            payloads.drop_last()[k], qos.drop_last()[k], retains.drop_last()[k], times.drop_last()[k]) by {
            assert(pushed(states[k], states[k + 1], recs[k], topics[k], payloads[k], qos[k], retains[k], times[k]));
        }
        assert(pushed(states[n - 1], states[n], recs[n - 1], topics[n - 1], payloads[n - 1], qos[n - 1],
            retains[n - 1], times[n - 1]));
        let prev = states[n - 1];
        assert(states.drop_last().last() == prev);
        lemma_pushes_keep_the_last(max_messages, recs.drop_last());
        lemma_pushes_keep_the_last(max_messages, recs);
        assert(recs.drop_last().skip(n - 1 - kept_count(n - 1, max_messages)) == pushes(max_messages, recs.drop_last()));
        assert(states.last().messages() == pushes(max_messages, recs));
        assert forall|k: int| 0 <= k < n implies {
            &&& (#[trigger] recs[k]).id == k + 1
            &&& recs[k].topic@ == topics[k]
            &&& recs[k].payload@ == spec_payload_text(payloads[k])
            &&& recs[k].payload_bytes == payloads[k].len()
            &&& recs[k].qos == qos[k]
            &&& recs[k].retain == retains[k]
        } by {
            if k < n - 1 {
                assert(recs.drop_last()[k] == recs[k]);
            }
        }
    }
}

/// The ranking of the statistics follows the messages: after messages on
/// `topics` on a new monitor, the ranked topics are `min(8, n)` of the `n`
/// topics seen, each listed once with the number of messages on it, by
/// non-increasing count, and a topic left out has carried no more messages
/// than the last one listed.
pub proof fn lemma_top_topics_follow_messages(
    topics: Seq<Seq<char>>,
    counts: Seq<TopicCount>,
    all: Seq<TopicCount>,
    top: Seq<TopicCount>,
)
    requires
        count_pairs(counts) == tally(topics),
        is_stable_desc_sort(all, counts),
        top == first_n(all, TOP_TOPICS as int),
    ensures
        top.len() == if tally(topics).len() < 8 { tally(topics).len() as int } else { 8 },
        forall|i: int| 0 <= i < top.len() ==> occurrences(topics, (#[trigger] top[i]).topic@) == top[i].count
            && top[i].count > 0,
        forall|i: int, j: int| 0 <= i < j < top.len() ==> (#[trigger] top[i]).topic@ != (#[trigger] top[j]).topic@,
        sorted_desc(top),
        forall|x: Seq<char>| occurrences(topics, x) > 0 && (forall|i: int| 0 <= i < top.len() ==> (#[trigger] top[i]).topic@ != x)
            ==> top.len() == 8 && occurrences(topics, x) <= top[7].count,
{
    lemma_tally_counts_messages(topics);
    let t = tally(topics);
    assert(counts.len() == t.len());
    assert forall|p: int| 0 <= p < counts.len() implies (#[trigger] counts[p]).topic@ == t[p].0
        && counts[p].count as nat == t[p].1 by {
        assert(count_pairs(counts)[p] == t[p]);
    }
    assert forall|i: int| 0 <= i < top.len() implies occurrences(topics, (#[trigger] top[i]).topic@) == top[i].count
        && top[i].count > 0 by {
        assert(top[i] == all[i]);
        lemma_sorted_value_in_counts(all, counts, i);
        let p = choose|p: int| 0 <= p < counts.len() && counts[p] == all[i];
        assert(counts[p].topic@ == t[p].0);
        assert(exists|k: int| 0 <= k < t.len() && (#[trigger] t[k]).0 == t[p].0);
    }
    assert forall|i: int, j: int| 0 <= i < j < top.len() implies (#[trigger] top[i]).topic@ != (#[trigger] top[j]).topic@ by {
        assert(top[i] == all[i] && top[j] == all[j]);
        if all[i].topic@ == all[j].topic@ {
            if all[i] == all[j] {
                let e = all[i];
                lemma_count_two(all, e);
                lemma_stable_sort_counts(all, counts, e);
                lemma_count_two(counts, e);
                let (p, q) = choose|p: int, q: int| 0 <= p < q < counts.len() && counts[p] == e && counts[q] == e;
                assert(counts[p].topic@ == t[p].0 && counts[q].topic@ == t[q].0);
                assert(t[p].0 != t[q].0);
            } else {
                lemma_sorted_value_in_counts(all, counts, i);
                lemma_sorted_value_in_counts(all, counts, j);
                let p = choose|p: int| 0 <= p < counts.len() && counts[p] == all[i];
                let q = choose|q: int| 0 <= q < counts.len() && counts[q] == all[j];
                assert(counts[p].topic@ == t[p].0 && counts[q].topic@ == t[q].0);
                if p < q {
                    assert(t[p].0 != t[q].0);
                } else {
                    assert(t[q].0 != t[p].0);
                }
            }
        }
    }
    assert forall|i: int, j: int| 0 <= i < j < top.len() implies (#[trigger] top[i]).key() >= (#[trigger] top[j]).key() by {
        assert(top[i] == all[i] && top[j] == all[j]);
    }
    assert forall|x: Seq<char>| occurrences(topics, x) > 0 && (forall|i: int| 0 <= i < top.len() ==> (#[trigger] top[i]).topic@ != x)
        implies top.len() == 8 && occurrences(topics, x) <= top[7].count by {
        assert(exists|k: int| 0 <= k < t.len() && (#[trigger] t[k]).0 == x);
        let p = choose|p: int| 0 <= p < t.len() && (#[trigger] t[p]).0 == x;
        let e = counts[p];
        assert(e.topic@ == x);
        lemma_count_contains(counts, e);
        lemma_stable_sort_counts(all, counts, e);
        lemma_count_contains(all, e);
        let m = choose|m: int| 0 <= m < all.len() && all[m] == e;
        if m < top.len() {
            assert(top[m] == all[m]);
            assert(top[m].topic@ == x);
        }
        assert(top.len() == 8);
        assert(top[7] == all[7]);
        assert(all[7].key() >= all[m].key());
    }
}

} // verus!
