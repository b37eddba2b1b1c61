use vstd::prelude::*;

verus! {

/// Identifier of an outbound message, minted in increasing order by the sink.
pub type MsgId = u64;

/// Default time, in seconds, to wait for the remote to acknowledge a message.
pub const DEFAULT_SYNC_TIMEOUT: u64 = 2;

/// Default upper bound, in bytes, of a merged message.
pub const DEFAULT_MAX_MERGE_SIZE: usize = 4096;

/// Observable state of a sink.
#[derive(Clone, Copy, Debug, PartialEq, Eq, Structural)]
pub enum SinkState {
    Init,
    /// The sink is syncing the messages to the remote.
    Syncing,
    /// All the messages are synced to the remote.
    Finished,
}

impl SinkState {
    pub fn is_init(&self) -> (r: bool)
        ensures
            r == (*self is Init),
    {
        match self {
            SinkState::Init => true,
            _ => false,
        }
    }
}

/// How the sink paces deferrable messages.
#[derive(Clone, Copy, Debug, PartialEq, Eq, Structural)]
pub enum SinkStrategy {
    /// Send the message as soon as possible.
    Asap,
    /// Send deferrable messages at most once per interval, given in milliseconds.
    FixInterval(u64),
}

impl SinkStrategy {
    pub fn is_fix_interval(&self) -> (r: bool)
        ensures
            r == (*self is FixInterval),
    {
        match self {
            SinkStrategy::FixInterval(_) => true,
            SinkStrategy::Asap => false,
        }
    }
}

/// Options of a sink.
#[derive(Clone, Copy, Debug)]
pub struct SinkConfig {
    /// Seconds to wait for the remote to ack a message before it is sent again.
    pub timeout_secs: u64,
    /// Upper bound, in bytes, of the updates carried by one merged message.
    pub max_merge_size: usize,
    /// How deferrable messages are paced.
    pub strategy: SinkStrategy,
}

impl SinkConfig {
    pub fn new() -> (r: SinkConfig)
        ensures
            r.timeout_secs == DEFAULT_SYNC_TIMEOUT,
            r.max_merge_size == DEFAULT_MAX_MERGE_SIZE,
            r.strategy == SinkStrategy::Asap,
    {
        SinkConfig {
            timeout_secs: DEFAULT_SYNC_TIMEOUT,
            max_merge_size: DEFAULT_MAX_MERGE_SIZE,
            strategy: SinkStrategy::Asap,
        }
    }

    pub fn with_timeout(self, secs: u64) -> (r: SinkConfig)
        ensures
            r.timeout_secs == secs,
            r.max_merge_size == self.max_merge_size,
            r.strategy == self.strategy,
    {
        SinkConfig { timeout_secs: secs, ..self }
    }

    pub fn with_max_merge_size(self, max_merge_size: usize) -> (r: SinkConfig)
        ensures
            r.timeout_secs == self.timeout_secs,
            r.max_merge_size == max_merge_size,
            r.strategy == self.strategy,
    {
        SinkConfig { max_merge_size, ..self }
    }

    pub fn with_strategy(self, strategy: SinkStrategy) -> (r: SinkConfig)
        ensures
            r.timeout_secs == self.timeout_secs,
            r.max_merge_size == self.max_merge_size,
            r.strategy == strategy,
    {
        SinkConfig { strategy, ..self }
    }
}

impl Default for SinkConfig {
    fn default() -> (r: SinkConfig)
        ensures
            r.timeout_secs == DEFAULT_SYNC_TIMEOUT,
            r.max_merge_size == DEFAULT_MAX_MERGE_SIZE,
            r.strategy == SinkStrategy::Asap,
    {
        SinkConfig::new()
    }
}

/// Source of message ids.
pub trait MsgIdCounter {
    /// The next message id, or `None` once the ids are used up.
    fn next(&mut self) -> Option<MsgId>;
}

/// Counter that hands out 0, 1, 2, ... in order.
#[derive(Debug)]
pub struct DefaultMsgIdCounter {
    pub next_id: u64,
}

impl DefaultMsgIdCounter {
    pub fn new() -> (r: DefaultMsgIdCounter)
        ensures
            r.next_id == 0,
    {
        DefaultMsgIdCounter { next_id: 0 }
    }

    pub fn next_id(&mut self) -> (r: Option<MsgId>)
        ensures
            old(self).next_id < u64::MAX ==> r == Some(old(self).next_id) && final(self).next_id
                == old(self).next_id + 1,
            old(self).next_id == u64::MAX ==> r is None && final(self).next_id == old(self).next_id,
    {
        if self.next_id < u64::MAX {
            let id = self.next_id;
            self.next_id = self.next_id + 1;
            Some(id)
        } else {
            None
        }
    }
}

impl MsgIdCounter for DefaultMsgIdCounter {
    fn next(&mut self) -> Option<MsgId> {
        self.next_id()
    }
}

/// Kind of an outbound message. Its rank orders the queue: `Init < Update < Urgent`.
#[derive(Clone, Copy, Debug, PartialEq, Eq, Structural)]
pub enum MsgKind {
    /// The first message of a session; never deferred, never merged.
    Init,
    /// An ordinary update; deferrable and mergeable.
    Update,
    /// An update that must go out at once; never deferred, never merged.
    Urgent,
}

pub open spec fn kind_rank(k: MsgKind) -> int {
    match k {
        MsgKind::Init => 0,
        MsgKind::Update => 1,
        MsgKind::Urgent => 2,
    }
}

fn rank_of(k: MsgKind) -> (r: u8)
    ensures
        r as int == kind_rank(k),
{
    match k {
        MsgKind::Init => 0,
        MsgKind::Update => 1,
        MsgKind::Urgent => 2,
    }
}

/// Processing state of a queued message.
#[derive(Clone, Copy, Debug, PartialEq, Eq, Structural)]
pub enum MessageState {
    Pending,
    /// Sent, waiting for the ack.
    Processing,
    /// Sent, but the ack did not come in time: to be sent again.
    Timeout,
}

/// An outbound message: a list of encoded CRDT updates for one object.
pub struct CollabMessage {
    pub kind: MsgKind,
    pub updates: Vec<Vec<u8>>,
}

pub open spec fn updates_view(u: Seq<Vec<u8>>) -> Seq<Seq<u8>> {
    u.map_values(|b: Vec<u8>| b@)
}

/// Total number of bytes of a list of updates.
pub open spec fn updates_size(u: Seq<Seq<u8>>) -> nat
    decreases u.len(),
{
    if u.len() == 0 {
        0
    } else {
        updates_size(u.drop_last()) + u.last().len()
    }
}

/// The size of a list of updates, capped at the largest `usize`.
pub open spec fn capped_size(u: Seq<Seq<u8>>) -> int {
    if updates_size(u) > usize::MAX {
        usize::MAX as int
    } else {
        updates_size(u) as int
    }
}

impl CollabMessage {
    pub fn is_mergeable(&self) -> (r: bool)
        ensures
            r == (self.kind == MsgKind::Update),
    {
        self.kind == MsgKind::Update
    }

    pub fn deferrable(&self) -> (r: bool)
        ensures
            r == (self.kind == MsgKind::Update),
    {
        self.kind == MsgKind::Update
    }

    pub fn is_init(&self) -> (r: bool)
        ensures
            r == (self.kind == MsgKind::Init),
    {
        self.kind == MsgKind::Init
    }
}

/// What a queue entry is, as far as the sink's rules are concerned.
pub struct PendingView {
    pub id: MsgId,
    pub kind: MsgKind,
    pub updates: Seq<Seq<u8>>,
    pub state: MessageState,
}

/// A message in the sink's queue.
pub struct PendingMsg {
    pub msg_id: MsgId,
    pub msg: CollabMessage,
    pub state: MessageState,
}

impl View for PendingMsg {
    type V = PendingView;

    open spec fn view(&self) -> PendingView {
        PendingView {
            id: self.msg_id,
            kind: self.msg.kind,
            updates: updates_view(self.msg.updates@),
            state: self.state,
        }
    }
}

/// A message handed to the transport.
pub struct OutgoingMsg {
    pub msg_id: MsgId,
    pub kind: MsgKind,
    pub updates: Vec<Vec<u8>>,
}

pub open spec fn queue_view(q: Seq<PendingMsg>) -> Seq<PendingView> {
    q.map_values(|p: PendingMsg| p@)
}

/// `a` leaves the queue before `b`: higher rank first, then lower id.
pub open spec fn goes_before(a: PendingView, b: PendingView) -> bool {
    kind_rank(a.kind) > kind_rank(b.kind) || (kind_rank(a.kind) == kind_rank(b.kind) && a.id
        < b.id)
}

/// Index of the first entry that is ordered: a message that was sent, in
/// flight or timed out, stays at the head.
pub open spec fn head_start(q: Seq<PendingView>) -> int {
    if q.len() > 0 && q[0].state != MessageState::Pending {
        1
    } else {
        0
    }
}

pub open spec fn queue_wf(q: Seq<PendingView>) -> bool {
    &&& forall|i: int| 0 < i < q.len() ==> q[i].state == MessageState::Pending
    &&& forall|i: int, j: int|
        head_start(q) <= i < j < q.len() ==> #[trigger] goes_before(q[i], q[j])
    &&& forall|i: int, j: int| 0 <= i < j < q.len() ==> (#[trigger] q[i]).id != (#[trigger] q[j]).id
}

/// The updates of a run of queued messages, in queue order.
pub open spec fn merged_updates(q: Seq<PendingView>) -> Seq<Seq<u8>>
    decreases q.len(),
{
    if q.len() == 0 {
        Seq::empty()
    } else {
        merged_updates(q.drop_last()) + q.last().updates
    }
}

/// The head, carrying the updates of `acc`, may absorb `next`.
pub open spec fn can_merge(
    head: PendingView,
    acc: Seq<Seq<u8>>,
    next: PendingView,
    max_merge_size: usize,
) -> bool {
    &&& head.kind == MsgKind::Update
    &&& next.kind == MsgKind::Update
    &&& capped_size(acc) + capped_size(next.updates) <= max_merge_size
}

/// `r` is `q` with the head absorbing the first `k` entries and marked in flight.
pub open spec fn sent_queue(
    q: Seq<PendingView>,
    k: int,
    r: Seq<PendingView>,
    max_merge_size: usize,
) -> bool {
    &&& 1 <= k <= q.len()
    &&& forall|j: int|
        1 <= j < k ==> can_merge(q[0], merged_updates(q.subrange(0, j)), #[trigger] q[j], max_merge_size)
    &&& k < q.len() ==> !can_merge(q[0], merged_updates(q.subrange(0, k)), q[k], max_merge_size)
    &&& r == seq![
        PendingView {
            id: q[0].id,
            kind: q[0].kind,
            updates: merged_updates(q.subrange(0, k)),
            state: MessageState::Processing,
        },
    ] + q.subrange(k, q.len() as int)
}

proof fn lemma_updates_size_concat(a: Seq<Seq<u8>>, b: Seq<Seq<u8>>)
    ensures
        updates_size(a + b) == updates_size(a) + updates_size(b),
    decreases b.len(),
{
    if b.len() == 0 {
        assert(a + b =~= a);
    } else {
        lemma_updates_size_concat(a, b.drop_last());
        assert((a + b).drop_last() =~= a + b.drop_last());
    }
}

proof fn lemma_merged_push(q: Seq<PendingView>, j: int)
    requires
        0 <= j < q.len(),
    ensures
        merged_updates(q.subrange(0, j + 1)) == merged_updates(q.subrange(0, j)) + q[j].updates,
{
    assert(q.subrange(0, j + 1).drop_last() =~= q.subrange(0, j));
}

/// Number of bytes of `u`, capped at the largest `usize`.
fn byte_size(u: &Vec<Vec<u8>>) -> (r: usize)
    ensures
        r == capped_size(updates_view(u@)),
{
    let mut total: usize = 0;
    let mut capped = false;
    let mut i: usize = 0;
    while i < u.len()
        invariant
            i <= u.len(),
            capped ==> total == usize::MAX && updates_size(updates_view(u@.subrange(0, i as int)))
                >= usize::MAX,
            !capped ==> total as int == updates_size(updates_view(u@.subrange(0, i as int))),
        decreases u.len() - i,
    {
        proof {
            assert(updates_view(u@.subrange(0, i + 1)).drop_last() =~= updates_view(
                u@.subrange(0, i as int),
            ));
        }
        let len = u[i].len();
        if !capped {
            if len > usize::MAX - total {
                total = usize::MAX;
                capped = true;
            } else {
                total = total + len;
            }
        }
        i = i + 1;
    }
    proof {
        assert(u@.subrange(0, u.len() as int) =~= u@);
    }
    total
}

fn copy_bytes(b: &Vec<u8>) -> (r: Vec<u8>)
    ensures
        r@ == b@,
{
    let r = b.clone();
    proof {
        assert(r@ =~= b@);
    }
    r
}

fn copy_updates(u: &Vec<Vec<u8>>) -> (r: Vec<Vec<u8>>)
    ensures
        updates_view(r@) == updates_view(u@),
{
    let mut r: Vec<Vec<u8>> = Vec::new();
    let mut i: usize = 0;
    while i < u.len()
        invariant
            i <= u.len(),
            updates_view(r@) =~= updates_view(u@.subrange(0, i as int)),
        decreases u.len() - i,
    {
        let b = copy_bytes(&u[i]);
        let ghost r0 = r@;
        r.push(b);
        proof {
            assert(updates_view(r@) =~= updates_view(r0).push(b@));
            assert(updates_view(u@.subrange(0, i + 1)) =~= updates_view(
                u@.subrange(0, i as int),
            ).push(u@[i as int]@));
        }
        i = i + 1;
    }
    proof {
        assert(u@.subrange(0, u.len() as int) =~= u@);
    }
    r
}

fn goes_before_exec(a: &PendingMsg, b: &PendingMsg) -> (r: bool)
    ensures
        r == goes_before(a@, b@),
{
    let ra = rank_of(a.msg.kind);
    let rb = rank_of(b.msg.kind);
    ra > rb || (ra == rb && a.msg_id < b.msg_id)
}

/// Puts `m` at its place in the ordered part of the queue.
fn insert_sorted(q: &mut Vec<PendingMsg>, m: PendingMsg)
    requires
        queue_wf(queue_view(old(q)@)),
        m.state == MessageState::Pending,
        forall|i: int| 0 <= i < old(q)@.len() ==> (#[trigger] old(q)@[i]).msg_id != m.msg_id,
    ensures
        exists|p: int|
            head_start(queue_view(old(q)@)) <= p <= old(q)@.len() && queue_view(final(q)@)
                == queue_view(old(q)@).insert(p, m@),
        queue_wf(queue_view(final(q)@)),
{
    let ghost qv = queue_view(q@);
    let start: usize = if q.len() > 0 && q[0].state != MessageState::Pending {
        1
    } else {
        0
    };
    assert(start == head_start(qv));
    let mut i: usize = start;
    while i < q.len() && !goes_before_exec(&m, &q[i])
        invariant
            start <= i <= q.len(),
            q@ == old(q)@,
            qv == queue_view(q@),
            start == head_start(qv),
            forall|j: int| start <= j < i ==> goes_before(#[trigger] qv[j], m@),
            forall|j: int| 0 <= j < old(q)@.len() ==> (#[trigger] old(q)@[j]).msg_id != m.msg_id,
        decreases q.len() - i,
    {
        assert(qv[i as int] == q@[i as int]@);
        assert(old(q)@[i as int].msg_id != m.msg_id);
        i = i + 1;
    }
    let ghost mv = m@;
    q.insert(i, m);
    let ghost n = queue_view(q@);
    assert(n =~= qv.insert(i as int, mv));
    assert(forall|j: int| i <= j < qv.len() ==> goes_before(mv, #[trigger] qv[j])) by {
        assert forall|j: int| i <= j < qv.len() implies goes_before(mv, #[trigger] qv[j]) by {
            if j > i {
                assert(goes_before(qv[i as int], qv[j]));
            }
        }
    }
    assert(head_start(n) == start);
    assert forall|a: int, b: int| head_start(n) <= a < b < n.len() implies #[trigger] goes_before(
        n[a],
        n[b],
    ) by {
        if a < i && b < i {
            assert(goes_before(qv[a], qv[b]));
        } else if a < i && b == i {
        } else if a < i {
            assert(goes_before(qv[a], mv));
        } else if a == i {
        } else {
            assert(goes_before(qv[a - 1], qv[b - 1]));
        }
    }
    assert forall|a: int, b: int| 0 <= a < b < n.len() implies (#[trigger] n[a]).id != (
    #[trigger] n[b]).id by {
        if a < i && b < i {
        } else if a < i && b == i {
            assert(qv[a] == q@[a]@);
        } else if a < i {
        } else if a == i {
            assert(qv[b - 1] == old(q)@[b - 1]@);
        } else {
        }
    }
}

/// `v` after its ack did not come in time.
pub open spec fn timed_out(v: PendingView) -> PendingView {
    PendingView { state: MessageState::Timeout, ..v }
}

/// Spec-level time elapsed since `last`; a clock that went back counts as no time.
pub open spec fn elapsed_ms(last: u64, now: u64) -> int {
    if now >= last {
        now - last
    } else {
        0
    }
}

pub open spec fn interval_of(s: SinkStrategy) -> u64 {
    match s {
        SinkStrategy::FixInterval(d) => d,
        SinkStrategy::Asap => 0,
    }
}

/// Delivery state of the outbound messages of one object.
///
/// The transport, the ack channel and the timers live with the caller: the
/// sink decides, for each event, what is sent and how the queue changes.
pub struct CollabSink {
    uid: i64,
    queue: Vec<PendingMsg>,
    counter: DefaultMsgIdCounter,
    config: SinkConfig,
    state: SinkState,
    last_sent_ms: u64,
}

impl CollabSink {
    /// The queue, head first.
    pub closed spec fn pending(&self) -> Seq<PendingView> {
        queue_view(self.queue@)
    }

    /// The id that the next queued message gets.
    pub closed spec fn next_msg_id(&self) -> u64 {
        self.counter.next_id
    }

    pub closed spec fn spec_state(&self) -> SinkState {
        self.state
    }

    pub closed spec fn spec_config(&self) -> SinkConfig {
        self.config
    }

    /// When a paced message was last sent, in milliseconds.
    pub closed spec fn last_sent(&self) -> u64 {
        self.last_sent_ms
    }

    pub closed spec fn spec_uid(&self) -> i64 {
        self.uid
    }

    pub open spec fn wf(&self) -> bool {
        &&& queue_wf(self.pending())
        &&& forall|i: int| 0 <= i < self.pending().len() ==> (#[trigger] self.pending()[i]).id
            < self.next_msg_id()
    }

    pub fn new(uid: i64, config: SinkConfig, now_ms: u64) -> (r: CollabSink)
        ensures
            r.wf(),
            r.pending() == Seq::<PendingView>::empty(),
            r.spec_state() == SinkState::Init,
            r.spec_config() == config,
            r.last_sent() == now_ms,
            r.next_msg_id() == 0,
            r.spec_uid() == uid,
    {
        let r = CollabSink {
            uid,
            queue: Vec::new(),
            counter: DefaultMsgIdCounter::new(),
            config,
            state: SinkState::Init,
            last_sent_ms: now_ms,
        };
        assert(r.pending() =~= Seq::<PendingView>::empty());
        r
    }

    pub fn uid(&self) -> (r: i64)
        ensures
            r == self.spec_uid(),
    {
        self.uid
    }

    pub fn state(&self) -> (r: SinkState)
        ensures
            r == self.spec_state(),
    {
        self.state
    }

    pub fn config(&self) -> (r: SinkConfig)
        ensures
            r == self.spec_config(),
    {
        self.config
    }

    pub fn pending_len(&self) -> (r: usize)
        ensures
            r == self.pending().len(),
    {
        self.queue.len()
    }

    /// Id and state of the message at the head of the queue.
    pub fn peek(&self) -> (r: Option<(MsgId, MessageState)>)
        ensures
            self.pending().len() == 0 ==> r is None,
            self.pending().len() > 0 ==> r == Some((self.pending()[0].id, self.pending()[0].state)),
    {
        if self.queue.len() == 0 {
            None
        } else {
            Some((self.queue[0].msg_id, self.queue[0].state))
        }
    }

    /// Mints the next id for a message of `kind` carrying `updates` and queues it
    /// by priority. `None` once the ids are used up; the queue is then unchanged.
    pub fn queue_msg(&mut self, kind: MsgKind, updates: Vec<Vec<u8>>) -> (r: Option<MsgId>)
        requires
            old(self).wf(),
        ensures
            final(self).wf(),
            final(self).spec_state() == old(self).spec_state(),
            final(self).spec_config() == old(self).spec_config(),
            final(self).last_sent() == old(self).last_sent(),
            final(self).spec_uid() == old(self).spec_uid(),
            old(self).next_msg_id() == u64::MAX ==> r is None && final(self).pending() == old(
                self,
            ).pending() && final(self).next_msg_id() == old(self).next_msg_id(),
            old(self).next_msg_id() < u64::MAX ==> {
                &&& r == Some(old(self).next_msg_id())
                &&& final(self).next_msg_id() == old(self).next_msg_id() + 1
                &&& exists|p: int|
                    head_start(old(self).pending()) <= p <= old(self).pending().len()
                        && final(self).pending() == old(self).pending().insert(
                        p,
                        PendingView {
                            id: old(self).next_msg_id(),
                            kind,
                            updates: updates_view(updates@),
                            state: MessageState::Pending,
                        },
                    )
            },
    {
        match self.counter.next_id() {
            None => None,
            Some(id) => {
                let m = PendingMsg {
                    msg_id: id,
                    msg: CollabMessage { kind, updates },
                    state: MessageState::Pending,
                };
                proof {
                    assert forall|i: int| 0 <= i < self.queue@.len() implies (
                    #[trigger] self.queue@[i]).msg_id != m.msg_id by {
                        assert(self.pending()[i] == self.queue@[i]@);
                    }
                }
                let ghost before = self.pending();
                insert_sorted(&mut self.queue, m);
                proof {
                    assert forall|i: int| 0 <= i < self.pending().len() implies (
                    #[trigger] self.pending()[i]).id < self.next_msg_id() by {
                        let p = choose|p: int|
                            head_start(before) <= p <= before.len() && self.pending()
                                == before.insert(p, m@);
                        if i < p {
                            assert(self.pending()[i] == before[i]);
                        } else if i > p {
                            assert(self.pending()[i] == before[i - 1]);
                        }
                    }
                }
                Some(id)
            },
        }
    }

    /// Drops every queued message.
    pub fn remove_all_pending_msgs(&mut self)
        requires
            old(self).wf(),
        ensures
            final(self).wf(),
            final(self).pending() == Seq::<PendingView>::empty(),
            final(self).spec_state() == old(self).spec_state(),
            final(self).spec_config() == old(self).spec_config(),
            final(self).last_sent() == old(self).last_sent(),
            final(self).next_msg_id() == old(self).next_msg_id(),
            final(self).spec_uid() == old(self).spec_uid(),
    {
        self.queue.clear();
        assert(self.pending() =~= Seq::<PendingView>::empty());
    }

    /// The message that left the head of the queue: drops it and reports whether
    /// the ack matched. An ack that does not match the head is ignored.
    pub fn ack_msg(&mut self, msg_id: MsgId) -> (r: bool)
        requires
            old(self).wf(),
        ensures
            final(self).wf(),
            final(self).spec_config() == old(self).spec_config(),
            final(self).last_sent() == old(self).last_sent(),
            final(self).next_msg_id() == old(self).next_msg_id(),
            final(self).spec_uid() == old(self).spec_uid(),
            r == (old(self).pending().len() > 0 && old(self).pending()[0].id == msg_id),
            r ==> final(self).pending() == old(self).pending().subrange(
                1,
                old(self).pending().len() as int,
            ),
            r && final(self).pending().len() == 0 ==> final(self).spec_state()
                == SinkState::Finished,
            r && final(self).pending().len() > 0 ==> final(self).spec_state() == old(
                self,
            ).spec_state(),
            !r ==> final(self).pending() == old(self).pending() && final(self).spec_state() == old(
                self,
            ).spec_state(),
    {
        if self.queue.len() > 0 && self.queue[0].msg_id == msg_id {
            let ghost q = self.pending();
            self.queue.remove(0);
            assert(self.pending() =~= q.subrange(1, q.len() as int));
            if self.queue.len() == 0 {
                self.state = SinkState::Finished;
            }
            assert(head_start(self.pending()) == 0);
            assert forall|a: int, b: int|
                head_start(self.pending()) <= a < b < self.pending().len() implies #[trigger] goes_before(
                self.pending()[a],
                self.pending()[b],
            ) by {
                assert(goes_before(q[a + 1], q[b + 1]));
            }
            assert forall|a: int, b: int|
                0 <= a < b < self.pending().len() implies (#[trigger] self.pending()[a]).id != (
                #[trigger] self.pending()[b]).id by {
                assert(q[a + 1].id != q[b + 1].id);
            }
            assert forall|i: int| 0 <= i < self.pending().len() implies (
            #[trigger] self.pending()[i]).id < self.next_msg_id() by {
                assert(q[i + 1].id < self.next_msg_id());
            }
            true
        } else {
            false
        }
    }

    /// The ack of the in-flight message `msg_id` did not come in time: the
    /// message stays at the head, with its id, to be sent again.
    pub fn on_ack_timeout(&mut self, msg_id: MsgId) -> (r: bool)
        requires
            old(self).wf(),
        ensures
            final(self).wf(),
            final(self).spec_state() == old(self).spec_state(),
            final(self).spec_config() == old(self).spec_config(),
            final(self).last_sent() == old(self).last_sent(),
            final(self).next_msg_id() == old(self).next_msg_id(),
            final(self).spec_uid() == old(self).spec_uid(),
            r == (old(self).pending().len() > 0 && old(self).pending()[0].id == msg_id && old(
                self,
            ).pending()[0].state == MessageState::Processing),
            r ==> final(self).pending() == old(self).pending().update(
                0,
                timed_out(old(self).pending()[0]),
            ),
            !r ==> final(self).pending() == old(self).pending(),
    {
        if self.queue.len() > 0 && self.queue[0].msg_id == msg_id && self.queue[0].state
            == MessageState::Processing {
            let ghost q = self.pending();
            let mut m = self.queue.remove(0);
            m.state = MessageState::Timeout;
            self.queue.insert(0, m);
            proof {
                let n = self.pending();
                assert(n =~= q.update(0, timed_out(q[0])));
                assert forall|a: int, b: int| head_start(n) <= a < b < n.len() implies #[trigger] goes_before(
                    n[a],
                    n[b],
                ) by {
                    assert(goes_before(q[a], q[b]));
                }
                assert forall|a: int, b: int| 0 <= a < b < n.len() implies (#[trigger] n[a]).id != (
                #[trigger] n[b]).id by {
                    assert(q[a].id != q[b].id);
                }
                assert forall|i: int| 0 <= i < n.len() implies (#[trigger] n[i]).id < self.next_msg_id() by {
                    assert(q[i].id < self.next_msg_id());
                }
            }
            true
        } else {
            false
        }
    }

    /// Takes the head off the queue, merges what may follow it, and puts it back
    /// at the head in flight.
    fn send_head(&mut self) -> (r: OutgoingMsg)
        requires
            old(self).wf(),
            old(self).pending().len() > 0,
            old(self).pending()[0].state != MessageState::Processing,
        ensures
            final(self).wf(),
            exists|k: int|
                sent_queue(
                    old(self).pending(),
                    k,
                    final(self).pending(),
                    old(self).spec_config().max_merge_size,
                ),
            r.msg_id == old(self).pending()[0].id,
            r.kind == old(self).pending()[0].kind,
            updates_view(r.updates@) == final(self).pending()[0].updates,
            old(self).pending()[0].kind == MsgKind::Init ==> final(self).spec_state() == old(
                self,
            ).spec_state(),
            old(self).pending()[0].kind != MsgKind::Init ==> final(self).spec_state()
                == SinkState::Syncing,
            final(self).spec_config() == old(self).spec_config(),
            final(self).last_sent() == old(self).last_sent(),
            final(self).next_msg_id() == old(self).next_msg_id(),
            final(self).spec_uid() == old(self).spec_uid(),
    {
        let ghost q = self.pending();
        let max = self.config.max_merge_size;
        let mut head = self.queue.remove(0);
        assert(queue_view(self.queue@) =~= q.subrange(1, q.len() as int));
        assert(q.subrange(0, 1).drop_last() =~= Seq::<PendingView>::empty());
        assert(merged_updates(Seq::<PendingView>::empty()) == Seq::<Seq<u8>>::empty());
        assert(merged_updates(q.subrange(0, 1)) =~= q[0].updates);
        let mut size = byte_size(&head.msg.updates);
        let ghost mut k: int = 1;
        let mut merging = head.msg.is_mergeable();
        while merging && self.queue.len() > 0
            invariant
                1 <= k <= q.len(),
                queue_view(self.queue@) == q.subrange(k, q.len() as int),
                head.msg_id == q[0].id,
                head.msg.kind == q[0].kind,
                updates_view(head.msg.updates@) == merged_updates(q.subrange(0, k)),
                size == capped_size(merged_updates(q.subrange(0, k))),
                forall|j: int|
                    1 <= j < k ==> can_merge(
                        q[0],
                        merged_updates(q.subrange(0, j)),
                        #[trigger] q[j],
                        max,
                    ),
                !merging ==> (k < q.len() ==> !can_merge(
                    q[0],
                    merged_updates(q.subrange(0, k)),
                    q[k],
                    max,
                )),
                merging ==> q[0].kind == MsgKind::Update,
                max == self.config.max_merge_size,
                self.config == old(self).config,
                self.state == old(self).state,
                self.counter == old(self).counter,
                self.last_sent_ms == old(self).last_sent_ms,
                self.uid == old(self).uid,
            decreases self.queue.len() + (if merging {
                1int
            } else {
                0int
            }),
        {
            assert(queue_view(self.queue@)[0] == self.queue@[0]@);
            let next_size = byte_size(&self.queue[0].msg.updates);
            if self.queue[0].msg.is_mergeable() && size <= max && next_size <= max - size {
                let ghost before = self.queue@;
                assert(queue_view(before).len() == before.len());
                let mut next = self.queue.remove(0);
                let ghost acc = merged_updates(q.subrange(0, k));
                let ghost hu = head.msg.updates@;
                let ghost nu = next.msg.updates@;
                head.msg.updates.append(&mut next.msg.updates);
                proof {
                    lemma_merged_push(q, k);
                    assert(updates_view(hu + nu) =~= updates_view(hu) + updates_view(nu));
                    lemma_updates_size_concat(acc, q[k].updates);
                    assert(queue_view(self.queue@) =~= queue_view(before).subrange(
                        1,
                        before.len() as int,
                    ));
                    assert(queue_view(self.queue@) =~= q.subrange(k + 1, q.len() as int));
                }
                size = size + next_size;
                proof {
                    k = k + 1;
                }
            } else {
                merging = false;
            }
        }
        head.state = MessageState::Processing;
        let out = OutgoingMsg {
            msg_id: head.msg_id,
            kind: head.msg.kind,
            updates: copy_updates(&head.msg.updates),
        };
        if !head.msg.is_init() {
            self.state = SinkState::Syncing;
        }
        let ghost hv = head@;
        self.queue.insert(0, head);
        proof {
            let n = self.pending();
            assert(n =~= seq![hv] + q.subrange(k, q.len() as int));
            assert(sent_queue(q, k, n, max));
            assert(head_start(n) == 1);
            assert forall|a: int, b: int| head_start(n) <= a < b < n.len() implies #[trigger] goes_before(
                n[a],
                n[b],
            ) by {
                assert(goes_before(q[a - 1 + k], q[b - 1 + k]));
            }
            assert forall|a: int, b: int| 0 <= a < b < n.len() implies (#[trigger] n[a]).id != (
            #[trigger] n[b]).id by {
                if a == 0 {
                    assert(q[0].id != q[b - 1 + k].id);
                } else {
                    assert(q[a - 1 + k].id != q[b - 1 + k].id);
                }
            }
            assert forall|i: int| 0 <= i < n.len() implies (#[trigger] n[i]).id
                < self.next_msg_id() by {
                if i == 0 {
                    assert(q[0].id < self.next_msg_id());
                } else {
                    assert(q[i - 1 + k].id < self.next_msg_id());
                }
            }
        }
        out
    }

    /// One scheduling tick at time `now_ms`: the message to hand to the
    /// transport, if any.
    ///
    /// Nothing is sent while a message is in flight. A deferrable head under
    /// `FixInterval(d)` waits until `d` milliseconds have passed since the last
    /// paced send; any other head is sent at once.
    pub fn process_next_msg(&mut self, now_ms: u64) -> (r: Option<OutgoingMsg>)
        requires
            old(self).wf(),
        ensures
            final(self).wf(),
            final(self).spec_config() == old(self).spec_config(),
            final(self).next_msg_id() == old(self).next_msg_id(),
            final(self).spec_uid() == old(self).spec_uid(),
            ({
                let q = old(self).pending();
                let paced = q.len() > 0 && q[0].kind == MsgKind::Update
                    && old(self).spec_config().strategy is FixInterval;
                let idle = q.len() == 0 || q[0].state == MessageState::Processing || (paced
                    && elapsed_ms(old(self).last_sent(), now_ms) < interval_of(
                    old(self).spec_config().strategy,
                ));
                &&& idle ==> r is None && final(self).pending() == q && final(self).spec_state()
                    == old(self).spec_state() && final(self).last_sent() == old(self).last_sent()
                &&& !idle ==> {
                    &&& r is Some
                    &&& r->Some_0.msg_id == q[0].id
                    &&& r->Some_0.kind == q[0].kind
                    &&& updates_view(r->Some_0.updates@) == final(self).pending()[0].updates
                    &&& exists|k: int|
                        sent_queue(
                            q,
                            k,
                            final(self).pending(),
                            old(self).spec_config().max_merge_size,
                        )
                    &&& final(self).spec_state() == (if q[0].kind == MsgKind::Init {
                        old(self).spec_state()
                    } else {
                        SinkState::Syncing
                    })
                    &&& final(self).last_sent() == (if paced {
                        now_ms
                    } else {
                        old(self).last_sent()
                    })
                }
            }),
    {
        if self.queue.len() == 0 {
            return None;
        }
        if self.queue[0].state == MessageState::Processing {
            return None;
        }
        assert(self.pending()[0] == self.queue@[0]@);
        if self.queue[0].msg.deferrable() {
            match self.config.strategy {
                SinkStrategy::FixInterval(d) => {
                    let elapsed = if now_ms >= self.last_sent_ms {
                        now_ms - self.last_sent_ms
                    } else {
                        0
                    };
                    if elapsed < d {
                        return None;
                    }
                    self.last_sent_ms = now_ms;
                },
                SinkStrategy::Asap => {},
            }
        }
        Some(self.send_head())
    }
}

/// What the runner of a sink does after the notifier changed.
#[derive(Clone, Copy, Debug, PartialEq, Eq, Structural)]
pub enum RunnerStep {
    /// Process the next message of the sink.
    Process,
    /// Stop running.
    Stop,
}

/// Drives a sink: on each change of its notifier, processes the next message.
pub struct CollabSinkRunner;

impl CollabSinkRunner {
    /// The runner stops when the notifier is closed, when it carries the stop
    /// signal, or when the sink is gone; otherwise it processes the next message.
    pub fn next_step(notifier_open: bool, stop_signal: bool, sink_alive: bool) -> (r: RunnerStep)
        ensures
            r == (if notifier_open && !stop_signal && sink_alive {
                RunnerStep::Process
            } else {
                RunnerStep::Stop
            }),
    {
        if notifier_open && !stop_signal && sink_alive {
            RunnerStep::Process
        } else {
            RunnerStep::Stop
        }
    }
}

} // verus!
