//! Plumtree state of one topic: eager (tree) and lazy (gossip) peers, the message
//! cache, the pending IHAVE batch and the outstanding IWANT requests, with the
//! handlers that move it forward and the messages they emit.

use vstd::prelude::*;
use lru::LruCache;
use crate::cache::{
    cache_bounded, cache_capacity, cache_contains, cache_entries, cache_get, cache_insertion_times,
    cache_len, cache_new, cache_pop, cache_put, CachedMessage, CachedView, MAX_CACHE_SIZE,
};
use crate::message_id::{calculate_msg_id, message_id_of};
use crate::peers::{holds, insert_peer, remove_peer};
use crate::types::{MessageHeader, MessageId, MessageKind, PeerId, TopicId};

verus! {

/// Time a cached message is kept, in milliseconds.
pub const CACHE_TTL_MS: u64 = 300_000;

/// Maximum number of ids in one IHAVE.
pub const MAX_IHAVE_BATCH_SIZE: usize = 1024;

/// Interval between IHAVE flushes, in milliseconds.
pub const IHAVE_FLUSH_INTERVAL_MS: u64 = 100;

/// Maximum number of ids waiting to be advertised.
pub const MAX_PENDING_IHAVE: usize = 100_000;

/// Number of times an IWANT is retried before it is given up.
pub const MAX_IWANT_RETRIES: u8 = 3;

/// Maximum number of outstanding IWANT requests.
pub const MAX_OUTSTANDING_IWANTS: usize = 10_000;

/// Age after which an IWANT request is given up, in milliseconds.
pub const IWANT_TIMEOUT_MS: u64 = 2_000;

/// Eager degree that maintenance restores.
pub const MIN_EAGER_DEGREE: usize = 6;

/// Eager degree above which maintenance prunes.
pub const MAX_EAGER_DEGREE: usize = 12;

/// Protocol version written in every header.
pub const PROTOCOL_VERSION: u8 = 1;

/// Hop limit given to published messages.
pub const DEFAULT_TTL: u8 = 10;

/// A gossip envelope: header, optional payload and signature.
#[derive(Clone, Debug)]
pub struct GossipMessage {
    pub header: MessageHeader,
    pub payload: Option<Vec<u8>>,
    pub signature: Vec<u8>,
}

/// Why an inbound EAGER was rejected.
#[derive(Clone, Copy, Debug, PartialEq, Eq, Structural)]
pub enum PubSubError {
    InvalidSignature,
    MissingPayload,
}

/// What the dissemination engine asks its environment to do.
#[derive(Clone, Debug)]
pub enum PubSubAction {
    SendEager { to: PeerId, header: MessageHeader, payload: Vec<u8> },
    SendIHave { to: PeerId, topic: TopicId, msg_ids: Vec<MessageId> },
    SendIWant { to: PeerId, topic: TopicId, msg_ids: Vec<MessageId> },
    SendPrune { to: PeerId, topic: TopicId, msg_id: MessageId },
    Deliver { from: PeerId, topic: TopicId, payload: Vec<u8> },
}

/// The content of a `PubSubAction`.
pub enum Action {
    Eager { to: PeerId, header: MessageHeader, payload: Seq<u8> },
    IHave { to: PeerId, topic: TopicId, msg_ids: Seq<MessageId> },
    IWant { to: PeerId, topic: TopicId, msg_ids: Seq<MessageId> },
    Prune { to: PeerId, topic: TopicId, msg_id: MessageId },
    Deliver { from: PeerId, topic: TopicId, payload: Seq<u8> },
}

impl PubSubAction {
    pub open spec fn view(&self) -> Action {
        match self {
            PubSubAction::SendEager { to, header, payload } => Action::Eager {
                to: *to,
                header: *header,
                payload: payload@,
            },
            PubSubAction::SendIHave { to, topic, msg_ids } => Action::IHave {
                to: *to,
                topic: *topic,
                msg_ids: msg_ids@,
            },
            PubSubAction::SendIWant { to, topic, msg_ids } => Action::IWant {
                to: *to,
                topic: *topic,
                msg_ids: msg_ids@,
            },
            PubSubAction::SendPrune { to, topic, msg_id } => Action::Prune {
                to: *to,
                topic: *topic,
                msg_id: *msg_id,
            },
            PubSubAction::Deliver { from, topic, payload } => Action::Deliver {
                from: *from,
                topic: *topic,
                payload: payload@,
            },
        }
    }
}

/// The contents of a list of actions.
pub open spec fn actions_view(v: Seq<PubSubAction>) -> Seq<Action> {
    v.map_values(|a: PubSubAction| a.view())
}

/// An IWANT request waiting for its message: whom it was sent to and when, how
/// often it was retried, and another peer that advertised the id meanwhile.
#[derive(Clone, Copy, Debug)]
pub struct OutstandingIWant {
    pub msg_id: MessageId,
    pub peer: PeerId,
    pub issued_at: u64,
    pub retries: u8,
    pub alternate: Option<PeerId>,
}

/// What the state of a topic holds.
pub struct TopicView {
    pub topic: TopicId,
    pub eager: Seq<PeerId>,
    pub lazy: Seq<PeerId>,
    pub cached: Map<MessageId, CachedView>,
    pub pending: Seq<MessageId>,
    pub wants: Seq<OutstandingIWant>,
}

/// Whether `id` has an outstanding request in `wants`.
pub open spec fn is_wanted(wants: Seq<OutstandingIWant>, id: MessageId) -> bool {
    exists|i: int| 0 <= i < wants.len() && (#[trigger] wants[i]).msg_id == id
}

/// No two outstanding requests share a message id.
pub open spec fn wants_unique(wants: Seq<OutstandingIWant>) -> bool {
    forall|i: int, j: int| 0 <= i < j < wants.len() ==> wants[i].msg_id != wants[j].msg_id
}

/// The topic's invariant: eager and lazy peers are duplicate-free and disjoint, and
/// every store is within its cap.
pub open spec fn view_wf(v: TopicView) -> bool {
    &&& v.eager.no_duplicates()
    &&& v.lazy.no_duplicates()
    &&& forall|p: PeerId| v.eager.contains(p) ==> !v.lazy.contains(p)
    &&& v.cached.dom().finite()
    &&& v.cached.len() <= MAX_CACHE_SIZE
    &&& forall|k: MessageId| #[trigger] v.cached.contains_key(k) ==> v.cached[k].header.msg_id == k
    &&& v.pending.len() <= MAX_PENDING_IHAVE
    &&& v.wants.len() <= MAX_OUTSTANDING_IWANTS
    &&& wants_unique(v.wants)
}

/// The state of a topic nobody has touched yet.
pub open spec fn fresh_view(topic: TopicId) -> TopicView {
    TopicView {
        topic,
        eager: Seq::empty(),
        lazy: Seq::empty(),
        cached: Map::empty(),
        pending: Seq::empty(),
        wants: Seq::empty(),
    }
}

/// `new` is `old` with the entry for `id` set to `v` as an LRU cache of
/// `MAX_CACHE_SIZE` entries does it: when `id` is new and the cache full, one other
/// entry is evicted.
pub open spec fn cache_stored(
    old: Map<MessageId, CachedView>,
    new: Map<MessageId, CachedView>,
    id: MessageId,
    v: CachedView,
) -> bool {
    if old.contains_key(id) || old.len() < MAX_CACHE_SIZE {
        new == old.insert(id, v)
    } else {
        exists|e: MessageId| old.contains_key(e) && new == old.remove(e).insert(id, v)
    }
}

/// `pending` with `id` appended, the oldest id dropped when at capacity.
pub open spec fn pending_pushed(pending: Seq<MessageId>, id: MessageId) -> Seq<MessageId> {
    if pending.len() >= MAX_PENDING_IHAVE {
        pending.subrange(1, pending.len() as int).push(id)
    } else {
        pending.push(id)
    }
}

/// `e1`/`l1` is `e0`/`l0` with `peer` moved from the lazy to the eager peers, when it
/// was lazy.
pub open spec fn moved_to_eager(
    e0: Seq<PeerId>,
    l0: Seq<PeerId>,
    peer: PeerId,
    e1: Seq<PeerId>,
    l1: Seq<PeerId>,
) -> bool {
    if l0.contains(peer) {
        &&& forall|q: PeerId| #[trigger] e1.contains(q) == (e0.contains(q) || q == peer)
        &&& forall|q: PeerId| #[trigger] l1.contains(q) == (l0.contains(q) && q != peer)
    } else {
        e1 == e0 && l1 == l0
    }
}

/// `e1`/`l1` is `e0`/`l0` with `peer` moved from the eager to the lazy peers, when
/// it was eager.
pub open spec fn moved_to_lazy(
    e0: Seq<PeerId>,
    l0: Seq<PeerId>,
    peer: PeerId,
    e1: Seq<PeerId>,
    l1: Seq<PeerId>,
) -> bool {
    moved_to_eager(l0, e0, peer, l1, e1)
}

/// The EAGER sends of `header` and `payload` to each of `peers` but `skip`, in order.
pub open spec fn eager_sends(
    peers: Seq<PeerId>,
    skip: Option<PeerId>,
    header: MessageHeader,
    payload: Seq<u8>,
) -> Seq<Action>
    decreases peers.len(),
{
    if peers.len() == 0 {
        Seq::empty()
    } else {
        let r = eager_sends(peers.drop_last(), skip, header, payload);
        if skip == Some(peers.last()) {
            r
        } else {
            r.push(Action::Eager { to: peers.last(), header, payload })
        }
    }
}

/// The header a local publication of message `id` on `topic` carries.
pub open spec fn publish_header(topic: TopicId, id: MessageId) -> MessageHeader {
    MessageHeader {
        version: PROTOCOL_VERSION,
        topic,
        msg_id: id,
        kind: MessageKind::Eager,
        hop: 0,
        ttl: DEFAULT_TTL,
    }
}

/// `header` one hop further.
pub open spec fn forwarded_header(header: MessageHeader) -> MessageHeader
    recommends
        header.hop < 255,
{
    MessageHeader { hop: (header.hop + 1) as u8, ..header }
}

/// The ids an IHAVE of `ids` requests, in order: those neither cached, nor already
/// requested, nor repeated, while the outstanding requests are below their cap.
pub open spec fn iwant_ids(
    cached: Map<MessageId, CachedView>,
    wants: Seq<OutstandingIWant>,
    ids: Seq<MessageId>,
) -> Seq<MessageId>
    decreases ids.len(),
{
    if ids.len() == 0 {
        Seq::empty()
    } else {
        let r = iwant_ids(cached, wants, ids.drop_last());
        let q = ids.last();
        if cached.contains_key(q) || is_wanted(wants, q) || r.contains(q) || wants.len() + r.len()
            >= MAX_OUTSTANDING_IWANTS {
            r
        } else {
            r.push(q)
        }
    }
}

/// `w` after an IHAVE of `ids` from `from`: a peer other than the one asked that
/// advertises the id becomes its alternate.
pub open spec fn note_advert(w: OutstandingIWant, ids: Seq<MessageId>, from: PeerId) -> OutstandingIWant {
    if ids.contains(w.msg_id) && w.peer != from {
        OutstandingIWant { alternate: Some(from), ..w }
    } else {
        w
    }
}

/// The outstanding requests after an IHAVE of `ids` from `from` noted its advertiser.
pub open spec fn noted(wants: Seq<OutstandingIWant>, ids: Seq<MessageId>, from: PeerId) -> Seq<OutstandingIWant> {
    wants.map_values(|w: OutstandingIWant| note_advert(w, ids, from))
}

/// A request issued at `issued_at` has timed out at `now`.
pub open spec fn iwant_timed_out(issued_at: u64, now: u64) -> bool {
    now >= issued_at && now - issued_at > IWANT_TIMEOUT_MS
}

/// What becomes of request `w` at the retry tick `now`: kept while young; once
/// timed out, re-sent to its alternate while retries remain; else given up.
pub open spec fn retry_step(w: OutstandingIWant, now: u64) -> Option<OutstandingIWant> {
    if !iwant_timed_out(w.issued_at, now) {
        Some(w)
    } else if w.alternate is Some && w.retries < MAX_IWANT_RETRIES {
        Some(OutstandingIWant {
            msg_id: w.msg_id,
            peer: w.alternate->Some_0,
            issued_at: now,
            retries: (w.retries + 1) as u8,
            alternate: None,
        })
    } else {
        None
    }
}

/// The outstanding requests after the retry tick `now`, in order.
pub open spec fn retried(wants: Seq<OutstandingIWant>, now: u64) -> Seq<OutstandingIWant>
    decreases wants.len(),
{
    if wants.len() == 0 {
        Seq::empty()
    } else {
        let r = retried(wants.drop_last(), now);
        match retry_step(wants.last(), now) {
            Some(w) => r.push(w),
            None => r,
        }
    }
}

/// The IWANTs the retry tick `now` sends on `topic`, in order.
pub open spec fn retry_requests(wants: Seq<OutstandingIWant>, topic: TopicId, now: u64) -> Seq<Action>
    decreases wants.len(),
{
    if wants.len() == 0 {
        Seq::empty()
    } else {
        let r = retry_requests(wants.drop_last(), topic, now);
        let w = wants.last();
        if iwant_timed_out(w.issued_at, now) && w.alternate is Some && w.retries < MAX_IWANT_RETRIES {
            r.push(Action::IWant { to: w.alternate->Some_0, topic, msg_ids: seq![w.msg_id] })
        } else {
            r
        }
    }
}

/// The request records made for `ids` asked of `peer` at `now`.
pub open spec fn want_records(ids: Seq<MessageId>, peer: PeerId, now: u64) -> Seq<OutstandingIWant> {
    ids.map_values(
        |id: MessageId| OutstandingIWant { msg_id: id, peer, issued_at: now, retries: 0, alternate: None },
    )
}

/// The EAGER replies to an IWANT of `ids` from `to`: one per cached id, in order.
pub open spec fn iwant_replies(
    cached: Map<MessageId, CachedView>,
    ids: Seq<MessageId>,
    to: PeerId,
) -> Seq<Action>
    decreases ids.len(),
{
    if ids.len() == 0 {
        Seq::empty()
    } else {
        let r = iwant_replies(cached, ids.drop_last(), to);
        let q = ids.last();
        if cached.contains_key(q) {
            r.push(Action::Eager { to, header: cached[q].header, payload: cached[q].payload })
        } else {
            r
        }
    }
}

/// The contents of an outcome of a handler.
pub open spec fn result_view(r: Result<Vec<PubSubAction>, PubSubError>) -> Result<Seq<Action>, PubSubError> {
    match r {
        Ok(v) => Ok(actions_view(v@)),
        Err(e) => Err(e),
    }
}

/// The payload a message carries, if any.
pub open spec fn payload_view(m: GossipMessage) -> Option<Seq<u8>> {
    match m.payload {
        Some(p) => Some(p@),
        None => None,
    }
}

/// State `o` becomes `n` and answers `r` on an EAGER with header `h` and payload
/// `payload` from `from` at `now`, `signature_valid` being the verifier's verdict.
pub open spec fn eager_handled(
    o: TopicView,
    n: TopicView,
    from: PeerId,
    h: MessageHeader,
    payload: Option<Seq<u8>>,
    signature_valid: bool,
    now: u64,
    r: Result<Seq<Action>, PubSubError>,
) -> bool {
    let id = h.msg_id;
    &&& !signature_valid ==> r == Err::<Seq<Action>, PubSubError>(PubSubError::InvalidSignature) && n == o
    &&& signature_valid && o.cached.contains_key(id) ==> {
        &&& r == Ok::<Seq<Action>, PubSubError>(seq![Action::Prune { to: from, topic: o.topic, msg_id: id }])
        &&& moved_to_lazy(o.eager, o.lazy, from, n.eager, n.lazy)
        &&& n.cached == o.cached && n.pending == o.pending && n.wants == o.wants && n.topic == o.topic
    }
    &&& signature_valid && !o.cached.contains_key(id) && payload is None ==>
        r == Err::<Seq<Action>, PubSubError>(PubSubError::MissingPayload) && n == o
    &&& signature_valid && !o.cached.contains_key(id) && payload is Some ==> {
        let p = payload->Some_0;
        &&& r == Ok::<Seq<Action>, PubSubError>(seq![Action::Deliver { from, topic: o.topic, payload: p }] + (
            if h.hop < h.ttl {
                eager_sends(o.eager, Some(from), forwarded_header(h), p)
            } else {
                Seq::empty()
            }))
        &&& cache_stored(o.cached, n.cached, id, CachedView { payload: p, inserted_at: now, header: h })
        &&& n.pending == pending_pushed(o.pending, id)
        &&& forall|w: OutstandingIWant| #[trigger] n.wants.contains(w) == (o.wants.contains(w) && w.msg_id != id)
        &&& if is_wanted(o.wants, id) {
            moved_to_eager(o.eager, o.lazy, from, n.eager, n.lazy)
        } else {
            n.eager == o.eager && n.lazy == o.lazy
        }
        &&& n.topic == o.topic
    }
}

/// State `o` becomes `n` and sends `acts` on an IHAVE of `ids` from `from` at `now`.
pub open spec fn ihave_handled(
    o: TopicView,
    n: TopicView,
    from: PeerId,
    ids: Seq<MessageId>,
    now: u64,
    acts: Seq<Action>,
) -> bool {
    let req = iwant_ids(o.cached, o.wants, ids);
    &&& n.wants == noted(o.wants, ids, from) + want_records(req, from, now)
    &&& acts == if req.len() > 0 {
        seq![Action::IWant { to: from, topic: o.topic, msg_ids: req }]
    } else {
        Seq::empty()
    }
    &&& n.eager == o.eager && n.lazy == o.lazy && n.cached == o.cached
    &&& n.pending == o.pending && n.topic == o.topic
}

/// State `o` becomes `n` and sends `acts` on an IWANT of `ids` from `from`.
pub open spec fn iwant_handled(
    o: TopicView,
    n: TopicView,
    from: PeerId,
    ids: Seq<MessageId>,
    acts: Seq<Action>,
) -> bool {
    &&& acts == iwant_replies(o.cached, ids, from)
    &&& if exists|i: int| 0 <= i < ids.len() && o.cached.contains_key(#[trigger] ids[i]) {
        moved_to_eager(o.eager, o.lazy, from, n.eager, n.lazy)
    } else {
        n.eager == o.eager && n.lazy == o.lazy
    }
    &&& n.cached == o.cached && n.pending == o.pending && n.wants == o.wants && n.topic == o.topic
}

/// A cache entry inserted at `inserted_at` is expired at `now`.
pub open spec fn cache_expired(inserted_at: u64, now: u64) -> bool {
    now >= inserted_at && now - inserted_at > CACHE_TTL_MS
}

/// A copy of a list of message ids.
pub fn copy_ids(v: &Vec<MessageId>) -> (r: Vec<MessageId>)
    ensures
        r@ == v@,
{
    let mut r: Vec<MessageId> = Vec::new();
    let mut i: usize = 0;
    while i < v.len()
        invariant
            0 <= i <= v@.len(),
            r@ == v@.take(i as int),
        decreases v@.len() - i,
    {
        r.push(v[i]);
        assert(v@.take(i + 1) =~= v@.take(i as int).push(v@[i as int]));
        i = i + 1;
    }
    assert(v@.take(v@.len() as int) =~= v@);
    r
}

/// Whether `ids` holds `id`.
pub fn contains_id(ids: &Vec<MessageId>, id: &MessageId) -> (r: bool)
    ensures
        r == ids@.contains(*id),
{
    let mut i: usize = 0;
    while i < ids.len()
        invariant
            0 <= i <= ids@.len(),
            forall|k: int| 0 <= k < i ==> ids@[k] != *id,
        decreases ids@.len() - i,
    {
        if crate::types::bytes32_eq(&ids[i], id) {
            return true;
        }
        i = i + 1;
    }
    false
}

proof fn lemma_iwant_ids_same(
    cached: Map<MessageId, CachedView>,
    w1: Seq<OutstandingIWant>,
    w2: Seq<OutstandingIWant>,
    ids: Seq<MessageId>,
)
    requires
        w1.len() == w2.len(),
        forall|k: int| 0 <= k < w1.len() ==> #[trigger] w1[k].msg_id == w2[k].msg_id,
    ensures
        iwant_ids(cached, w1, ids) == iwant_ids(cached, w2, ids),
    decreases ids.len(),
{
    if ids.len() > 0 {
        lemma_iwant_ids_same(cached, w1, w2, ids.drop_last());
        let q = ids.last();
        if is_wanted(w1, q) {
            let k = choose|k: int| 0 <= k < w1.len() && (#[trigger] w1[k]).msg_id == q;
            assert(w2[k].msg_id == q);
        }
        if is_wanted(w2, q) {
            let k = choose|k: int| 0 <= k < w2.len() && (#[trigger] w2[k]).msg_id == q;
            assert(w1[k].msg_id == q);
        }
    }
}

proof fn lemma_wanted_concat(w0: Seq<OutstandingIWant>, req: Seq<MessageId>, peer: PeerId, now: u64, q: MessageId)
    ensures
        is_wanted(w0 + want_records(req, peer, now), q) == (is_wanted(w0, q) || req.contains(q)),
{
    let w = w0 + want_records(req, peer, now);
    if is_wanted(w, q) {
        let k = choose|k: int| 0 <= k < w.len() && (#[trigger] w[k]).msg_id == q;
        if k < w0.len() {
            assert(w0[k] == w[k]);
        } else {
            assert(req[k - w0.len()] == q);
        }
    }
    if is_wanted(w0, q) {
        let k = choose|k: int| 0 <= k < w0.len() && (#[trigger] w0[k]).msg_id == q;
        assert(w[k] == w0[k]);
    }
    if req.contains(q) {
        let k = choose|k: int| 0 <= k < req.len() && req[k] == q;
        assert(w[w0.len() + k].msg_id == q);
    }
}

/// Plumtree state of one topic.
pub struct TopicState {
    topic: TopicId,
    eager: Vec<PeerId>,
    lazy: Vec<PeerId>,
    cache: LruCache<MessageId, CachedMessage>,
    pending_ihave: Vec<MessageId>,
    outstanding: Vec<OutstandingIWant>,
}

impl TopicState {
    pub closed spec fn view(&self) -> TopicView {
        TopicView {
            topic: self.topic,
            eager: self.eager@,
            lazy: self.lazy@,
            cached: cache_entries(self.cache),
            pending: self.pending_ihave@,
            wants: self.outstanding@,
        }
    }

    pub closed spec fn wf(&self) -> bool {
        &&& view_wf(self.view())
        &&& cache_bounded(self.cache)
        &&& cache_capacity(self.cache) == MAX_CACHE_SIZE
    }

    /// The empty state of `topic`.
    pub fn new(topic: TopicId) -> (r: TopicState)
        ensures
            r.wf(),
            r.view() == fresh_view(topic),
    {
        let r = TopicState {
            topic,
            eager: Vec::new(),
            lazy: Vec::new(),
            cache: cache_new(MAX_CACHE_SIZE),
            pending_ihave: Vec::new(),
            outstanding: Vec::new(),
        };
        assert(r.view().cached.dom() =~= Set::<MessageId>::empty());
        r
    }

    pub proof fn lemma_wf(&self)
        requires
            self.wf(),
        ensures
            view_wf(self.view()),
    {
    }

    pub fn topic_id(&self) -> (r: TopicId)
        ensures
            r == self.view().topic,
    {
        self.topic
    }

    pub fn eager_peers(&self) -> (r: Vec<PeerId>)
        ensures
            r@ == self.view().eager,
    {
        self.eager.clone()
    }

    pub fn lazy_peers(&self) -> (r: Vec<PeerId>)
        ensures
            r@ == self.view().lazy,
    {
        self.lazy.clone()
    }

    pub fn pending_ihave(&self) -> (r: Vec<MessageId>)
        ensures
            r@ == self.view().pending,
    {
        copy_ids(&self.pending_ihave)
    }

    /// Whether message `id` is cached.
    pub fn has_message(&self, id: &MessageId) -> (r: bool)
        ensures
            r == self.view().cached.contains_key(*id),
    {
        cache_contains(&self.cache, id)
    }

    /// Number of cached messages.
    pub fn cached_count(&self) -> (r: usize)
        ensures
            r == self.view().cached.len(),
    {
        cache_len(&self.cache)
    }

    /// Whether message `id` has an outstanding IWANT.
    pub fn is_requested(&self, id: &MessageId) -> (r: bool)
        ensures
            r == is_wanted(self.view().wants, *id),
    {
        match self.want_position(id) {
            Some(_) => true,
            None => false,
        }
    }

    fn want_position(&self, id: &MessageId) -> (r: Option<usize>)
        ensures
            match r {
                Some(i) => i < self.outstanding@.len() && self.outstanding@[i as int].msg_id == *id,
                None => !is_wanted(self.outstanding@, *id),
            },
    {
        let mut i: usize = 0;
        while i < self.outstanding.len()
            invariant
                0 <= i <= self.outstanding@.len(),
                forall|k: int| 0 <= k < i ==> self.outstanding@[k].msg_id != *id,
            decreases self.outstanding@.len() - i,
        {
            if crate::types::bytes32_eq(&self.outstanding[i].msg_id, id) {
                return Some(i);
            }
            i = i + 1;
        }
        None
    }
    /// Moves `peer` from eager to lazy, when it is eager (PRUNE).
    pub fn prune_peer(&mut self, peer: PeerId)
        requires
            old(self).wf(),
        ensures
            final(self).wf(),
            moved_to_lazy(old(self).view().eager, old(self).view().lazy, peer, final(self).view().eager, final(self).view().lazy),
            final(self).view().cached == old(self).view().cached,
            final(self).view().pending == old(self).view().pending,
            final(self).view().wants == old(self).view().wants,
            final(self).view().topic == old(self).view().topic,
    {
        if remove_peer(&mut self.eager, &peer) {
            insert_peer(&mut self.lazy, peer);
        }
    }

    /// Moves `peer` from lazy to eager, when it is lazy (GRAFT).
    pub fn graft_peer(&mut self, peer: PeerId)
        requires
            old(self).wf(),
        ensures
            final(self).wf(),
            moved_to_eager(old(self).view().eager, old(self).view().lazy, peer, final(self).view().eager, final(self).view().lazy),
            final(self).view().cached == old(self).view().cached,
            final(self).view().pending == old(self).view().pending,
            final(self).view().wants == old(self).view().wants,
            final(self).view().topic == old(self).view().topic,
    {
        if remove_peer(&mut self.lazy, &peer) {
            insert_peer(&mut self.eager, peer);
        }
    }

    /// Drops `peer` from the eager and the lazy peers.
    pub fn remove_peer(&mut self, peer: &PeerId)
        requires
            old(self).wf(),
        ensures
            final(self).wf(),
            forall|q: PeerId| #[trigger] final(self).view().eager.contains(q) == (old(self).view().eager.contains(q) && q != *peer),
            forall|q: PeerId| #[trigger] final(self).view().lazy.contains(q) == (old(self).view().lazy.contains(q) && q != *peer),
            final(self).view().cached == old(self).view().cached,
            final(self).view().pending == old(self).view().pending,
            final(self).view().wants == old(self).view().wants,
            final(self).view().topic == old(self).view().topic,
    {
        remove_peer(&mut self.eager, peer);
        remove_peer(&mut self.lazy, peer);
    }

    /// Makes every peer of `peers` eager (the tree then optimises itself by PRUNE).
    pub fn initialize_peers(&mut self, peers: &Vec<PeerId>)
        requires
            old(self).wf(),
        ensures
            final(self).wf(),
            forall|q: PeerId| #[trigger] final(self).view().eager.contains(q) == (old(self).view().eager.contains(q) || peers@.contains(q)),
            forall|q: PeerId| #[trigger] final(self).view().lazy.contains(q) == (old(self).view().lazy.contains(q) && !peers@.contains(q)),
            final(self).view().cached == old(self).view().cached,
            final(self).view().pending == old(self).view().pending,
            final(self).view().wants == old(self).view().wants,
            final(self).view().topic == old(self).view().topic,
    {
        let ghost e0 = self.eager@;
        let ghost l0 = self.lazy@;
        let mut i: usize = 0;
        while i < peers.len()
            invariant
                self.wf(),
                0 <= i <= peers@.len(),
                self.view().cached == old(self).view().cached,
                self.view().pending == old(self).view().pending,
                self.view().wants == old(self).view().wants,
                self.view().topic == old(self).view().topic,
                forall|q: PeerId| #[trigger] self.eager@.contains(q) == (e0.contains(q) || peers@.take(i as int).contains(q)),
                forall|q: PeerId| #[trigger] self.lazy@.contains(q) == (l0.contains(q) && !peers@.take(i as int).contains(q)),
            decreases peers@.len() - i,
        {
            let p = peers[i];
            remove_peer(&mut self.lazy, &p);
            insert_peer(&mut self.eager, p);
            proof {
                let t0 = peers@.take(i as int);
                let t1 = peers@.take(i + 1);
                assert(t1 =~= t0.push(p));
                assert forall|q: PeerId| #[trigger] t1.contains(q) == (t0.contains(q) || q == p) by {
                    if t0.contains(q) {
                        let k = choose|k: int| 0 <= k < t0.len() && t0[k] == q;
                        assert(t1[k] == q);
                    }
                    if q == p {
                        assert(t1[i as int] == q);
                    }
                    if t1.contains(q) {
                        let k = choose|k: int| 0 <= k < t1.len() && t1[k] == q;
                        if k < i {
                            assert(t0[k] == q);
                        }
                    }
                }
            }
            i = i + 1;
        }
        assert(peers@.take(peers@.len() as int) =~= peers@);
    }

    /// Restores the eager degree: grafts lazy peers up to `MIN_EAGER_DEGREE`, or prunes
    /// eager peers down to `MAX_EAGER_DEGREE`.
    pub fn maintain_degree(&mut self)
        requires
            old(self).wf(),
        ensures
            final(self).wf(),
            forall|q: PeerId|
                #![trigger final(self).view().eager.contains(q)] #![trigger final(self).view().lazy.contains(q)] (final(self).view().eager.contains(q) || final(self).view().lazy.contains(q))
                    == (old(self).view().eager.contains(q) || old(self).view().lazy.contains(q)),
            old(self).view().eager.len() < MIN_EAGER_DEGREE ==> {
                &&& forall|q: PeerId| old(self).view().eager.contains(q) ==> #[trigger] final(self).view().eager.contains(q)
                &&& final(self).view().eager.len() <= MIN_EAGER_DEGREE
                &&& final(self).view().eager.len() < MIN_EAGER_DEGREE ==> final(self).view().lazy.len() == 0
            },
            old(self).view().eager.len() > MAX_EAGER_DEGREE ==> {
                &&& forall|q: PeerId| #[trigger] final(self).view().eager.contains(q) ==> old(self).view().eager.contains(q)
                &&& final(self).view().eager.len() == MAX_EAGER_DEGREE
            },
            MIN_EAGER_DEGREE <= old(self).view().eager.len() <= MAX_EAGER_DEGREE ==> final(self).view() == old(self).view(),
            final(self).view().cached == old(self).view().cached,
            final(self).view().pending == old(self).view().pending,
            final(self).view().wants == old(self).view().wants,
            final(self).view().topic == old(self).view().topic,
    {
        let ghost e0 = self.eager@;
        let ghost l0 = self.lazy@;
        if self.eager.len() < MIN_EAGER_DEGREE {
            while self.eager.len() < MIN_EAGER_DEGREE && self.lazy.len() > 0
                invariant
                    self.wf(),
                    self.view().cached == old(self).view().cached,
                    self.view().pending == old(self).view().pending,
                    self.view().wants == old(self).view().wants,
                    self.view().topic == old(self).view().topic,
                    self.eager@.len() <= MIN_EAGER_DEGREE,
                    forall|q: PeerId| #![trigger self.eager@.contains(q)] #![trigger self.lazy@.contains(q)] (self.eager@.contains(q) || self.lazy@.contains(q)) == (e0.contains(q) || l0.contains(q)),
                    forall|q: PeerId| e0.contains(q) ==> #[trigger] self.eager@.contains(q),
                decreases self.lazy@.len(),
            {
                let q = self.lazy[0];
                proof {
                    crate::peers::lemma_remove_index(self.lazy@, 0);
                }
                self.lazy.remove(0);
                insert_peer(&mut self.eager, q);
            }
        } else if self.eager.len() > MAX_EAGER_DEGREE {
            while self.eager.len() > MAX_EAGER_DEGREE
                invariant
                    self.wf(),
                    self.view().cached == old(self).view().cached,
                    self.view().pending == old(self).view().pending,
                    self.view().wants == old(self).view().wants,
                    self.view().topic == old(self).view().topic,
                    self.eager@.len() >= MAX_EAGER_DEGREE,
                    forall|q: PeerId| #![trigger self.eager@.contains(q)] #![trigger self.lazy@.contains(q)] (self.eager@.contains(q) || self.lazy@.contains(q)) == (e0.contains(q) || l0.contains(q)),
                    forall|q: PeerId| #[trigger] self.eager@.contains(q) ==> e0.contains(q),
                decreases self.eager@.len(),
            {
                let q = self.eager[0];
                proof {
                    crate::peers::lemma_remove_index(self.eager@, 0);
                }
                self.eager.remove(0);
                insert_peer(&mut self.lazy, q);
            }
        }
    }
    fn store(&mut self, id: MessageId, payload: Vec<u8>, header: MessageHeader, now: u64)
        requires
            old(self).wf(),
            header.msg_id == id,
        ensures
            final(self).wf(),
            cache_stored(old(self).view().cached, final(self).view().cached, id, CachedView { payload: payload@, inserted_at: now, header }),
            final(self).view().eager == old(self).view().eager,
            final(self).view().lazy == old(self).view().lazy,
            final(self).view().pending == old(self).view().pending,
            final(self).view().wants == old(self).view().wants,
            final(self).view().topic == old(self).view().topic,
    {
        let ghost pv = payload@;
        cache_put(&mut self.cache, id, CachedMessage { payload, inserted_at: now, header });
        proof {
            let v = CachedView { payload: pv, inserted_at: now, header };
            let o = cache_entries(old(self).cache);
            let n = cache_entries(self.cache);
            if !(o.contains_key(id) || o.len() < MAX_CACHE_SIZE) {
                let e = choose|e: MessageId| o.contains_key(e) && n == o.remove(e).insert(id, v);
                assert(o.contains_key(e) && n == o.remove(e).insert(id, v));
            }
        }
    }

    fn push_pending(&mut self, id: MessageId)
        requires
            old(self).wf(),
        ensures
            final(self).wf(),
            final(self).view().pending == pending_pushed(old(self).view().pending, id),
            final(self).view().eager == old(self).view().eager,
            final(self).view().lazy == old(self).view().lazy,
            final(self).view().cached == old(self).view().cached,
            final(self).view().wants == old(self).view().wants,
            final(self).view().topic == old(self).view().topic,
    {
        if self.pending_ihave.len() >= MAX_PENDING_IHAVE {
            let ghost p0 = self.pending_ihave@;
            self.pending_ihave.remove(0);
            assert(self.pending_ihave@ =~= p0.subrange(1, p0.len() as int));
        }
        self.pending_ihave.push(id);
    }

    fn clear_want(&mut self, id: &MessageId)
        requires
            old(self).wf(),
        ensures
            final(self).wf(),
            forall|w: OutstandingIWant| #[trigger] final(self).view().wants.contains(w)
                == (old(self).view().wants.contains(w) && w.msg_id != *id),
            !is_wanted(final(self).view().wants, *id),
            final(self).view().pending == old(self).view().pending,
            final(self).view().eager == old(self).view().eager,
            final(self).view().lazy == old(self).view().lazy,
            final(self).view().cached == old(self).view().cached,
            final(self).view().topic == old(self).view().topic,
    {
        match self.want_position(id) {
            Some(i) => {
                let ghost w0 = self.outstanding@;
                self.outstanding.remove(i);
                proof {
                    let w1 = self.outstanding@;
                    assert(w1 =~= w0.remove(i as int));
                    assert forall|a: int, b: int| 0 <= a < b < w1.len() implies w1[a].msg_id != w1[b].msg_id by {
                        let a2 = if a < i { a } else { a + 1 };
                        let b2 = if b < i { b } else { b + 1 };
                        assert(w1[a] == w0[a2]);
                        assert(w1[b] == w0[b2]);
                    }
                    assert forall|w: OutstandingIWant| #[trigger] w1.contains(w) == (w0.contains(w) && w.msg_id != *id) by {
                        if w1.contains(w) {
                            let k = choose|k: int| 0 <= k < w1.len() && w1[k] == w;
                            let k2 = if k < i { k } else { k + 1 };
                            assert(w0[k2] == w);
                            if k2 < i {
                                assert(w0[k2].msg_id != w0[i as int].msg_id);
                            } else {
                                assert(w0[i as int].msg_id != w0[k2].msg_id);
                            }
                        }
                        if w0.contains(w) && w.msg_id != *id {
                            let k = choose|k: int| 0 <= k < w0.len() && w0[k] == w;
                            assert(k != i);
                            if k < i {
                                assert(w1[k] == w);
                            } else {
                                assert(w1[k - 1] == w);
                            }
                        }
                    }
                    if is_wanted(w1, *id) {
                        let k = choose|k: int| 0 <= k < w1.len() && (#[trigger] w1[k]).msg_id == *id;
                        let k2 = if k < i { k } else { k + 1 };
                        assert(w0[k2] == w1[k]);
                        if k2 < i {
                            assert(w0[k2].msg_id != w0[i as int].msg_id);
                        } else {
                            assert(w0[i as int].msg_id != w0[k2].msg_id);
                        }
                    }
                }
            },
            None => {
                assert forall|w: OutstandingIWant| #[trigger] self.outstanding@.contains(w) implies w.msg_id != *id by {
                    let k = choose|k: int| 0 <= k < self.outstanding@.len() && self.outstanding@[k] == w;
                }
            },
        }
    }

    /// Drops every cached message older than `CACHE_TTL_MS` at `now`.
    pub fn clean_cache(&mut self, now: u64)
        requires
            old(self).wf(),
        ensures
            final(self).wf(),
            forall|k: MessageId| #[trigger] final(self).view().cached.contains_key(k)
                == (old(self).view().cached.contains_key(k) && !cache_expired(old(self).view().cached[k].inserted_at, now)),
            forall|k: MessageId| #[trigger] final(self).view().cached.contains_key(k)
                ==> final(self).view().cached[k] == old(self).view().cached[k],
            final(self).view().eager == old(self).view().eager,
            final(self).view().lazy == old(self).view().lazy,
            final(self).view().pending == old(self).view().pending,
            final(self).view().wants == old(self).view().wants,
            final(self).view().topic == old(self).view().topic,
    {
        let ghost c0 = cache_entries(self.cache);
        let times = cache_insertion_times(&self.cache);
        let mut i: usize = 0;
        while i < times.len()
            invariant
                self.wf(),
                0 <= i <= times@.len(),
                self.view().eager == old(self).view().eager,
                self.view().lazy == old(self).view().lazy,
                self.view().pending == old(self).view().pending,
                self.view().wants == old(self).view().wants,
                self.view().topic == old(self).view().topic,
                forall|j: int| 0 <= j < times@.len() ==> c0.contains_key(#[trigger] times@[j].0)
                    && c0[times@[j].0].inserted_at == times@[j].1,
                forall|k: MessageId| #[trigger] cache_entries(self.cache).contains_key(k)
                    == (c0.contains_key(k) && !(exists|j: int| 0 <= j < i && times@[j].0 == k
                        && cache_expired(times@[j].1, now))),
                forall|k: MessageId| #[trigger] cache_entries(self.cache).contains_key(k)
                    ==> cache_entries(self.cache)[k] == c0[k],
            decreases times@.len() - i,
        {
            let (id, at) = times[i];
            if now >= at && now - at > CACHE_TTL_MS {
                cache_pop(&mut self.cache, &id);
            }
            proof {
                assert forall|k: MessageId| #[trigger] cache_entries(self.cache).contains_key(k)
                    == (c0.contains_key(k) && !(exists|j: int| 0 <= j < i + 1 && times@[j].0 == k
                        && cache_expired(times@[j].1, now))) by {
                    if exists|j: int| 0 <= j < i + 1 && times@[j].0 == k && cache_expired(times@[j].1, now) {
                        let j = choose|j: int| 0 <= j < i + 1 && times@[j].0 == k && cache_expired(times@[j].1, now);
                        if j < i {
                            assert(exists|j: int| 0 <= j < i && times@[j].0 == k && cache_expired(times@[j].1, now));
                        }
                    }
                }
            }
            i = i + 1;
        }
        proof {
            assert forall|k: MessageId| #[trigger] cache_entries(self.cache).contains_key(k)
                == (c0.contains_key(k) && !cache_expired(c0[k].inserted_at, now)) by {
                if c0.contains_key(k) {
                    let j = choose|j: int| 0 <= j < times@.len() && times@[j].0 == k;
                    assert(c0[times@[j].0].inserted_at == times@[j].1);
                }
            }
        }
    }
    fn push_eager_sends(
        out: &mut Vec<PubSubAction>,
        peers: &Vec<PeerId>,
        skip: Option<PeerId>,
        header: MessageHeader,
        payload: &Vec<u8>,
    )
        ensures
            actions_view(final(out)@) == actions_view(old(out)@) + eager_sends(peers@, skip, header, payload@),
    {
        let ghost o0 = out@;
        let mut i: usize = 0;
        while i < peers.len()
            invariant
                0 <= i <= peers@.len(),
                actions_view(out@) == actions_view(o0) + eager_sends(peers@.take(i as int), skip, header, payload@),
            decreases peers@.len() - i,
        {
            let p = peers[i];
            let ghost before = out@;
            assert(peers@.take(i + 1).drop_last() =~= peers@.take(i as int));
            assert(peers@.take(i + 1).last() == p);
            let skipped = match skip {
                Some(s) => s == p,
                None => false,
            };
            if !skipped {
                let copy = payload.clone();
                assert(copy@ =~= payload@);
                out.push(PubSubAction::SendEager { to: p, header, payload: copy });
                assert(actions_view(out@) =~= actions_view(before).push(Action::Eager { to: p, header, payload: payload@ }));
            }
            i = i + 1;
        }
        assert(peers@.take(peers@.len() as int) =~= peers@);
    }

    /// Publishes `payload` from the local peer `origin` at `now` (milliseconds since
    /// the Unix epoch): caches it, sends it EAGER to every eager peer, queues its id
    /// for IHAVE, and delivers it locally. The same payload published again by the
    /// same origin within the same second has the same id: it is a duplicate, and
    /// nothing changes or is sent.
    pub fn publish(&mut self, origin: PeerId, payload: Vec<u8>, now: u64) -> (r: Vec<PubSubAction>)
        requires
            old(self).wf(),
        ensures
            final(self).wf(),
            ({
                let o = old(self).view();
                let n = final(self).view();
                let id_bytes = message_id_of(o.topic, now / 1000, origin, payload@);
                exists|id: MessageId| {
                    &&& id@ == id_bytes
                    &&& o.cached.contains_key(id) ==> n == o && r@.len() == 0
                    &&& !o.cached.contains_key(id) ==> {
                        &&& cache_stored(o.cached, n.cached, id, CachedView { payload: payload@, inserted_at: now, header: publish_header(o.topic, id) })
                        &&& n.pending == pending_pushed(o.pending, id)
                        &&& actions_view(r@) == eager_sends(o.eager, None, publish_header(o.topic, id), payload@).push(
                            Action::Deliver { from: origin, topic: o.topic, payload: payload@ })
                    }
                }
            }),
            final(self).view().eager == old(self).view().eager,
            final(self).view().lazy == old(self).view().lazy,
            final(self).view().wants == old(self).view().wants,
            final(self).view().topic == old(self).view().topic,
    {
        let id = calculate_msg_id(&self.topic, now / 1000, &origin, payload.as_slice());
        if self.has_message(&id) {
            return Vec::new();
        }
        let header = MessageHeader {
            version: PROTOCOL_VERSION,
            topic: self.topic,
            msg_id: id,
            kind: MessageKind::Eager,
            hop: 0,
            ttl: DEFAULT_TTL,
        };
        let mut out: Vec<PubSubAction> = Vec::new();
        Self::push_eager_sends(&mut out, &self.eager, None, header, &payload);
        let local = payload.clone();
        assert(local@ =~= payload@);
        let ghost before = out@;
        out.push(PubSubAction::Deliver { from: origin, topic: self.topic, payload: local });
        assert(actions_view(out@) =~= actions_view(before).push(Action::Deliver { from: origin, topic: self.topic, payload: payload@ }));
        self.store(id, payload, header, now);
        self.push_pending(id);
        out
    }

    /// Handles an EAGER from `from`; `signature_valid` is the verifier's verdict on it.
    /// A duplicate prunes the sender and answers PRUNE; a new message is cached,
    /// delivered, forwarded one hop further to the other eager peers while its hop
    /// count is below its ttl, and queued for IHAVE; if it had been requested, the
    /// sender is grafted.
    pub fn handle_eager(
        &mut self,
        from: PeerId,
        message: GossipMessage,
        signature_valid: bool,
        now: u64,
    ) -> (r: Result<Vec<PubSubAction>, PubSubError>)
        requires
            old(self).wf(),
        ensures
            final(self).wf(),
            eager_handled(
                old(self).view(),
                final(self).view(),
                from,
                message.header,
                payload_view(message),
                signature_valid,
                now,
                result_view(r),
            ),
    {
        let id = message.header.msg_id;
        if !signature_valid {
            return Err(PubSubError::InvalidSignature);
        }
        if self.has_message(&id) {
            self.prune_peer(from);
            let mut out: Vec<PubSubAction> = Vec::new();
            out.push(PubSubAction::SendPrune { to: from, topic: self.topic, msg_id: id });
            assert(actions_view(out@) =~= seq![Action::Prune { to: from, topic: self.topic, msg_id: id }]);
            return Ok(out);
        }
        let payload = match message.payload {
            Some(p) => p,
            None => {
                return Err(PubSubError::MissingPayload);
            },
        };
        let header = message.header;
        let mut out: Vec<PubSubAction> = Vec::new();
        let local = payload.clone();
        assert(local@ =~= payload@);
        out.push(PubSubAction::Deliver { from, topic: self.topic, payload: local });
        assert(actions_view(out@) =~= seq![Action::Deliver { from, topic: self.topic, payload: payload@ }]);
        if header.hop < header.ttl {
            let fwd = MessageHeader { hop: header.hop + 1, ..header };
            Self::push_eager_sends(&mut out, &self.eager, Some(from), fwd, &payload);
        } else {
            assert(actions_view(out@) =~= actions_view(out@) + Seq::<Action>::empty());
        }
        let requested = self.is_requested(&id);
        self.store(id, payload, header, now);
        self.push_pending(id);
        self.clear_want(&id);
        if requested {
            self.graft_peer(from);
        }
        Ok(out)
    }

    fn note_advertiser(&mut self, from: PeerId, ids: &Vec<MessageId>)
        requires
            old(self).wf(),
        ensures
            final(self).wf(),
            final(self).outstanding@ == noted(old(self).outstanding@, ids@, from),
            final(self).view().cached == old(self).view().cached,
            final(self).view().eager == old(self).view().eager,
            final(self).view().lazy == old(self).view().lazy,
            final(self).view().pending == old(self).view().pending,
            final(self).view().topic == old(self).view().topic,
    {
        let ghost w0 = self.outstanding@;
        let mut i: usize = 0;
        while i < self.outstanding.len()
            invariant
                self.outstanding@.len() == w0.len(),
                0 <= i <= w0.len(),
                w0 == old(self).outstanding@,
                view_wf(old(self).view()),
                cache_bounded(self.cache),
                cache_capacity(self.cache) == MAX_CACHE_SIZE,
                self.view().cached == old(self).view().cached,
                self.view().eager == old(self).view().eager,
                self.view().lazy == old(self).view().lazy,
                self.view().pending == old(self).view().pending,
                self.view().topic == old(self).view().topic,
                forall|k: int| 0 <= k < i ==> #[trigger] self.outstanding@[k] == note_advert(w0[k], ids@, from),
                forall|k: int| i <= k < w0.len() ==> #[trigger] self.outstanding@[k] == w0[k],
            decreases w0.len() - i,
        {
            let w = self.outstanding[i];
            if !(w.peer == from) && contains_id(ids, &w.msg_id) {
                self.outstanding.set(i, OutstandingIWant { alternate: Some(from), ..w });
            }
            i = i + 1;
        }
        assert(self.outstanding@ =~= noted(w0, ids@, from));
        assert forall|a: int, b: int| 0 <= a < b < self.outstanding@.len()
            implies self.outstanding@[a].msg_id != self.outstanding@[b].msg_id by {
            assert(self.outstanding@[a].msg_id == w0[a].msg_id);
            assert(self.outstanding@[b].msg_id == w0[b].msg_id);
        }
    }

    /// Handles an IHAVE of `msg_ids` from `from` at `now`: requests, in one IWANT, every
    /// id neither cached nor already requested, while below the request cap.
    pub fn handle_ihave(&mut self, from: PeerId, msg_ids: &Vec<MessageId>, now: u64) -> (r: Vec<PubSubAction>)
        requires
            old(self).wf(),
        ensures
            final(self).wf(),
            ihave_handled(old(self).view(), final(self).view(), from, msg_ids@, now, actions_view(r@)),
    {
        self.note_advertiser(from, msg_ids);
        proof {
            lemma_iwant_ids_same(old(self).view().cached, self.outstanding@, old(self).outstanding@, msg_ids@);
        }
        let ghost w0 = self.outstanding@;
        let ghost c0 = self.view().cached;
        let mut req: Vec<MessageId> = Vec::new();
        let mut i: usize = 0;
        while i < msg_ids.len()
            invariant
                self.wf(),
                0 <= i <= msg_ids@.len(),
                self.view().cached == c0,
                self.view().eager == old(self).view().eager,
                self.view().lazy == old(self).view().lazy,
                self.view().pending == old(self).view().pending,
                self.view().topic == old(self).view().topic,
                req@ == iwant_ids(c0, w0, msg_ids@.take(i as int)),
                self.outstanding@ == w0 + want_records(req@, from, now),
            decreases msg_ids@.len() - i,
        {
            let q = msg_ids[i];
            assert(msg_ids@.take(i + 1).drop_last() =~= msg_ids@.take(i as int));
            assert(msg_ids@.take(i + 1).last() == q);
            proof {
                lemma_wanted_concat(w0, req@, from, now, q);
            }
            if !self.has_message(&q) && !self.is_requested(&q)
                && self.outstanding.len() < MAX_OUTSTANDING_IWANTS {
                let ghost wb = self.outstanding@;
                let ghost req0 = req@;
                let rec = OutstandingIWant { msg_id: q, peer: from, issued_at: now, retries: 0, alternate: None };
                self.outstanding.push(rec);
                req.push(q);
                proof {
                    assert(want_records(req@, from, now) =~= want_records(req0, from, now).push(rec)) by {
                        assert(req@ == req0.push(q));
                    };
                    assert(self.outstanding@ =~= w0 + want_records(req@, from, now));
                    assert forall|a: int, b: int| 0 <= a < b < self.outstanding@.len()
                        implies self.outstanding@[a].msg_id != self.outstanding@[b].msg_id by {
                        if b == wb.len() {
                            assert(wb[a] == self.outstanding@[a]);
                        }
                    }
                }
            }
            i = i + 1;
        }
        assert(msg_ids@.take(msg_ids@.len() as int) =~= msg_ids@);
        let mut out: Vec<PubSubAction> = Vec::new();
        if req.len() > 0 {
            let ghost rv = req@;
            out.push(PubSubAction::SendIWant { to: from, topic: self.topic, msg_ids: req });
            assert(actions_view(out@) =~= seq![Action::IWant { to: from, topic: self.topic, msg_ids: rv }]);
        } else {
            assert(actions_view(out@) =~= Seq::<Action>::empty());
        }
        out
    }

    /// The IWANT retry tick at `now`: every request older than `IWANT_TIMEOUT_MS` is
    /// re-sent to the other peer that advertised its id, while retries remain, and
    /// given up otherwise.
    pub fn retry_iwants(&mut self, now: u64) -> (r: Vec<PubSubAction>)
        requires
            old(self).wf(),
        ensures
            final(self).wf(),
            final(self).view().wants == retried(old(self).view().wants, now),
            actions_view(r@) == retry_requests(old(self).view().wants, old(self).view().topic, now),
            final(self).view().cached == old(self).view().cached,
            final(self).view().eager == old(self).view().eager,
            final(self).view().lazy == old(self).view().lazy,
            final(self).view().pending == old(self).view().pending,
            final(self).view().topic == old(self).view().topic,
    {
        let ghost w0 = self.outstanding@;
        let mut kept: Vec<OutstandingIWant> = Vec::new();
        let mut out: Vec<PubSubAction> = Vec::new();
        let mut i: usize = 0;
        while i < self.outstanding.len()
            invariant
                self.outstanding@ == w0,
                w0 == old(self).outstanding@,
                *self == *old(self),
                wants_unique(w0),
                0 <= i <= w0.len(),
                kept@ == retried(w0.take(i as int), now),
                actions_view(out@) == retry_requests(w0.take(i as int), self.topic, now),
                kept@.len() <= i,
                wants_unique(kept@),
                forall|j: int| 0 <= j < kept@.len() ==> exists|k: int| 0 <= k < i && (#[trigger] kept@[j]).msg_id == w0[k].msg_id,
            decreases w0.len() - i,
        {
            let w = self.outstanding[i];
            let ghost kb = kept@;
            let ghost ob = out@;
            assert(w0.take(i + 1).drop_last() =~= w0.take(i as int));
            assert(w0.take(i + 1).last() == w);
            assert forall|j: int| 0 <= j < kb.len() implies kb[j].msg_id != w.msg_id by {
                let k = choose|k: int| 0 <= k < i && (#[trigger] kb[j]).msg_id == w0[k].msg_id;
                assert(w0[k].msg_id != w0[i as int].msg_id);
            }
            if now >= w.issued_at && now - w.issued_at > IWANT_TIMEOUT_MS {
                match w.alternate {
                    Some(alt) => {
                        if w.retries < MAX_IWANT_RETRIES {
                            let nw = OutstandingIWant {
                                msg_id: w.msg_id,
                                peer: alt,
                                issued_at: now,
                                retries: w.retries + 1,
                                alternate: None,
                            };
                            kept.push(nw);
                            let mut ids: Vec<MessageId> = Vec::new();
                            ids.push(w.msg_id);
                            let ghost idv = ids@;
                            out.push(PubSubAction::SendIWant { to: alt, topic: self.topic, msg_ids: ids });
                            assert(idv =~= seq![w.msg_id]);
                            assert(actions_view(out@) =~= actions_view(ob).push(Action::IWant { to: alt, topic: self.topic, msg_ids: seq![w.msg_id] }));
                            assert(kept@ == kb.push(nw));
                        }
                    },
                    None => {},
                }
            } else {
                kept.push(w);
                assert(kept@ == kb.push(w));
            }
            proof {
                assert forall|a: int, b: int| 0 <= a < b < kept@.len() implies kept@[a].msg_id != kept@[b].msg_id by {
                    if b < kb.len() {
                        assert(kept@[a] == kb[a]);
                        assert(kept@[b] == kb[b]);
                    } else {
                        assert(kept@[a] == kb[a]);
                    }
                }
                assert forall|j: int| 0 <= j < kept@.len() implies exists|k: int| 0 <= k < i + 1 && (#[trigger] kept@[j]).msg_id == w0[k].msg_id by {
                    if j < kb.len() {
                        assert(kept@[j] == kb[j]);
                        let k = choose|k: int| 0 <= k < i && (#[trigger] kb[j]).msg_id == w0[k].msg_id;
                        assert(0 <= k < i + 1 && kept@[j].msg_id == w0[k].msg_id);
                    } else {
                        assert(kept@[j].msg_id == w0[i as int].msg_id);
                    }
                }
            }
            i = i + 1;
        }
        assert(w0.take(w0.len() as int) =~= w0);
        self.outstanding = kept;
        out
    }

    /// Handles a failed EAGER send of `header`/`payload` to `peer`: the peer leaves the
    /// eager peers, and the message is sent once more to the first lazy peer, if any.
    pub fn handle_send_failure(&mut self, peer: PeerId, header: MessageHeader, payload: Vec<u8>) -> (r: Vec<PubSubAction>)
        requires
            old(self).wf(),
        ensures
            final(self).wf(),
            ({
                let o = old(self).view();
                let n = final(self).view();
                &&& forall|q: PeerId| #[trigger] n.eager.contains(q) == (o.eager.contains(q) && q != peer)
                &&& n.lazy == o.lazy
                &&& actions_view(r@) == if o.lazy.len() > 0 {
                    seq![Action::Eager { to: o.lazy[0], header, payload: payload@ }]
                } else {
                    Seq::empty()
                }
                &&& n.cached == o.cached && n.pending == o.pending && n.wants == o.wants && n.topic == o.topic
            }),
    {
        remove_peer(&mut self.eager, &peer);
        proof {
            assert forall|p: PeerId| self.eager@.contains(p) implies !self.lazy@.contains(p) by {
                assert(old(self).eager@.contains(p));
            }
        }
        let mut out: Vec<PubSubAction> = Vec::new();
        if self.lazy.len() > 0 {
            let ghost pv = payload@;
            out.push(PubSubAction::SendEager { to: self.lazy[0], header, payload });
            assert(actions_view(out@) =~= seq![Action::Eager { to: self.lazy@[0], header, payload: pv }]);
        } else {
            assert(actions_view(out@) =~= Seq::<Action>::empty());
        }
        out
    }

    /// Handles an IWANT of `msg_ids` from `from`: sends back an EAGER for each cached
    /// id, and grafts `from` when it asked for at least one.
    pub fn handle_iwant(&mut self, from: PeerId, msg_ids: &Vec<MessageId>) -> (r: Vec<PubSubAction>)
        requires
            old(self).wf(),
        ensures
            final(self).wf(),
            iwant_handled(old(self).view(), final(self).view(), from, msg_ids@, actions_view(r@)),
    {
        let ghost c0 = self.view().cached;
        let mut out: Vec<PubSubAction> = Vec::new();
        let mut found = false;
        let mut i: usize = 0;
        while i < msg_ids.len()
            invariant
                self.wf(),
                0 <= i <= msg_ids@.len(),
                self.view() == old(self).view(),
                c0 == old(self).view().cached,
                actions_view(out@) == iwant_replies(c0, msg_ids@.take(i as int), from),
                found == exists|k: int| 0 <= k < i && c0.contains_key(#[trigger] msg_ids@[k]),
            decreases msg_ids@.len() - i,
        {
            let q = msg_ids[i];
            assert(msg_ids@.take(i + 1).drop_last() =~= msg_ids@.take(i as int));
            assert(msg_ids@.take(i + 1).last() == q);
            let ghost before = out@;
            match cache_get(&mut self.cache, &q) {
                Some(m) => {
                    let ghost mv = m.view();
                    out.push(PubSubAction::SendEager { to: from, header: m.header, payload: m.payload });
                    assert(actions_view(out@) =~= actions_view(before).push(Action::Eager { to: from, header: mv.header, payload: mv.payload }));
                    found = true;
                },
                None => {},
            }
            i = i + 1;
        }
        assert(msg_ids@.take(msg_ids@.len() as int) =~= msg_ids@);
        if found {
            self.graft_peer(from);
        }
        out
    }

    /// Handles a PRUNE from `from`: it becomes lazy.
    pub fn handle_prune(&mut self, from: PeerId)
        requires
            old(self).wf(),
        ensures
            final(self).wf(),
            moved_to_lazy(old(self).view().eager, old(self).view().lazy, from, final(self).view().eager, final(self).view().lazy),
            final(self).view().cached == old(self).view().cached,
            final(self).view().pending == old(self).view().pending,
            final(self).view().wants == old(self).view().wants,
            final(self).view().topic == old(self).view().topic,
    {
        self.prune_peer(from);
    }

    /// Handles a GRAFT of `msg_id` from `from`: it becomes eager, and receives the
    /// message when it is cached.
    pub fn handle_graft(&mut self, from: PeerId, msg_id: &MessageId) -> (r: Vec<PubSubAction>)
        requires
            old(self).wf(),
        ensures
            final(self).wf(),
            ({
                let o = old(self).view();
                let n = final(self).view();
                &&& moved_to_eager(o.eager, o.lazy, from, n.eager, n.lazy)
                &&& actions_view(r@) == if o.cached.contains_key(*msg_id) {
                    seq![Action::Eager { to: from, header: o.cached[*msg_id].header, payload: o.cached[*msg_id].payload }]
                } else {
                    Seq::empty()
                }
                &&& n.cached == o.cached && n.pending == o.pending && n.wants == o.wants && n.topic == o.topic
            }),
    {
        self.graft_peer(from);
        let mut out: Vec<PubSubAction> = Vec::new();
        match cache_get(&mut self.cache, msg_id) {
            Some(m) => {
                let ghost mv = m.view();
                out.push(PubSubAction::SendEager { to: from, header: m.header, payload: m.payload });
                assert(actions_view(out@) =~= seq![Action::Eager { to: from, header: mv.header, payload: mv.payload }]);
            },
            None => {
                assert(actions_view(out@) =~= Seq::<Action>::empty());
            },
        }
        out
    }

    /// Flushes the IHAVE batch: takes up to `MAX_IHAVE_BATCH_SIZE` ids from the front of
    /// the pending queue and advertises them, in one IHAVE, to every lazy peer.
    pub fn flush_ihave(&mut self) -> (r: Vec<PubSubAction>)
        requires
            old(self).wf(),
        ensures
            final(self).wf(),
            ({
                let o = old(self).view();
                let n = final(self).view();
                let k = if o.pending.len() < MAX_IHAVE_BATCH_SIZE { o.pending.len() as int } else { MAX_IHAVE_BATCH_SIZE as int };
                let batch = o.pending.take(k);
                &&& n.pending == o.pending.skip(k)
                &&& actions_view(r@) == if k > 0 {
                    Seq::new(o.lazy.len(), |i: int| Action::IHave { to: o.lazy[i], topic: o.topic, msg_ids: batch })
                } else {
                    Seq::empty()
                }
                &&& n.eager == o.eager && n.lazy == o.lazy && n.cached == o.cached && n.wants == o.wants && n.topic == o.topic
            }),
    {
        let k = if self.pending_ihave.len() < MAX_IHAVE_BATCH_SIZE {
            self.pending_ihave.len()
        } else {
            MAX_IHAVE_BATCH_SIZE
        };
        let ghost p0 = self.pending_ihave@;
        let mut batch: Vec<MessageId> = Vec::new();
        let mut i: usize = 0;
        while i < k
            invariant
                k <= self.pending_ihave@.len(),
                0 <= i <= k,
                batch@ == self.pending_ihave@.take(i as int),
            decreases k - i,
        {
            batch.push(self.pending_ihave[i]);
            assert(self.pending_ihave@.take(i + 1) =~= self.pending_ihave@.take(i as int).push(self.pending_ihave@[i as int]));
            i = i + 1;
        }
        let rest = self.pending_ihave.split_off(k);
        self.pending_ihave = rest;
        assert(self.pending_ihave@ =~= p0.skip(k as int));
        let mut out: Vec<PubSubAction> = Vec::new();
        if k > 0 {
            let mut j: usize = 0;
            while j < self.lazy.len()
                invariant
                    self.wf(),
                    0 <= j <= self.lazy@.len(),
                    batch@ == p0.take(k as int),
                    actions_view(out@) == Seq::new(j as nat, |x: int| Action::IHave { to: self.lazy@[x], topic: self.topic, msg_ids: batch@ }),
                decreases self.lazy@.len() - j,
            {
                let ids = copy_ids(&batch);
                let ghost before = out@;
                out.push(PubSubAction::SendIHave { to: self.lazy[j], topic: self.topic, msg_ids: ids });
                assert(actions_view(out@) =~= actions_view(before).push(Action::IHave { to: self.lazy@[j as int], topic: self.topic, msg_ids: batch@ }));
                assert(actions_view(out@) =~= Seq::new((j + 1) as nat, |x: int| Action::IHave { to: self.lazy@[x], topic: self.topic, msg_ids: batch@ }));
                j = j + 1;
            }
        } else {
            assert(actions_view(out@) =~= Seq::<Action>::empty());
        }
        out
    }
}

/// Number of local deliveries in a list of actions.
pub open spec fn delivery_count(acts: Seq<Action>) -> nat
    decreases acts.len(),
{
    if acts.len() == 0 {
        0
    } else {
        delivery_count(acts.drop_last()) + if acts.last() is Deliver {
            1nat
        } else {
            0nat
        }
    }
}

/// Number of local deliveries an outcome asks for.
pub open spec fn outcome_deliveries(r: Result<Seq<Action>, PubSubError>) -> nat {
    match r {
        Ok(acts) => delivery_count(acts),
        Err(_) => 0,
    }
}

proof fn lemma_single_count(x: Action)
    ensures
        delivery_count(seq![x]) == if x is Deliver { 1nat } else { 0nat },
{
    assert(seq![x].drop_last() =~= Seq::<Action>::empty());
    assert(delivery_count(Seq::<Action>::empty()) == 0);
    assert(seq![x].last() == x);
}

proof fn lemma_count_concat(a: Seq<Action>, b: Seq<Action>)
    ensures
        delivery_count(a + b) == delivery_count(a) + delivery_count(b),
    decreases b.len(),
{
    if b.len() > 0 {
        assert((a + b).drop_last() =~= a + b.drop_last());
        lemma_count_concat(a, b.drop_last());
    } else {
        assert(a + b =~= a);
    }
}

proof fn lemma_sends_deliver_nothing(peers: Seq<PeerId>, skip: Option<PeerId>, h: MessageHeader, p: Seq<u8>)
    ensures
        delivery_count(eager_sends(peers, skip, h, p)) == 0,
    decreases peers.len(),
{
    if peers.len() > 0 {
        lemma_sends_deliver_nothing(peers.drop_last(), skip, h, p);
        let r = eager_sends(peers.drop_last(), skip, h, p);
        if skip != Some(peers.last()) {
            assert(r.push(Action::Eager { to: peers.last(), header: h, payload: p }).drop_last() =~= r);
        }
    }
}

/// In a well-formed topic no peer is both eager and lazy.
pub proof fn lemma_eager_lazy_disjoint(v: TopicView, p: PeerId)
    requires
        view_wf(v),
    ensures
        !(v.eager.contains(p) && v.lazy.contains(p)),
{
}

/// Receiving the same EAGER twice delivers it at most once. When the first copy is
/// new, valid and carries its payload, it is delivered exactly once, and a valid
/// second copy is answered with exactly one PRUNE to its sender.
pub proof fn lemma_duplicate_eager(
    o: TopicView,
    n1: TopicView,
    n2: TopicView,
    from1: PeerId,
    from2: PeerId,
    h1: MessageHeader,
    h2: MessageHeader,
    p1: Option<Seq<u8>>,
    p2: Option<Seq<u8>>,
    valid1: bool,
    valid2: bool,
    now1: u64,
    now2: u64,
    r1: Result<Seq<Action>, PubSubError>,
    r2: Result<Seq<Action>, PubSubError>,
)
    requires
        eager_handled(o, n1, from1, h1, p1, valid1, now1, r1),
        eager_handled(n1, n2, from2, h2, p2, valid2, now2, r2),
        h1.msg_id == h2.msg_id,
    ensures
        outcome_deliveries(r1) + outcome_deliveries(r2) <= 1,
        valid1 && p1 is Some && !o.cached.contains_key(h1.msg_id) ==> outcome_deliveries(r1) == 1,
        outcome_deliveries(r1) == 1 && valid2 ==> r2 == Ok::<Seq<Action>, PubSubError>(
            seq![Action::Prune { to: from2, topic: o.topic, msg_id: h1.msg_id }],
        ),
{
    lemma_eager_outcome_count(o, n1, from1, h1, p1, valid1, now1, r1);
    lemma_eager_outcome_count(n1, n2, from2, h2, p2, valid2, now2, r2);
    if outcome_deliveries(r1) == 1 {
        assert(n1.cached.contains_key(h1.msg_id));
    }
}

proof fn lemma_eager_outcome_count(
    o: TopicView,
    n: TopicView,
    from: PeerId,
    h: MessageHeader,
    payload: Option<Seq<u8>>,
    valid: bool,
    now: u64,
    r: Result<Seq<Action>, PubSubError>,
)
    requires
        eager_handled(o, n, from, h, payload, valid, now, r),
    ensures
        outcome_deliveries(r) <= 1,
        valid && payload is Some && !o.cached.contains_key(h.msg_id) ==> outcome_deliveries(r) == 1
            && n.cached.contains_key(h.msg_id),
        o.cached.contains_key(h.msg_id) ==> outcome_deliveries(r) == 0 && n.cached.contains_key(h.msg_id),
        outcome_deliveries(r) == 0 && !valid ==> n == o,
{
    let id = h.msg_id;
    lemma_single_count(Action::Prune { to: from, topic: o.topic, msg_id: id });
    if valid && !o.cached.contains_key(id) && payload is Some {
        let p = payload->Some_0;
        let d = seq![Action::Deliver { from, topic: o.topic, payload: p }];
        lemma_single_count(Action::Deliver { from, topic: o.topic, payload: p });
        if h.hop < h.ttl {
            lemma_sends_deliver_nothing(o.eager, Some(from), forwarded_header(h), p);
            lemma_count_concat(d, eager_sends(o.eager, Some(from), forwarded_header(h), p));
        } else {
            assert(d + Seq::<Action>::empty() =~= d);
        }
        assert(n.cached.contains_key(id));
    }
}

/// An IHAVE for a missing id, the IWANT it triggers and the EAGER that answers it
/// recover the payload: it is delivered, cached, and a later IHAVE of the same id
/// requests nothing. Each side grafts the other if it was lazy.
pub proof fn lemma_pull_round_trip(
    c0: TopicView,
    c1: TopicView,
    c2: TopicView,
    a0: TopicView,
    a1: TopicView,
    a: PeerId,
    c: PeerId,
    id: MessageId,
    now1: u64,
    now2: u64,
    acts1: Seq<Action>,
    acts2: Seq<Action>,
    r3: Result<Seq<Action>, PubSubError>,
)
    requires
        view_wf(c0),
        view_wf(a0),
        a0.topic == c0.topic,
        !c0.cached.contains_key(id),
        !is_wanted(c0.wants, id),
        c0.wants.len() < MAX_OUTSTANDING_IWANTS,
        a0.cached.contains_key(id),
        ihave_handled(c0, c1, a, seq![id], now1, acts1),
        iwant_handled(a0, a1, c, seq![id], acts2),
        eager_handled(c1, c2, a, a0.cached[id].header, Some(a0.cached[id].payload), true, now2, r3),
    ensures
        acts1 == seq![Action::IWant { to: a, topic: c0.topic, msg_ids: seq![id] }],
        acts2 == seq![Action::Eager { to: c, header: a0.cached[id].header, payload: a0.cached[id].payload }],
        r3 is Ok && r3->Ok_0.len() > 0 && r3->Ok_0[0] == (Action::Deliver {
            from: a,
            topic: c0.topic,
            payload: a0.cached[id].payload,
        }),
        c2.cached.contains_key(id),
        iwant_ids(c2.cached, c2.wants, seq![id]) == Seq::<MessageId>::empty(),
        c1.lazy.contains(a) ==> c2.eager.contains(a),
        a0.lazy.contains(c) ==> a1.eager.contains(c),
{
    let ids = seq![id];
    assert(ids.drop_last() =~= Seq::<MessageId>::empty());
    assert(ids.last() == id);
    assert(iwant_ids(c0.cached, c0.wants, Seq::<MessageId>::empty()) == Seq::<MessageId>::empty());
    assert(iwant_ids(c0.cached, c0.wants, ids) =~= seq![id]);
    assert(iwant_replies(a0.cached, Seq::<MessageId>::empty(), c) == Seq::<Action>::empty());
    assert(iwant_replies(a0.cached, ids, c) =~= seq![Action::Eager { to: c, header: a0.cached[id].header, payload: a0.cached[id].payload }]);
    assert(a0.cached[id].header.msg_id == id);
    assert(ids[0] == id);
    let rec = OutstandingIWant { msg_id: id, peer: a, issued_at: now1, retries: 0, alternate: None };
    assert(want_records(seq![id], a, now1) =~= seq![rec]);
    assert(c1.wants[c0.wants.len() as int] == rec);
    assert(is_wanted(c1.wants, id));
    let p = a0.cached[id].payload;
    let d = seq![Action::Deliver { from: a, topic: c1.topic, payload: p }];
    let fwd = if a0.cached[id].header.hop < a0.cached[id].header.ttl {
        eager_sends(c1.eager, Some(a), forwarded_header(a0.cached[id].header), p)
    } else {
        Seq::empty()
    };
    assert((d + fwd)[0] == d[0]);
    assert(c2.cached.contains_key(id));
    assert(iwant_ids(c2.cached, c2.wants, Seq::<MessageId>::empty()) == Seq::<MessageId>::empty());
}

/// An IWANT for ids that are all cached is answered with one EAGER per id, in order,
/// each carrying that id's cached header (whose message id is the requested id) and
/// payload.
pub proof fn lemma_iwant_answers_every_cached_id(v: TopicView, ids: Seq<MessageId>, to: PeerId)
    requires
        view_wf(v),
        forall|k: int| 0 <= k < ids.len() ==> v.cached.contains_key(#[trigger] ids[k]),
    ensures
        iwant_replies(v.cached, ids, to).len() == ids.len(),
        forall|k: int| 0 <= k < ids.len() ==> {
            &&& #[trigger] iwant_replies(v.cached, ids, to)[k] == (Action::Eager {
                to,
                header: v.cached[ids[k]].header,
                payload: v.cached[ids[k]].payload,
            })
            &&& v.cached[ids[k]].header.msg_id == ids[k]
        },
    decreases ids.len(),
{
    if ids.len() > 0 {
        let prev = ids.drop_last();
        assert forall|k: int| 0 <= k < prev.len() implies v.cached.contains_key(#[trigger] prev[k]) by {
            assert(prev[k] == ids[k]);
        }
        lemma_iwant_answers_every_cached_id(v, prev, to);
        assert(v.cached.contains_key(ids[ids.len() - 1]));
        assert forall|k: int| 0 <= k < ids.len() implies {
            &&& #[trigger] iwant_replies(v.cached, ids, to)[k] == (Action::Eager {
                to,
                header: v.cached[ids[k]].header,
                payload: v.cached[ids[k]].payload,
            })
            &&& v.cached[ids[k]].header.msg_id == ids[k]
        } by {
            if k < prev.len() {
                assert(prev[k] == ids[k]);
            }
        }
    }
}

} // verus!
