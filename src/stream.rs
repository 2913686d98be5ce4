use vstd::prelude::*;

use crate::frame::{slice_model, FrameError, SliceModel, VFrame};
use crate::integrity::{strong_tail_hash, xxh3_of};

verus! {

/// Where a stream stands in its life.
#[derive(Copy, Clone, Debug, PartialEq, Eq, Structural)]
pub enum StreamPhase {
    AwaitingHead,
    Accumulating,
    Completed,
    Failed,
}

/// The state of one stream as a mathematical value.
pub struct StreamModel {
    pub phase: StreamPhase,
    pub total_len: u64,
    pub strong_hash: Option<u64>,
    pub bytes: Seq<u8>,
    pub last_seq: u64,
}

/// The state the reassembler keeps for one stream.
pub struct StreamState {
    pub stream_id: u32,
    pub expected_total_len: u64,
    pub announced_weak_hash: u128,
    pub announced_strong_hash: Option<u64>,
    pub accumulated: Vec<u8>,
    pub last_seq: u64,
    pub direction: u8,
    pub phase: StreamPhase,
}

impl View for StreamState {
    type V = StreamModel;

    open spec fn view(&self) -> StreamModel {
        StreamModel {
            phase: self.phase,
            total_len: self.expected_total_len,
            strong_hash: self.announced_strong_hash,
            bytes: self.accumulated@,
            last_seq: self.last_seq,
        }
    }
}

/// The bytes a stream hands over, or why it does not.
pub open spec fn bytes_result(r: Result<Vec<u8>, FrameError>) -> Result<Seq<u8>, FrameError> {
    match r {
        Ok(v) => Ok(v@),
        Err(e) => Err(e),
    }
}

/// A stream that has failed: terminal, with its bytes discarded.
pub open spec fn failed(s: StreamModel) -> StreamModel {
    StreamModel { phase: StreamPhase::Failed, bytes: Seq::empty(), ..s }
}

/// A stream in a terminal phase takes no more frames.
pub open spec fn is_terminal(p: StreamPhase) -> bool {
    p == StreamPhase::Completed || p == StreamPhase::Failed
}

/// The HEAD frame (sequence number 0) opens a stream that awaits it.
pub open spec fn head_step(s: StreamModel, total_len: u64, strong_hash: Option<u64>) -> (
    StreamModel,
    Result<(), FrameError>,
) {
    match s.phase {
        StreamPhase::AwaitingHead => (
            StreamModel {
                phase: StreamPhase::Accumulating,
                total_len,
                strong_hash,
                bytes: Seq::empty(),
                last_seq: 0,
            },
            Ok(()),
        ),
        StreamPhase::Accumulating => (failed(s), Err(FrameError::OutOfOrder)),
        _ => (s, Err(FrameError::OutOfOrder)),
    }
}

/// An interior frame appends its payload; a HEART frame is one with an
/// empty payload. Its sequence number must exceed the last one accepted.
pub open spec fn data_step(s: StreamModel, seq: u64, payload: Seq<u8>) -> (
    StreamModel,
    Result<(), FrameError>,
) {
    match s.phase {
        StreamPhase::AwaitingHead => (failed(s), Err(FrameError::MissingHead)),
        StreamPhase::Accumulating => if seq <= s.last_seq {
            (failed(s), Err(FrameError::OutOfOrder))
        } else {
            (StreamModel { bytes: s.bytes + payload, last_seq: seq, ..s }, Ok(()))
        },
        _ => (s, Err(FrameError::OutOfOrder)),
    }
}

/// The TAIL frame completes the stream when the hash `computed` over the
/// accumulated bytes, and the hash the TAIL carries, are the one the HEAD
/// announced, and the byte count is the announced total.
pub open spec fn tail_step(s: StreamModel, seq: u64, tail_hash: u64, computed: u64) -> (
    StreamModel,
    Result<Seq<u8>, FrameError>,
) {
    match s.phase {
        StreamPhase::AwaitingHead => (failed(s), Err(FrameError::MissingHead)),
        StreamPhase::Accumulating => if seq <= s.last_seq {
            (failed(s), Err(FrameError::OutOfOrder))
        } else if s.strong_hash matches Some(h) && (computed != h || tail_hash != h) {
            (failed(s), Err(FrameError::StreamIntegrityMismatch))
        } else if s.bytes.len() != s.total_len {
            (failed(s), Err(FrameError::LengthMismatch))
        } else {
            (
                StreamModel {
                    phase: StreamPhase::Completed,
                    bytes: Seq::empty(),
                    last_seq: seq,
                    ..s
                },
                Ok(s.bytes),
            )
        },
        _ => (s, Err(FrameError::OutOfOrder)),
    }
}

/// In a stream that is accumulating, a frame is rejected as out of order
/// exactly when its sequence number does not exceed the last one accepted;
/// a frame that is accepted becomes the last one accepted.
pub proof fn lemma_out_of_order(s: StreamModel, seq: u64, payload: Seq<u8>)
    requires
        s.phase == StreamPhase::Accumulating,
    ensures
        data_step(s, seq, payload).1 == Err::<(), FrameError>(FrameError::OutOfOrder) <==> seq
            <= s.last_seq,
        data_step(s, seq, payload).1 is Ok <==> seq > s.last_seq,
        seq > s.last_seq ==> data_step(s, seq, payload).0.last_seq == seq,
{
}

impl StreamState {
    /// A stream that has seen nothing yet.
    pub fn new(stream_id: u32) -> (r: StreamState)
        ensures
            r.stream_id == stream_id,
            r@.phase == StreamPhase::AwaitingHead,
            r@.bytes.len() == 0,
            r@.last_seq == 0,
            r@.strong_hash is None,
            r@.total_len == 0,
    {
        StreamState {
            stream_id,
            expected_total_len: 0,
            announced_weak_hash: 0,
            announced_strong_hash: None,
            accumulated: Vec::new(),
            last_seq: 0,
            direction: 0,
            phase: StreamPhase::AwaitingHead,
        }
    }

    fn fail(&mut self)
        ensures
            final(self)@ == failed(old(self)@),
            final(self).stream_id == old(self).stream_id,
    {
        self.phase = StreamPhase::Failed;
        self.accumulated = Vec::new();
    }

    /// Takes the HEAD frame: the announced total length, the legacy weak
    /// hash, the strong hash if one is announced, and the direction.
    pub fn on_head(
        &mut self,
        total_len: u64,
        weak_hash: u128,
        strong_hash: Option<u64>,
        direction: u8,
    ) -> (r: Result<(), FrameError>)
        ensures
            (final(self)@, r) == head_step(old(self)@, total_len, strong_hash),
            final(self).stream_id == old(self).stream_id,
    {
        match self.phase {
            StreamPhase::AwaitingHead => {
                self.expected_total_len = total_len;
                self.announced_weak_hash = weak_hash;
                self.announced_strong_hash = strong_hash;
                self.direction = direction;
                self.accumulated = Vec::new();
                self.last_seq = 0;
                self.phase = StreamPhase::Accumulating;
                assert(self@.bytes =~= Seq::<u8>::empty());
                Ok(())
            },
            StreamPhase::Accumulating => {
                self.fail();
                Err(FrameError::OutOfOrder)
            },
            _ => Err(FrameError::OutOfOrder),
        }
    }

    /// Takes an interior frame with sequence number `seq`, appending its
    /// payload bytes.
    pub fn on_data(&mut self, seq: u64, payload: &[u8]) -> (r: Result<(), FrameError>)
        ensures
            (final(self)@, r) == data_step(old(self)@, seq, payload@),
            final(self).stream_id == old(self).stream_id,
    {
        match self.phase {
            StreamPhase::AwaitingHead => {
                self.fail();
                Err(FrameError::MissingHead)
            },
            StreamPhase::Accumulating => {
                if seq <= self.last_seq {
                    self.fail();
                    Err(FrameError::OutOfOrder)
                } else {
                    crate::bytes::push_bytes(&mut self.accumulated, payload);
                    self.last_seq = seq;
                    Ok(())
                }
            },
            _ => Err(FrameError::OutOfOrder),
        }
    }

    /// Takes a HEART frame: a liveness signal that moves the sequence number
    /// on and adds no bytes.
    pub fn on_heart(&mut self, seq: u64) -> (r: Result<(), FrameError>)
        ensures
            (final(self)@, r) == data_step(old(self)@, seq, Seq::empty()),
            final(self).stream_id == old(self).stream_id,
    {
        let none: [u8; 0] = [];
        let r = self.on_data(seq, none.as_slice());
        assert(none@ =~= Seq::<u8>::empty());
        r
    }

    /// Takes the TAIL frame, given the strong hash `computed` over the bytes
    /// accumulated so far. On success the stream is complete and its bytes
    /// are handed over.
    pub fn finish(&mut self, seq: u64, tail_hash: u64, computed: u64) -> (r: Result<
        Vec<u8>,
        FrameError,
    >)
        ensures
            (final(self)@, bytes_result(r)) == tail_step(
                old(self)@,
                seq,
                tail_hash,
                computed,
            ),
            final(self).stream_id == old(self).stream_id,
    {
        match self.phase {
            StreamPhase::AwaitingHead => {
                self.fail();
                Err(FrameError::MissingHead)
            },
            StreamPhase::Accumulating => {
                if seq <= self.last_seq {
                    self.fail();
                    return Err(FrameError::OutOfOrder);
                }
                match self.announced_strong_hash {
                    Some(h) => {
                        if computed != h || tail_hash != h {
                            self.fail();
                            return Err(FrameError::StreamIntegrityMismatch);
                        }
                    },
                    None => {},
                }
                if self.accumulated.len() as u64 != self.expected_total_len {
                    self.fail();
                    return Err(FrameError::LengthMismatch);
                }
                let mut out: Vec<u8> = Vec::new();
                std::mem::swap(&mut out, &mut self.accumulated);
                self.phase = StreamPhase::Completed;
                self.last_seq = seq;
                assert(self@.bytes =~= Seq::<u8>::empty());
                Ok(out)
            },
            _ => Err(FrameError::OutOfOrder),
        }
    }

    /// Takes the TAIL frame: computes the strong hash over the accumulated
    /// bytes and completes the stream as `finish` does.
    pub fn on_tail(&mut self, seq: u64, tail_hash: u64) -> (r: Result<Vec<u8>, FrameError>)
        ensures
            (final(self)@, bytes_result(r)) == tail_step(
                old(self)@,
                seq,
                tail_hash,
                xxh3_of(old(self)@.bytes),
            ),
            final(self).stream_id == old(self).stream_id,
    {
        let computed = strong_tail_hash(self.accumulated.as_slice());
        self.finish(seq, tail_hash, computed)
    }

    /// Abandons the stream, as on a peer's disconnect: it fails and its bytes
    /// are released.
    pub fn abandon(&mut self)
        ensures
            final(self)@ == failed(old(self)@),
            final(self).stream_id == old(self).stream_id,
    {
        self.fail();
    }
}


/// A stream that has seen nothing yet.
pub open spec fn fresh_stream() -> StreamModel {
    StreamModel {
        phase: StreamPhase::AwaitingHead,
        total_len: 0,
        strong_hash: None,
        bytes: Seq::empty(),
        last_seq: 0,
    }
}

/// The payloads of several frames, one after another.
pub open spec fn concat_all(ps: Seq<Seq<u8>>) -> Seq<u8>
    decreases ps.len(),
{
    if ps.len() == 0 {
        Seq::empty()
    } else {
        concat_all(ps.drop_last()) + ps.last()
    }
}

/// Feeds interior frames to a stream, the `i`-th of them (from 0) with
/// sequence number `i + 1`, stopping at the first error.
pub open spec fn feed(s: StreamModel, ps: Seq<Seq<u8>>) -> (StreamModel, Result<(), FrameError>)
    decreases ps.len(),
{
    if ps.len() == 0 {
        (s, Ok(()))
    } else {
        let prev = feed(s, ps.drop_last());
        if prev.1 is Err {
            prev
        } else {
            data_step(prev.0, ps.len() as u64, ps.last())
        }
    }
}

proof fn lemma_feed(s: StreamModel, ps: Seq<Seq<u8>>)
    requires
        s.phase == StreamPhase::Accumulating,
        s.last_seq == 0,
        ps.len() < u64::MAX,
    ensures
        feed(s, ps).1 is Ok,
        feed(s, ps).0 == (StreamModel { bytes: s.bytes + concat_all(ps), last_seq: ps.len() as u64, ..s }),
    decreases ps.len(),
{
    if ps.len() == 0 {
        assert(s.bytes + concat_all(ps) =~= s.bytes);
    } else {
        lemma_feed(s, ps.drop_last());
        assert(s.bytes + concat_all(ps.drop_last()) + ps.last() =~= s.bytes + concat_all(ps));
    }
}

/// A stream opened by a HEAD that announces `total_len` bytes with strong
/// hash `h`, then fed interior frames with rising sequence numbers, then a
/// TAIL carrying `h`: it completes and hands over exactly the concatenated
/// payloads when they hash to `h` and number `total_len` bytes, and it fails
/// with `StreamIntegrityMismatch` whenever their hash is not `h`.
pub proof fn lemma_stream_completion(total_len: u64, h: u64, ps: Seq<Seq<u8>>)
    requires
        ps.len() < u64::MAX,
    ensures
        ({
            let opened = head_step(fresh_stream(), total_len, Some(h));
            let fed = feed(opened.0, ps);
            let bytes = concat_all(ps);
            let done = tail_step(fed.0, (ps.len() + 1) as u64, h, xxh3_of(fed.0.bytes));
            &&& opened.1 is Ok
            &&& fed.1 is Ok
            &&& fed.0.bytes == bytes
            &&& (xxh3_of(bytes) == h && bytes.len() == total_len) ==> done.0.phase
                == StreamPhase::Completed && done.1 == Ok::<Seq<u8>, FrameError>(bytes)
            &&& xxh3_of(bytes) != h ==> done.0.phase == StreamPhase::Failed && done.1 == Err::<
                Seq<u8>,
                FrameError,
            >(FrameError::StreamIntegrityMismatch)
        }),
{
    let opened = head_step(fresh_stream(), total_len, Some(h));
    lemma_feed(opened.0, ps);
    assert(Seq::<u8>::empty() + concat_all(ps) =~= concat_all(ps));
}


/// A frame's part in a stream, as the reassembler sees it.
pub enum StreamEvent {
    /// HEAD (sequence number 0): the announced total length, legacy weak
    /// hash, strong hash if announced, and direction.
    Head { total_len: u64, weak_hash: u128, strong_hash: Option<u64>, direction: u8 },
    /// HEART: a frame with no slices, a liveness signal.
    Heart { seq: u64 },
    /// An interior frame with its payload bytes.
    Data { seq: u64, payload: Vec<u8> },
    /// TAIL: the terminal marker, with the strong hash it carries.
    Tail { seq: u64, tail_hash: u64 },
}

/// What one event does to a stream, and what comes of it: the completed
/// stream's bytes on a successful TAIL, nothing on other success.
pub open spec fn event_step(s: StreamModel, ev: StreamEvent) -> (
    StreamModel,
    Result<Option<Seq<u8>>, FrameError>,
) {
    match ev {
        StreamEvent::Head { total_len, strong_hash, .. } => {
            let (t, r) = head_step(s, total_len, strong_hash);
            (t, if r is Ok { Ok(None) } else { Err(r->Err_0) })
        },
        StreamEvent::Heart { seq } => {
            let (t, r) = data_step(s, seq, Seq::empty());
            (t, if r is Ok { Ok(None) } else { Err(r->Err_0) })
        },
        StreamEvent::Data { seq, payload } => {
            let (t, r) = data_step(s, seq, payload@);
            (t, if r is Ok { Ok(None) } else { Err(r->Err_0) })
        },
        StreamEvent::Tail { seq, tail_hash } => {
            let (t, r) = tail_step(s, seq, tail_hash, xxh3_of(s.bytes));
            (t, if r is Ok { Ok(Some(r->Ok_0)) } else { Err(r->Err_0) })
        },
    }
}

/// What an event hands over, or why it fails.
pub open spec fn opt_bytes_result(r: Result<Option<Vec<u8>>, FrameError>) -> Result<
    Option<Seq<u8>>,
    FrameError,
> {
    match r {
        Ok(Some(v)) => Ok(Some(v@)),
        Ok(None) => Ok(None),
        Err(e) => Err(e),
    }
}

impl StreamState {
    /// Takes one event.
    pub fn apply(&mut self, ev: &StreamEvent) -> (r: Result<Option<Vec<u8>>, FrameError>)
        ensures
            (final(self)@, opt_bytes_result(r)) == event_step(old(self)@, *ev),
            final(self).stream_id == old(self).stream_id,
    {
        match ev {
            StreamEvent::Head { total_len, weak_hash, strong_hash, direction } => {
                match self.on_head(*total_len, *weak_hash, *strong_hash, *direction) {
                    Ok(()) => Ok(None),
                    Err(e) => Err(e),
                }
            },
            StreamEvent::Heart { seq } => match self.on_heart(*seq) {
                Ok(()) => Ok(None),
                Err(e) => Err(e),
            },
            StreamEvent::Data { seq, payload } => match self.on_data(*seq, payload.as_slice()) {
                Ok(()) => Ok(None),
                Err(e) => Err(e),
            },
            StreamEvent::Tail { seq, tail_hash } => match self.on_tail(*seq, *tail_hash) {
                Ok(v) => Ok(Some(v)),
                Err(e) => Err(e),
            },
        }
    }
}

/// The state of one stream and the time it last took a frame.
pub struct StreamEntry {
    pub state: StreamState,
    pub last_activity: u64,
}

pub open spec fn entry_model(e: StreamEntry) -> (StreamModel, u64) {
    (e.state@, e.last_activity)
}

/// No two entries are for the same stream.
pub open spec fn unique_ids(es: Seq<StreamEntry>) -> bool {
    forall|i: int, j: int|
        0 <= i < es.len() && 0 <= j < es.len() && i != j ==> #[trigger] es[i].state.stream_id
            != #[trigger] es[j].state.stream_id
}

/// The streams held, by stream id.
pub open spec fn entries_map(es: Seq<StreamEntry>) -> Map<u32, (StreamModel, u64)> {
    Map::new(
        |id: u32| exists|i: int| 0 <= i < es.len() && es[i].state.stream_id == id,
        |id: u32|
            entry_model(
                es[choose|i: int| 0 <= i < es.len() && es[i].state.stream_id == id],
            ),
    )
}

proof fn lemma_entries_map_at(es: Seq<StreamEntry>, i: int)
    requires
        unique_ids(es),
        0 <= i < es.len(),
    ensures
        entries_map(es).contains_key(es[i].state.stream_id),
        entries_map(es)[es[i].state.stream_id] == entry_model(es[i]),
{
    let id = es[i].state.stream_id;
    assert(entries_map(es).dom().contains(id));
    let j = choose|j: int| 0 <= j < es.len() && es[j].state.stream_id == id;
    assert(i == j);
}

proof fn lemma_entries_map_update(es: Seq<StreamEntry>, k: int, e: StreamEntry)
    requires
        unique_ids(es),
        0 <= k < es.len(),
        e.state.stream_id == es[k].state.stream_id,
    ensures
        unique_ids(es.update(k, e)),
        entries_map(es.update(k, e)) == entries_map(es).insert(e.state.stream_id, entry_model(e)),
{
    let es2 = es.update(k, e);
    assert(unique_ids(es2)) by {
        assert forall|i: int, j: int|
            0 <= i < es2.len() && 0 <= j < es2.len() && i != j implies #[trigger] es2[i].state.stream_id
            != #[trigger] es2[j].state.stream_id by {
            assert(es[i].state.stream_id != es[j].state.stream_id);
        }
    }
    let m1 = entries_map(es2);
    let m2 = entries_map(es).insert(e.state.stream_id, entry_model(e));
    assert forall|id: u32| m1.contains_key(id) <==> m2.contains_key(id) by {
        if m1.contains_key(id) {
            let j = choose|j: int| 0 <= j < es2.len() && es2[j].state.stream_id == id;
            if j != k {
                assert(es[j].state.stream_id == id);
            }
        }
        if m2.contains_key(id) && id != e.state.stream_id {
            let j = choose|j: int| 0 <= j < es.len() && es[j].state.stream_id == id;
            assert(es2[j].state.stream_id == id);
        }
        if id == e.state.stream_id {
            assert(es2[k].state.stream_id == id);
        }
    }
    assert forall|id: u32| #[trigger] m1.contains_key(id) implies m1[id] == m2[id] by {
        let j = choose|j: int| 0 <= j < es2.len() && es2[j].state.stream_id == id;
        lemma_entries_map_at(es2, j);
        if j != k {
            lemma_entries_map_at(es, j);
        }
    }
    assert(m1 =~= m2);
}

proof fn lemma_entries_map_push(es: Seq<StreamEntry>, e: StreamEntry)
    requires
        unique_ids(es),
        !entries_map(es).contains_key(e.state.stream_id),
    ensures
        unique_ids(es.push(e)),
        entries_map(es.push(e)) == entries_map(es).insert(e.state.stream_id, entry_model(e)),
{
    let es2 = es.push(e);
    let n = es.len() as int;
    assert(unique_ids(es2)) by {
        assert forall|i: int, j: int|
            0 <= i < es2.len() && 0 <= j < es2.len() && i != j implies #[trigger] es2[i].state.stream_id
            != #[trigger] es2[j].state.stream_id by {
            if i < n && j < n {
                assert(es[i].state.stream_id != es[j].state.stream_id);
            } else if i < n {
                assert(es2[i] == es[i]);
            } else {
                assert(es2[j] == es[j]);
            }
        }
    }
    let m1 = entries_map(es2);
    let m2 = entries_map(es).insert(e.state.stream_id, entry_model(e));
    assert forall|id: u32| m1.contains_key(id) <==> m2.contains_key(id) by {
        if m1.contains_key(id) {
            let j = choose|j: int| 0 <= j < es2.len() && es2[j].state.stream_id == id;
            if j < n {
                assert(es[j].state.stream_id == id);
            }
        }
        if m2.contains_key(id) && id != e.state.stream_id {
            let j = choose|j: int| 0 <= j < es.len() && es[j].state.stream_id == id;
            assert(es2[j].state.stream_id == id);
        }
        if id == e.state.stream_id {
            assert(es2[n].state.stream_id == id);
        }
    }
    assert forall|id: u32| #[trigger] m1.contains_key(id) implies m1[id] == m2[id] by {
        let j = choose|j: int| 0 <= j < es2.len() && es2[j].state.stream_id == id;
        lemma_entries_map_at(es2, j);
        if j < n {
            assert(es2[j] == es[j]);
            lemma_entries_map_at(es, j);
        }
    }
    assert(m1 =~= m2);
}

proof fn lemma_entries_map_remove(es: Seq<StreamEntry>, k: int)
    requires
        unique_ids(es),
        0 <= k < es.len(),
    ensures
        unique_ids(es.remove(k)),
        entries_map(es.remove(k)) == entries_map(es).remove(es[k].state.stream_id),
{
    let es2 = es.remove(k);
    let gone = es[k].state.stream_id;
    assert(unique_ids(es2)) by {
        assert forall|i: int, j: int|
            0 <= i < es2.len() && 0 <= j < es2.len() && i != j implies #[trigger] es2[i].state.stream_id
            != #[trigger] es2[j].state.stream_id by {
            let a = if i < k { i } else { i + 1 };
            let b = if j < k { j } else { j + 1 };
            assert(es2[i] == es[a] && es2[j] == es[b]);
            assert(es[a].state.stream_id != es[b].state.stream_id);
        }
    }
    let m1 = entries_map(es2);
    let m2 = entries_map(es).remove(gone);
    assert forall|id: u32| m1.contains_key(id) <==> m2.contains_key(id) by {
        if m1.contains_key(id) {
            let j = choose|j: int| 0 <= j < es2.len() && es2[j].state.stream_id == id;
            let a = if j < k { j } else { j + 1 };
            assert(es2[j] == es[a]);
            assert(a != k);
            assert(es[a].state.stream_id != es[k].state.stream_id);
        }
        if m2.contains_key(id) {
            let j = choose|j: int| 0 <= j < es.len() && es[j].state.stream_id == id;
            assert(j != k);
            let b = if j < k { j } else { j - 1 };
            assert(es2[b] == es[j]);
        }
    }
    assert forall|id: u32| #[trigger] m1.contains_key(id) implies m1[id] == m2[id] by {
        let j = choose|j: int| 0 <= j < es2.len() && es2[j].state.stream_id == id;
        let a = if j < k { j } else { j + 1 };
        assert(es2[j] == es[a]);
        lemma_entries_map_at(es2, j);
        lemma_entries_map_at(es, a);
    }
    assert(m1 =~= m2);
}


/// A stream that last took a frame at `last` is idle at `now` when more
/// than `window` has passed since.
pub open spec fn idle(last: u64, now: u64, window: u64) -> bool {
    now >= last && now - last > window
}

/// The streams that survive an eviction sweep: those not idle.
pub open spec fn after_sweep(m: Map<u32, (StreamModel, u64)>, now: u64, window: u64) -> Map<
    u32,
    (StreamModel, u64),
> {
    Map::new(|id: u32| m.contains_key(id) && !idle(m[id].1, now, window), |id: u32| m[id])
}

/// What handling an event for stream `id` does to the streams held: the
/// stream (a fresh one if none is held) takes the event; it is then kept,
/// stamped with `now`, unless it has completed or failed, when it is
/// released.
pub open spec fn handle_step(
    m: Map<u32, (StreamModel, u64)>,
    id: u32,
    ev: StreamEvent,
    now: u64,
) -> (Map<u32, (StreamModel, u64)>, Result<Option<Seq<u8>>, FrameError>) {
    let s = if m.contains_key(id) {
        m[id].0
    } else {
        fresh_stream()
    };
    let (t, out) = event_step(s, ev);
    (
        if is_terminal(t.phase) {
            m.remove(id)
        } else {
            m.insert(id, (t, now))
        },
        out,
    )
}

/// The streams being reassembled, keyed by stream id.
pub struct Reassembler {
    entries: Vec<StreamEntry>,
}

impl View for Reassembler {
    type V = Map<u32, (StreamModel, u64)>;

    closed spec fn view(&self) -> Map<u32, (StreamModel, u64)> {
        entries_map(self.entries@)
    }
}

impl Reassembler {
    /// Each stream id is held at most once.
    pub closed spec fn wf(&self) -> bool {
        unique_ids(self.entries@)
    }

    pub fn new() -> (r: Reassembler)
        ensures
            r.wf(),
            r@ == Map::<u32, (StreamModel, u64)>::empty(),
    {
        let r = Reassembler { entries: Vec::new() };
        assert(r@ =~= Map::<u32, (StreamModel, u64)>::empty());
        r
    }

    fn find(&self, id: u32) -> (r: Option<usize>)
        requires
            self.wf(),
        ensures
            match r {
                Some(i) => i < self.entries@.len() && self.entries@[i as int].state.stream_id == id,
                None => !self@.contains_key(id),
            },
    {
        let mut i: usize = 0;
        while i < self.entries.len()
            invariant
                i <= self.entries@.len(),
                forall|j: int| 0 <= j < i ==> self.entries@[j].state.stream_id != id,
            decreases self.entries@.len() - i,
        {
            if self.entries[i].state.stream_id == id {
                return Some(i);
            }
            i = i + 1;
        }
        None
    }

    /// Whether a stream with this id is held.
    pub fn contains(&self, id: u32) -> (r: bool)
        requires
            self.wf(),
        ensures
            r == self@.contains_key(id),
    {
        match self.find(id) {
            Some(i) => {
                proof {
                    lemma_entries_map_at(self.entries@, i as int);
                }
                true
            },
            None => false,
        }
    }

    /// Routes an event to stream `stream_id` at time `now`. A stream that
    /// completes hands over its bytes; one that completes or fails is
    /// released; errors touch no other stream.
    pub fn handle(&mut self, stream_id: u32, ev: &StreamEvent, now: u64) -> (r: Result<
        Option<Vec<u8>>,
        FrameError,
    >)
        requires
            old(self).wf(),
        ensures
            final(self).wf(),
            (final(self)@, opt_bytes_result(r)) == handle_step(old(self)@, stream_id, *ev, now),
    {
        let ghost m = self@;
        let mut state = match self.find(stream_id) {
            Some(i) => {
                proof {
                    lemma_entries_map_at(self.entries@, i as int);
                    lemma_entries_map_remove(self.entries@, i as int);
                }
                let e = self.entries.remove(i);
                e.state
            },
            None => {
                let s = StreamState::new(stream_id);
                assert(s@.bytes =~= Seq::<u8>::empty());
                assert(self@.remove(stream_id) =~= self@);
                s
            },
        };
        assert(self@ == m.remove(stream_id));
        let r = state.apply(ev);
        if state.phase == StreamPhase::Completed || state.phase == StreamPhase::Failed {
            assert(self@ == m.remove(stream_id));
        } else {
            let e = StreamEntry { state, last_activity: now };
            proof {
                lemma_entries_map_push(self.entries@, e);
                assert(m.remove(stream_id).insert(stream_id, entry_model(e)) =~= m.insert(
                    stream_id,
                    entry_model(e),
                ));
            }
            self.entries.push(e);
        }
        r
    }

    /// Abandons stream `stream_id`, as on a peer's disconnect: its state and
    /// bytes are released.
    pub fn abandon(&mut self, stream_id: u32)
        requires
            old(self).wf(),
        ensures
            final(self).wf(),
            final(self)@ == old(self)@.remove(stream_id),
    {
        match self.find(stream_id) {
            Some(i) => {
                proof {
                    lemma_entries_map_remove(self.entries@, i as int);
                }
                let _ = self.entries.remove(i);
            },
            None => {
                assert(self@.remove(stream_id) =~= self@);
            },
        }
    }

    /// Releases every stream idle at `now` for longer than `window`, and
    /// returns their ids.
    pub fn evict_idle(&mut self, now: u64, window: u64) -> (evicted: Vec<u32>)
        requires
            old(self).wf(),
        ensures
            final(self).wf(),
            final(self)@ == after_sweep(old(self)@, now, window),
            forall|id: u32|
                #[trigger] evicted@.contains(id) <==> old(self)@.contains_key(id) && idle(
                    old(self)@[id].1,
                    now,
                    window,
                ),
    {
        let ghost m = self@;
        let mut rest: Vec<StreamEntry> = Vec::new();
        std::mem::swap(&mut rest, &mut self.entries);
        let mut evicted: Vec<u32> = Vec::new();
        assert(self@ =~= Map::<u32, (StreamModel, u64)>::empty());
        while rest.len() > 0
            invariant
                unique_ids(rest@),
                unique_ids(self.entries@),
                forall|id: u32| #[trigger]
                    entries_map(rest@).contains_key(id) ==> m.contains_key(id) && entries_map(
                        rest@,
                    )[id] == m[id],
                self@ == Map::new(
                    |id: u32|
                        m.contains_key(id) && !entries_map(rest@).contains_key(id) && !idle(
                            m[id].1,
                            now,
                            window,
                        ),
                    |id: u32| m[id],
                ),
                forall|id: u32| #[trigger]
                    evicted@.contains(id) <==> m.contains_key(id) && !entries_map(
                        rest@,
                    ).contains_key(id) && idle(m[id].1, now, window),
            decreases rest@.len(),
        {
            let ghost before = rest@;
            let ghost k = rest@.len() - 1;
            proof {
                lemma_entries_map_at(before, k);
                lemma_entries_map_remove(before, k);
                assert(before.remove(k) =~= before.drop_last());
            }
            let e = rest.pop().unwrap();
            let id = e.state.stream_id;
            assert(entries_map(rest@) == entries_map(before).remove(id));
            assert(m[id].1 == e.last_activity);
            if e.last_activity <= now && now - e.last_activity > window {
                let ghost ev_before = evicted@;
                evicted.push(id);
                assert forall|x: u32| #[trigger]
                    evicted@.contains(x) <==> m.contains_key(x) && !entries_map(
                        rest@,
                    ).contains_key(x) && idle(m[x].1, now, window) by {
                    if x != id {
                        assert(evicted@ == ev_before.push(id));
                        if evicted@.contains(x) {
                            let j = choose|j: int| 0 <= j < evicted@.len() && evicted@[j] == x;
                            assert(j < ev_before.len());
                            assert(ev_before[j] == x);
                        }
                        if ev_before.contains(x) {
                            let j = choose|j: int| 0 <= j < ev_before.len() && ev_before[j] == x;
                            assert(evicted@[j] == x);
                        }
                    } else {
                        assert(evicted@[evicted@.len() - 1] == x);
                    }
                }
                assert(self@ =~= Map::new(
                    |x: u32|
                        m.contains_key(x) && !entries_map(rest@).contains_key(x) && !idle(
                            m[x].1,
                            now,
                            window,
                        ),
                    |x: u32| m[x],
                ));
            } else {
                proof {
                    lemma_entries_map_push(self.entries@, e);
                }
                self.entries.push(e);
                assert(self@ =~= Map::new(
                    |x: u32|
                        m.contains_key(x) && !entries_map(rest@).contains_key(x) && !idle(
                            m[x].1,
                            now,
                            window,
                        ),
                    |x: u32| m[x],
                ));
            }
        }
        assert(entries_map(rest@) =~= Map::<u32, (StreamModel, u64)>::empty());
        assert(self@ =~= after_sweep(m, now, window));
        evicted
    }
}


/// The payload bytes of a frame's slices, one after another.
pub open spec fn frame_payload(slices: Seq<SliceModel>) -> Seq<u8>
    decreases slices.len(),
{
    if slices.len() == 0 {
        Seq::empty()
    } else {
        frame_payload(slices.drop_last()) + slices.last().payload
    }
}

impl StreamEvent {
    /// The event an interior frame stands for: HEART when it has no slices,
    /// else its slices' payloads in order.
    pub fn from_payload_frame(frame: &VFrame) -> (r: StreamEvent)
        ensures
            frame@.slices.len() == 0 ==> r == (StreamEvent::Heart { seq: frame.hdr.frame_seq }),
            frame@.slices.len() > 0 ==> (r matches StreamEvent::Data { seq, payload } && seq
                == frame.hdr.frame_seq && payload@ == frame_payload(frame@.slices)),
    {
        let n = frame.slices.len();
        if n == 0 {
            return StreamEvent::Heart { seq: frame.hdr.frame_seq };
        }
        let ghost ss = frame@.slices;
        let mut payload: Vec<u8> = Vec::new();
        let mut i: usize = 0;
        assert(ss.take(0) =~= Seq::<SliceModel>::empty());
        while i < n
            invariant
                n == frame.slices@.len(),
                ss == frame@.slices,
                i <= n,
                payload@ == frame_payload(ss.take(i as int)),
            decreases n - i,
        {
            crate::bytes::push_bytes(&mut payload, frame.slices[i].1.as_slice());
            assert(ss.take(i as int + 1).drop_last() =~= ss.take(i as int));
            assert(ss[i as int] == slice_model(frame.slices@[i as int]));
            i = i + 1;
        }
        assert(ss.take(n as int) =~= ss);
        StreamEvent::Data { seq: frame.hdr.frame_seq, payload }
    }
}

} // verus!
