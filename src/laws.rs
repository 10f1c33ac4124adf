//! What holds of every ring buffer state, and of sends and receives on it.
use vstd::prelude::*;
use vstd::arithmetic::power2::{pow2, lemma2_to64};
use vstd::arithmetic::div_mod::{
    lemma_fundamental_div_mod, lemma_fundamental_div_mod_converse, lemma_mod_multiples_basic,
    lemma_mod_mod,
};
use crate::layout::{align_up, is_pow2, lemma_align_up_laws, lemma_align_up_exact, MIN_CAPACITY, ALIGNMENT, RECORD_HEADER_LENGTH};
use crate::model::{
    fits, messages, message_record, padding_record, padding_for, required_for, scan, to_end,
    total_span, claim_fits, Record, RingBufferError, RingState,
};

verus! {

/// A record's span is a positive multiple of the alignment.
pub proof fn lemma_span(r: Record)
    requires
        r.wf(),
    ensures
        r.span() >= r.length >= ALIGNMENT,
        r.span() % ALIGNMENT as int == 0,
{
    lemma_align_up_laws(r.length, r.length, ALIGNMENT as int);
}

pub proof fn lemma_total_span_append(q1: Seq<Record>, q2: Seq<Record>)
    ensures
        total_span(q1 + q2) == total_span(q1) + total_span(q2),
    decreases q2.len(),
{
    if q2.len() == 0 {
        assert(q1 + q2 =~= q1);
    } else {
        assert((q1 + q2).drop_last() =~= q1 + q2.drop_last());
        lemma_total_span_append(q1, q2.drop_last());
    }
}

pub proof fn lemma_messages_append(q1: Seq<Record>, q2: Seq<Record>)
    ensures
        messages(q1 + q2) == messages(q1) + messages(q2),
    decreases q2.len(),
{
    if q2.len() == 0 {
        assert(q1 + q2 =~= q1);
        assert(messages(q1) + messages(q2) =~= messages(q1));
    } else {
        assert((q1 + q2).drop_last() =~= q1 + q2.drop_last());
        lemma_messages_append(q1, q2.drop_last());
        if !q2.last().is_padding() {
            assert(messages(q1) + messages(q2.drop_last()).push(q2.last().message()) =~= (messages(q1)
                + messages(q2.drop_last())).push(q2.last().message()));
        }
    }
}

/// The span of a sequence, unfolded from its first record.
pub proof fn lemma_total_span_first(q: Seq<Record>)
    requires
        q.len() > 0,
    ensures
        total_span(q) == q[0].span() + total_span(q.drop_first()),
{
    let one = seq![q[0]];
    assert(q =~= one + q.drop_first());
    lemma_total_span_append(one, q.drop_first());
    assert(one.drop_last() =~= Seq::<Record>::empty());
    assert(total_span(one.drop_last()) == 0);
    assert(total_span(one) == q[0].span());
}

/// The messages of a sequence, unfolded from its first record.
pub proof fn lemma_messages_first(q: Seq<Record>)
    requires
        q.len() > 0,
    ensures
        messages(q) == (if q[0].is_padding() {
            messages(q.drop_first())
        } else {
            seq![q[0].message()] + messages(q.drop_first())
        }),
{
    let one = seq![q[0]];
    assert(q =~= one + q.drop_first());
    lemma_messages_append(one, q.drop_first());
    assert(one.drop_last() =~= Seq::<Record>::empty());
    assert(messages(one.drop_last()) =~= Seq::<(i32, Seq<u8>)>::empty());
    if q[0].is_padding() {
        assert(messages(one) =~= Seq::<(i32, Seq<u8>)>::empty());
        assert(messages(one) + messages(q.drop_first()) =~= messages(q.drop_first()));
    } else {
        assert(messages(one) =~= seq![q[0].message()]);
    }
}

pub proof fn lemma_total_span_aligned(q: Seq<Record>)
    requires
        forall|j: int| 0 <= j < q.len() ==> (#[trigger] q[j]).wf(),
    ensures
        total_span(q) >= 0,
        total_span(q) % ALIGNMENT as int == 0,
        total_span(q) >= ALIGNMENT * q.len(),
    decreases q.len(),
{
    if q.len() > 0 {
        lemma_total_span_aligned(q.drop_last());
        lemma_span(q.last());
    }
}

pub proof fn lemma_fits_append(capacity: int, pos: int, q1: Seq<Record>, q2: Seq<Record>)
    ensures
        fits(capacity, pos, q1 + q2) == (fits(capacity, pos, q1) && fits(
            capacity,
            pos + total_span(q1),
            q2,
        )),
    decreases q1.len(),
{
    if q1.len() == 0 {
        assert(q1 + q2 =~= q2);
    } else {
        assert((q1 + q2).drop_first() =~= q1.drop_first() + q2);
        assert((q1 + q2)[0] == q1[0]);
        lemma_fits_append(capacity, pos + q1[0].span(), q1.drop_first(), q2);
        lemma_total_span_first(q1);
    }
}

/// A capacity that is a power of two of at least the alignment is a multiple of it.
pub proof fn lemma_capacity_aligned(capacity: int)
    requires
        is_pow2(capacity),
        capacity >= ALIGNMENT,
    ensures
        capacity % ALIGNMENT as int == 0,
{
    let k = choose|k: nat| k < 64 && capacity == pow2(k);
    lemma2_to64();
    if k < 3 {
        if k == 0 {
        } else if k == 1 {
        } else {
        }
        assert(false);
    }
    vstd::arithmetic::power2::lemma_pow2_adds((k - 3) as nat, 3);
    assert(capacity == pow2((k - 3) as nat) * 8);
    lemma_mod_multiples_basic(pow2((k - 3) as nat) as int, 8);
}

/// Where two positions less than a capacity apart fall in the data area.
pub proof fn lemma_window(capacity: int, head: int, tail: int)
    requires
        capacity > 0,
        0 <= head <= tail,
        tail - head < capacity,
    ensures
        tail % capacity >= head % capacity ==> tail - head == tail % capacity - head % capacity,
        tail % capacity < head % capacity ==> tail - head == tail % capacity - head % capacity + capacity,
{
    lemma_fundamental_div_mod(tail, capacity);
    lemma_fundamental_div_mod(head, capacity);
    let qt = tail / capacity;
    let qh = head / capacity;
    let rt = tail % capacity;
    let rh = head % capacity;
    assert(tail - head == capacity * (qt - qh) + rt - rh) by (nonlinear_arith)
        requires
            tail == capacity * qt + rt,
            head == capacity * qh + rh,
    ;
    if qt - qh >= 2 {
        assert(capacity * (qt - qh) >= 2 * capacity) by (nonlinear_arith)
            requires
                qt - qh >= 2,
                capacity > 0,
        ;
    } else if qt - qh <= -1 {
        assert(capacity * (qt - qh) <= -capacity) by (nonlinear_arith)
            requires
                qt - qh <= -1,
                capacity > 0,
        ;
    } else if qt - qh == 1 {
        assert(capacity * (qt - qh) == capacity) by (nonlinear_arith)
            requires
                qt - qh == 1,
        ;
    } else {
        assert(capacity * (qt - qh) == 0) by (nonlinear_arith)
            requires
                qt - qh == 0,
        ;
    }
}

/// Adding less than the room left before the end of the data area adds to the index.
pub proof fn lemma_index_add(capacity: int, pos: int, n: int)
    requires
        capacity > 0,
        n >= 0,
        pos % capacity + n < capacity,
    ensures
        (pos + n) % capacity == pos % capacity + n,
{
    lemma_fundamental_div_mod(pos, capacity);
    assert(capacity * (pos / capacity) == (pos / capacity) * capacity) by (nonlinear_arith);
    lemma_fundamental_div_mod_converse(pos + n, capacity, pos / capacity, pos % capacity + n);
}

/// Reaching the end of the data area exactly brings the index back to zero.
pub proof fn lemma_index_wrap(capacity: int, pos: int)
    requires
        capacity > 0,
    ensures
        (pos + to_end(capacity, pos)) % capacity == 0,
{
    lemma_fundamental_div_mod(pos, capacity);
    assert(capacity * (pos / capacity) + capacity == (pos / capacity + 1) * capacity) by (nonlinear_arith);
    lemma_fundamental_div_mod_converse(pos + to_end(capacity, pos), capacity, pos / capacity + 1, 0);
}

/// Facts on the positions of a well-formed state.
pub proof fn lemma_positions(s: RingState)
    requires
        s.wf(),
    ensures
        s.capacity % ALIGNMENT as int == 0,
        s.tail % ALIGNMENT as int == 0,
        (s.tail % s.capacity) % ALIGNMENT as int == 0,
        (s.head % s.capacity) % ALIGNMENT as int == 0,
        to_end(s.capacity, s.tail) >= ALIGNMENT,
        to_end(s.capacity, s.tail) % ALIGNMENT as int == 0,
{
    lemma_capacity_aligned(s.capacity);
    lemma_total_span_aligned(s.records);
    let k = s.capacity / 8;
    lemma_fundamental_div_mod(s.capacity, 8);
    lemma_mod_mod(s.tail, 8, k);
    lemma_mod_mod(s.head, 8, k);
    assert(8 * k == s.capacity);
    assert(k * 8 == s.capacity);
}

/// A successful send keeps the state well formed and appends its message.
pub proof fn lemma_send_appends(s: RingState, msg_type_id: i32, payload: Seq<u8>)
    requires
        s.wf(),
        s.send_outcome(msg_type_id, payload) is Ok,
    ensures
        s.after_send(msg_type_id, payload).wf(),
        messages(s.after_send(msg_type_id, payload).records) == messages(s.records).push(
            (msg_type_id, payload),
        ),
{
    let cap = s.capacity;
    let len = payload.len() as int;
    let req = required_for(len);
    let m = message_record(msg_type_id, payload);
    let pad = padding_for(cap, s.tail, req);
    let t = s.after_send(msg_type_id, payload);
    lemma_align_up_laws(len + RECORD_HEADER_LENGTH, len + RECORD_HEADER_LENGTH, ALIGNMENT as int);
    lemma_positions(s);
    assert(m.wf());
    assert(m.span() == req);
    lemma_window(cap, s.head, s.tail);
    if pad == 0 {
        assert(t.records == s.records.push(m));
        assert(t.records.drop_last() == s.records);
        assert(t.records =~= s.records + seq![m]);
        lemma_fits_append(cap, s.head, s.records, seq![m]);
        assert(seq![m].drop_first() =~= Seq::<Record>::empty());
        assert(seq![m][0] == m);
        assert(fits(cap, s.tail + req, Seq::<Record>::empty()));
        assert(fits(cap, s.tail, seq![m]));
        assert forall|j: int| 0 <= j < t.records.len() implies (#[trigger] t.records[j]).wf() by {
            if j < s.records.len() {
                assert(t.records[j] == s.records[j]);
            }
        }
        assert(total_span(t.records) == total_span(s.records) + req);
        assert(messages(t.records) == messages(s.records).push(m.message()));
    } else {
        let pr = padding_record(pad);
        let padded = s.records.push(pr);
        lemma_align_up_exact(pad, ALIGNMENT as int);
        assert(pr.wf());
        assert(pr.span() == pad);
        assert(t.records == padded.push(m));
        assert(t.records.drop_last() == padded);
        assert(padded.drop_last() == s.records);
        assert(t.records =~= s.records + seq![pr, m]);
        lemma_fits_append(cap, s.head, s.records, seq![pr, m]);
        assert(seq![pr, m].drop_first() =~= seq![m]);
        assert(seq![m].drop_first() =~= Seq::<Record>::empty());
        lemma_index_wrap(cap, s.tail);
        assert(seq![m][0] == m);
        assert(seq![pr, m][0] == pr);
        assert(fits(cap, s.tail + pad + req, Seq::<Record>::empty()));
        assert(fits(cap, s.tail + pad, seq![m]));
        assert(fits(cap, s.tail, seq![pr, m]));
        assert forall|j: int| 0 <= j < t.records.len() implies (#[trigger] t.records[j]).wf() by {
            if j < s.records.len() {
                assert(t.records[j] == s.records[j]);
            } else if j == s.records.len() {
                assert(t.records[j] == pr);
            }
        }
        assert(total_span(padded) == total_span(s.records) + pad);
        assert(total_span(t.records) == total_span(padded) + req);
        assert(messages(padded) == messages(s.records));
        assert(messages(t.records) == messages(padded).push(m.message()));
        assert(req <= s.head % cap);
        assert(s.tail % cap >= s.head % cap);
        assert(t.tail - t.head <= cap);
    }
}

/// One receive consumes a prefix of the records that fits before the end of the data area.
pub proof fn lemma_scan_bounds(capacity: int, pos: int, q: Seq<Record>, room: int, limit: nat)
    requires
        capacity > 0,
        fits(capacity, pos, q),
        forall|j: int| 0 <= j < q.len() ==> (#[trigger] q[j]).wf(),
        room <= 0 || room == capacity - pos % capacity,
    ensures
        scan(q, room, limit) <= q.len(),
        total_span(q.take(scan(q, room, limit) as int)) <= (if room > 0 { room } else { 0 }),
    decreases q.len(),
{
    let n = scan(q, room, limit);
    if q.len() == 0 || room <= 0 || limit == 0 {
        assert(q.take(0) =~= Seq::<Record>::empty());
    } else {
        let r = q.drop_first();
        let span0 = q[0].span();
        lemma_span(q[0]);
        let lim2 = if q[0].is_padding() { limit } else { (limit - 1) as nat };
        if pos % capacity + span0 < capacity {
            lemma_index_add(capacity, pos, span0);
        }
        assert forall|j: int| 0 <= j < r.len() implies (#[trigger] r[j]).wf() by {
            assert(r[j] == q[j + 1]);
        }
        lemma_scan_bounds(capacity, pos + span0, r, room - span0, lim2);
        let n2 = scan(r, room - span0, lim2);
        assert(n == 1 + n2);
        assert(q.take(n as int).drop_first() =~= r.take(n2 as int));
        lemma_total_span_first(q.take(n as int));
    }
}

/// A receive keeps the state well formed, advances the head by the bytes that it
/// consumed, and delivers the first messages in order.
pub proof fn lemma_receive_takes_prefix(s: RingState, limit: nat)
    requires
        s.wf(),
    ensures
        s.after_receive(limit).wf(),
        s.received(limit) + messages(s.after_receive(limit).records) == messages(s.records),
        s.after_receive(limit).head - s.head == total_span(s.records.take(s.consumed(limit) as int)),
        (s.after_receive(limit).head - s.head) % ALIGNMENT as int == 0,
        s.after_receive(limit).tail == s.tail,
        s.consumed(limit) <= s.records.len(),
        s.after_receive(limit).head - s.head <= s.capacity - s.head % s.capacity,
{
    let n = s.consumed(limit) as int;
    let q = s.records;
    let t = s.after_receive(limit);
    lemma_scan_bounds(s.capacity, s.head, q, s.capacity - s.head % s.capacity, limit);
    assert(q =~= q.take(n) + q.skip(n));
    lemma_total_span_append(q.take(n), q.skip(n));
    lemma_messages_append(q.take(n), q.skip(n));
    lemma_fits_append(s.capacity, s.head, q.take(n), q.skip(n));
    assert forall|j: int| 0 <= j < q.take(n).len() implies (#[trigger] q.take(n)[j]).wf() by {
        assert(q.take(n)[j] == q[j]);
    }
    assert forall|j: int| 0 <= j < t.records.len() implies (#[trigger] t.records[j]).wf() by {
        assert(t.records[j] == q[j + n]);
    }
    lemma_total_span_aligned(q.take(n));
    lemma_total_span_aligned(q.skip(n));
}

/// A claim that fits leaves the tail no more than a capacity ahead of the head it was decided on.
pub proof fn lemma_claim_room(capacity: int, head: int, tail: int, required: int)
    requires
        capacity > 0,
        0 <= head <= tail,
        required > 0,
        claim_fits(capacity, head, tail, required),
    ensures
        tail + padding_for(capacity, tail, required) + required - head <= capacity,
{
    lemma_window(capacity, head, tail);
}

/// A claim that fits against a stale head also fits against the true one, with
/// the same padding.
pub proof fn lemma_stale_head(capacity: int, stale: int, head: int, tail: int, required: int)
    requires
        capacity > 0,
        0 <= stale <= head <= tail,
        tail - stale <= capacity,
        required > 0,
        crate::claim::claim_outcome(capacity, stale, tail, required) is Some,
    ensures
        crate::claim::claim_outcome(capacity, head, tail, required) == crate::claim::claim_outcome(
            capacity,
            stale,
            tail,
            required,
        ),
{
    lemma_window(capacity, stale, tail);
    if required > to_end(capacity, tail) {
        assert(required <= stale % capacity);
        assert(tail % capacity >= stale % capacity);
        lemma_index_add(capacity, stale, head - stale);
    }
}

/// The state after each of `msgs` is sent in turn.
pub open spec fn send_all(s: RingState, msgs: Seq<(i32, Seq<u8>)>) -> RingState
    decreases msgs.len(),
{
    if msgs.len() == 0 {
        s
    } else {
        send_all(s, msgs.drop_last()).send(msgs.last().0, msgs.last().1)
    }
}

/// Every send of `msgs`, in turn, succeeds.
pub open spec fn all_sent(s: RingState, msgs: Seq<(i32, Seq<u8>)>) -> bool {
    forall|i: int|
        0 <= i < msgs.len() ==> (#[trigger] send_all(s, msgs.take(i))).send_outcome(msgs[i].0, msgs[i].1) is Ok
}

/// A budget of messages that no receive exhausts.
pub open spec fn unbounded() -> nat {
    usize::MAX as nat
}

/// Messages delivered by `fuel` receives in turn, each with an unbounded budget.
pub open spec fn drain(s: RingState, fuel: nat) -> Seq<(i32, Seq<u8>)>
    decreases fuel,
{
    if fuel == 0 || s.records.len() == 0 {
        Seq::empty()
    } else {
        s.received(unbounded()) + drain(s.after_receive(unbounded()), (fuel - 1) as nat)
    }
}

/// The state after `fuel` receives in turn, each with an unbounded budget.
pub open spec fn drained(s: RingState, fuel: nat) -> RingState
    decreases fuel,
{
    if fuel == 0 {
        s
    } else {
        drained(s.after_receive(unbounded()), (fuel - 1) as nat)
    }
}

/// A receive with a non-zero budget consumes at least the first record.
pub proof fn lemma_receive_progress(s: RingState, limit: nat)
    requires
        s.wf(),
        s.records.len() > 0,
        limit > 0,
    ensures
        s.consumed(limit) >= 1,
        s.after_receive(limit).records.len() < s.records.len(),
{
    lemma_span(s.records[0]);
    lemma_receive_takes_prefix(s, limit);
}

/// Receiving until the buffer is empty delivers its messages in order.
pub proof fn lemma_drain(s: RingState, fuel: nat)
    requires
        s.wf(),
        fuel >= s.records.len(),
    ensures
        drain(s, fuel) == messages(s.records),
        drained(s, fuel).records.len() == 0,
        drained(s, fuel).head == drained(s, fuel).tail,
    decreases fuel,
{
    if s.records.len() == 0 {
        assert(messages(s.records) =~= Seq::<(i32, Seq<u8>)>::empty());
        lemma_drained_empty(s, fuel);
    } else {
        let t = s.after_receive(unbounded());
        lemma_receive_progress(s, unbounded());
        lemma_receive_takes_prefix(s, unbounded());
        lemma_drain(t, (fuel - 1) as nat);
    }
}

/// Receiving from an empty buffer changes nothing.
pub proof fn lemma_drained_empty(s: RingState, fuel: nat)
    requires
        s.wf(),
        s.records.len() == 0,
    ensures
        drained(s, fuel) == s,
        s.head == s.tail,
    decreases fuel,
{
    if fuel > 0 {
        let t = s.after_receive(unbounded());
        assert(s.records.take(0) =~= Seq::<Record>::empty());
        assert(s.records.skip(0) =~= s.records);
        assert(t == s);
        lemma_drained_empty(s, (fuel - 1) as nat);
    }
}

/// Messages that were all sent successfully are received, byte for byte, in the
/// order in which they were sent, after those already in the buffer.
pub proof fn lemma_fifo(s: RingState, msgs: Seq<(i32, Seq<u8>)>)
    requires
        s.wf(),
        all_sent(s, msgs),
    ensures
        send_all(s, msgs).wf(),
        messages(send_all(s, msgs).records) == messages(s.records) + msgs,
        drain(send_all(s, msgs), send_all(s, msgs).records.len()) == messages(s.records) + msgs,
    decreases msgs.len(),
{
    if msgs.len() == 0 {
        assert(messages(s.records) + msgs =~= messages(s.records));
    } else {
        let init = msgs.drop_last();
        assert forall|i: int| 0 <= i < init.len() implies (#[trigger] send_all(s, init.take(i))).send_outcome(
            init[i].0,
            init[i].1,
        ) is Ok by {
            assert(init.take(i) =~= msgs.take(i));
            assert(send_all(s, msgs.take(i)).send_outcome(msgs[i].0, msgs[i].1) is Ok);
        }
        lemma_fifo(s, init);
        let prev = send_all(s, init);
        assert(msgs.take(msgs.len() - 1) =~= init);
        assert(send_all(s, msgs.take(msgs.len() - 1)).send_outcome(msgs.last().0, msgs.last().1) is Ok);
        lemma_send_appends(prev, msgs.last().0, msgs.last().1);
        assert(messages(s.records) + msgs =~= (messages(s.records) + init).push(msgs.last()));
    }
    lemma_drain(send_all(s, msgs), send_all(s, msgs).records.len());
}

/// A message small enough, sent to an empty buffer, is received by at most two
/// receives, which leave the buffer drained.
pub proof fn lemma_single_message_drains(s: RingState, msg_type_id: i32, payload: Seq<u8>)
    requires
        s.wf(),
        s.head == s.tail,
        s.tail + 2 * s.capacity <= i64::MAX,
        msg_type_id >= 1,
        RECORD_HEADER_LENGTH + align_up(payload.len() + RECORD_HEADER_LENGTH, ALIGNMENT as int)
            <= s.max_message_length(),
    ensures
        s.send_outcome(msg_type_id, payload) is Ok,
        drain(s.after_send(msg_type_id, payload), 2) == seq![(msg_type_id, payload)],
        drained(s.after_send(msg_type_id, payload), 2).head == drained(
            s.after_send(msg_type_id, payload),
            2,
        ).tail,
{
    let cap = s.capacity;
    let req = required_for(payload.len() as int);
    lemma_total_span_aligned(s.records);
    assert(s.records.len() == 0);
    lemma_align_up_laws(payload.len() + RECORD_HEADER_LENGTH, payload.len() + RECORD_HEADER_LENGTH, 8);
    assert(s.max_message_length() <= cap / 8);
    lemma_fundamental_div_mod(s.tail, cap);
    assert(to_end(cap, s.tail) + s.head % cap == cap);
    assert(claim_fits(cap, s.head, s.tail, req));
    let t = s.after_send(msg_type_id, payload);
    lemma_send_appends(s, msg_type_id, payload);
    assert(t.records.len() <= 2);
    lemma_drain(t, 2);
    assert(messages(s.records) =~= Seq::<(i32, Seq<u8>)>::empty());
    assert(messages(t.records) =~= seq![(msg_type_id, payload)]);
}

/// The bytes between head and tail are exactly those of the buffered records,
/// padding included.
pub proof fn lemma_buffered_bytes(s: RingState)
    requires
        s.wf(),
    ensures
        s.tail - s.head == total_span(s.records),
        s.tail - s.head <= s.capacity,
{
}

/// A record that exactly fills the space up to the end of the data area is
/// placed there, with no padding.
pub proof fn lemma_exact_fit_no_padding(s: RingState, msg_type_id: i32, payload: Seq<u8>)
    requires
        s.wf(),
        s.send_outcome(msg_type_id, payload) is Ok,
        required_for(payload.len() as int) == to_end(s.capacity, s.tail),
    ensures
        s.after_send(msg_type_id, payload).records == s.records.push(message_record(msg_type_id, payload)),
        s.after_send(msg_type_id, payload).tail == s.tail + to_end(s.capacity, s.tail),
{
}

/// A record longer than the space up to the end of the data area is placed at
/// index zero, behind a padding record of type minus one that fills that space.
pub proof fn lemma_wrap_pads_to_end(s: RingState, msg_type_id: i32, payload: Seq<u8>)
    requires
        s.wf(),
        s.send_outcome(msg_type_id, payload) is Ok,
        required_for(payload.len() as int) > to_end(s.capacity, s.tail),
    ensures
        s.after_send(msg_type_id, payload).records == s.records.push(padding_record(to_end(s.capacity, s.tail))).push(
            message_record(msg_type_id, payload),
        ),
        padding_record(to_end(s.capacity, s.tail)).msg_type_id == -1,
        padding_record(to_end(s.capacity, s.tail)).span() == to_end(s.capacity, s.tail),
        (s.tail + to_end(s.capacity, s.tail)) % s.capacity == 0,
{
    lemma_positions(s);
    lemma_align_up_exact(to_end(s.capacity, s.tail), 8);
    lemma_index_wrap(s.capacity, s.tail);
}

/// A send with valid arguments fails for want of space exactly when the record
/// fits neither in the free space before the end of the data area nor, behind
/// padding, before the index of the head (or the free space is too small, or
/// the positions would overflow).
pub proof fn lemma_insufficient_capacity(s: RingState, msg_type_id: i32, payload: Seq<u8>)
    requires
        s.wf(),
        payload.len() <= s.max_message_length(),
        msg_type_id >= 1,
    ensures
        (s.send_outcome(msg_type_id, payload) == Err::<(), RingBufferError>(RingBufferError::InsufficientCapacity))
            <==> !{
            let req = required_for(payload.len() as int);
            &&& req <= s.capacity - (s.tail - s.head)
            &&& (req <= to_end(s.capacity, s.tail) || req <= s.head % s.capacity)
            &&& s.tail + padding_for(s.capacity, s.tail, req) + req <= i64::MAX
        },
{
}

/// The maximum message length is zero exactly at the smallest capacity, where
/// every send of a non-empty payload is refused as too long.
pub proof fn lemma_min_capacity(s: RingState, msg_type_id: i32, payload: Seq<u8>)
    requires
        s.wf(),
    ensures
        (s.max_message_length() == 0) <==> (s.capacity == MIN_CAPACITY),
        s.capacity == MIN_CAPACITY && payload.len() >= 1 ==> s.send_outcome(msg_type_id, payload)
            == Err::<(), RingBufferError>(RingBufferError::MessageTooLong),
{
    lemma_capacity_aligned(s.capacity);
}

} // verus!
