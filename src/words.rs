//! How records lie in the words of the data area, and what stays true of that
//! layout when some words change.
use vstd::prelude::*;
use vstd::arithmetic::div_mod::{
    lemma_fundamental_div_mod, lemma_fundamental_div_mod_converse, lemma_mod_mod, lemma_add_mod_noop,
    lemma_small_mod,
};
use crate::layout::{header_word, payload_word};
use crate::model::{fits, total_span, Record};
use crate::laws::{lemma_index_add, lemma_span, lemma_total_span_first};

verus! {

/// Distance, in bytes and modulo the capacity, from position `base` to word `w`.
pub open spec fn offset(w: int, base: int, capacity: int) -> int {
    (8 * w - base) % capacity
}

/// Word `k` of record `r` as it is stored: the header first, then the payload.
pub open spec fn record_word(r: Record, k: int) -> u64 {
    if k == 0 {
        header_word(r.length as i32, r.msg_type_id)
    } else {
        payload_word(r.payload, k - 1)
    }
}

/// Record `r` is stored at position `pos`.
pub open spec fn record_at(d: Seq<u64>, capacity: int, pos: int, r: Record) -> bool {
    forall|k: int|
        0 <= k < r.span() / 8 ==> #[trigger] d[(pos % capacity) / 8 + k] == record_word(r, k)
}

/// The records of `q` are stored one after the other from position `pos`.
pub open spec fn laid_out(d: Seq<u64>, capacity: int, pos: int, q: Seq<Record>) -> bool
    decreases q.len(),
{
    q.len() == 0 || (record_at(d, capacity, pos, q[0]) && laid_out(
        d,
        capacity,
        pos + q[0].span(),
        q.drop_first(),
    ))
}

/// Every word outside the window from `head` to `tail` is zero.
pub open spec fn free_zero(d: Seq<u64>, capacity: int, head: int, tail: int) -> bool {
    forall|w: int| 0 <= w < d.len() && #[trigger] offset(w, head, capacity) >= tail - head ==> d[w] == 0
}

/// Word `k` after position `pos` lies `pos - base + 8k` bytes after `base`.
pub proof fn lemma_word_offset(capacity: int, base: int, pos: int, k: int)
    requires
        capacity > 0,
        capacity % 8 == 0,
        pos % 8 == 0,
        0 <= k,
        0 <= pos - base,
        pos - base + 8 * k < capacity,
    ensures
        offset((pos % capacity) / 8 + k, base, capacity) == pos - base + 8 * k,
        (pos % capacity) % 8 == 0,
        8 * ((pos % capacity) / 8) == pos % capacity,
{
    let i = pos % capacity;
    lemma_fundamental_div_mod(pos, capacity);
    lemma_mod_mod(pos, 8, capacity / 8);
    lemma_fundamental_div_mod(capacity, 8);
    assert(8 * (capacity / 8) == capacity);
    lemma_fundamental_div_mod(i, 8);
    let x = 8 * (i / 8 + k) - base;
    assert(x == -(pos / capacity) * capacity + (pos - base + 8 * k)) by (nonlinear_arith)
        requires
            x == 8 * (i / 8 + k) - base,
            8 * (i / 8) == i,
            pos == capacity * (pos / capacity) + i,
    ;
    lemma_fundamental_div_mod_converse(x, capacity, -(pos / capacity), pos - base + 8 * k);
}

/// The only word at a given distance after `base`, short of the end of the data area.
pub proof fn lemma_offset_word(capacity: int, base: int, w: int)
    requires
        capacity > 0,
        capacity % 8 == 0,
        base % 8 == 0,
        0 <= w < capacity / 8,
        base % capacity + offset(w, base, capacity) < capacity,
    ensures
        w == (base % capacity) / 8 + offset(w, base, capacity) / 8,
        offset(w, base, capacity) % 8 == 0,
{
    let o = offset(w, base, capacity);
    let bi = base % capacity;
    lemma_fundamental_div_mod(8 * w - base, capacity);
    lemma_fundamental_div_mod(base, capacity);
    lemma_fundamental_div_mod(capacity, 8);
    assert(8 * (capacity / 8) == capacity);
    lemma_mod_mod(base, 8, capacity / 8);
    lemma_fundamental_div_mod(bi, 8);
    // 8w and bi + o are both in [0, capacity) and differ by a multiple of the capacity.
    let m = (8 * w - base) / capacity + base / capacity;
    assert(8 * w == m * capacity + bi + o) by (nonlinear_arith)
        requires
            8 * w - base == capacity * ((8 * w - base) / capacity) + o,
            base == capacity * (base / capacity) + bi,
            m == (8 * w - base) / capacity + base / capacity,
    ;
    if m >= 1 {
        assert(m * capacity >= capacity) by (nonlinear_arith)
            requires
                m >= 1,
                capacity > 0,
        ;
    } else if m <= -1 {
        assert(m * capacity <= -capacity) by (nonlinear_arith)
            requires
                m <= -1,
                capacity > 0,
        ;
    }
    assert(m == 0);
    assert(m * capacity == 0) by (nonlinear_arith)
        requires
            m == 0,
    ;
    assert(8 * w == bi + o);
    lemma_fundamental_div_mod(o, 8);
}

/// Unrolls a layout by its first record.
pub proof fn lemma_laid_out_append(d: Seq<u64>, capacity: int, pos: int, q1: Seq<Record>, q2: Seq<Record>)
    ensures
        laid_out(d, capacity, pos, q1 + q2) == (laid_out(d, capacity, pos, q1) && laid_out(
            d,
            capacity,
            pos + total_span(q1),
            q2,
        )),
    decreases q1.len(),
{
    if q1.len() == 0 {
        assert(q1 + q2 =~= q2);
    } else {
        assert((q1 + q2).drop_first() =~= q1.drop_first() + q2);
        assert((q1 + q2)[0] == q1[0]);
        lemma_laid_out_append(d, capacity, pos + q1[0].span(), q1.drop_first(), q2);
        lemma_total_span_first(q1);
    }
}

/// A layout survives any change to words outside the records it describes.
pub proof fn lemma_laid_out_frame(d1: Seq<u64>, d2: Seq<u64>, capacity: int, pos: int, q: Seq<Record>)
    requires
        laid_out(d1, capacity, pos, q),
        capacity > 0,
        capacity % 8 == 0,
        pos % 8 == 0,
        d1.len() == capacity / 8,
        d2.len() == d1.len(),
        fits(capacity, pos, q),
        total_span(q) <= capacity,
        forall|j: int| 0 <= j < q.len() ==> (#[trigger] q[j]).wf(),
        forall|w: int|
            0 <= w < d1.len() && #[trigger] offset(w, pos, capacity) < total_span(q) ==> d2[w] == d1[w],
    ensures
        laid_out(d2, capacity, pos, q),
    decreases q.len(),
{
    if q.len() > 0 {
        let r = q[0];
        let rest = q.drop_first();
        let span0 = r.span();
        lemma_span(r);
        lemma_total_span_first(q);
        crate::laws::lemma_total_span_aligned(rest);
        assert forall|k: int| 0 <= k < span0 / 8 implies #[trigger] d2[(pos % capacity) / 8 + k] == record_word(r, k) by {
            lemma_word_offset(capacity, pos, pos, k);
            assert(d1[(pos % capacity) / 8 + k] == record_word(r, k));
            let w = (pos % capacity) / 8 + k;
            assert(offset(w, pos, capacity) < total_span(q));
        }
        assert forall|j: int| 0 <= j < rest.len() implies (#[trigger] rest[j]).wf() by {
            assert(rest[j] == q[j + 1]);
        }
        assert forall|w: int|
            0 <= w < d1.len() && #[trigger] offset(w, pos + span0, capacity) < total_span(rest) implies d2[w]
            == d1[w] by {
            let o2 = offset(w, pos + span0, capacity);
            lemma_fundamental_div_mod(8 * w - (pos + span0), capacity);
            lemma_index_add(capacity, 8 * w - (pos + span0), span0);
            assert(offset(w, pos, capacity) == o2 + span0);
        }
        assert((pos + span0) % 8 == 0);
        lemma_laid_out_frame(d1, d2, capacity, pos + span0, rest);
    }
}

/// Moving the base forward by `b` bytes moves every offset back by `b`, modulo the capacity.
pub proof fn lemma_offset_shift(capacity: int, w: int, base: int, b: int)
    requires
        capacity > 0,
        0 <= b <= capacity,
    ensures
        offset(w, base + b, capacity) + b < capacity ==> offset(w, base, capacity) == offset(w, base + b, capacity) + b,
        offset(w, base + b, capacity) + b >= capacity ==> offset(w, base, capacity) == offset(w, base + b, capacity) + b - capacity,
{
    let o2 = offset(w, base + b, capacity);
    lemma_fundamental_div_mod(8 * w - (base + b), capacity);
    lemma_add_mod_noop(8 * w - (base + b), b, capacity);
    assert(8 * w - (base + b) + b == 8 * w - base);
    lemma_small_mod(o2 as nat, capacity as nat);
    if b < capacity {
        lemma_small_mod(b as nat, capacity as nat);
    } else {
        assert(b % capacity == 0) by {
            lemma_fundamental_div_mod_converse(b, capacity, 1, 0);
        }
        lemma_small_mod(o2 as nat, capacity as nat);
    }
    assert(offset(w, base, capacity) == (o2 + b % capacity) % capacity);
    if o2 + b < capacity {
        if b < capacity {
            lemma_small_mod((o2 + b) as nat, capacity as nat);
        }
    } else {
        if b < capacity {
            lemma_fundamental_div_mod_converse(o2 + b, capacity, 1, o2 + b - capacity);
        } else {
            lemma_small_mod(o2 as nat, capacity as nat);
        }
    }
}

} // verus!
