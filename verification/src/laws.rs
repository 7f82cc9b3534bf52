//! The pipeline's laws, stated over the spec-level models that the
//! executable functions' contracts use: `framer_step` for one delivery and
//! `run_steps` for a whole sequence of deliveries.

use vstd::prelude::*;

use crate::TelemetryError;
use crate::framer::{framer_step, accepted_len};
use crate::parser::{KEY_A, KEY_B, KEY_X, KEY_Y, KEY_Z, COLON, COMMA, Sample, default_sample,
    is_known_key, parse_field, parse_fields, set_key, spec_parse_i32, spec_parse_record};
use crate::queue::CAPACITY;
use crate::scan::{NL, find_byte, lemma_find_byte_absent, lemma_find_byte_is_first, split_on,
    strip_line_ends};

verus! {

/// The queue after one delivery never exceeds the capacity, whatever the
/// chunk.
pub proof fn lemma_step_queue_bounded(q: Seq<u8>, chunk: Seq<u8>)
    requires
        q.len() <= CAPACITY,
    ensures
        framer_step(q, chunk).queue2.len() <= CAPACITY,
{
}

/// The queue and the records produced over a whole sequence of deliveries,
/// chunk by chunk, starting from queue contents `q`.
pub struct RunModel {
    /// Queue contents after the last delivery.
    pub queue: Seq<u8>,
    /// Every record handed to the parser, in order of production.
    pub records: Seq<Seq<u8>>,
}

/// Folds `framer_step` over the chunks, collecting the produced records.
pub open spec fn run_steps(q: Seq<u8>, chunks: Seq<Seq<u8>>) -> RunModel
    decreases chunks.len(),
{
    if chunks.len() == 0 {
        RunModel { queue: q, records: Seq::empty() }
    } else {
        let m = framer_step(q, chunks.first());
        let rest = run_steps(m.queue2, chunks.drop_first());
        RunModel {
            queue: rest.queue,
            records: (match m.record {
                Some(r) => seq![r],
                None => Seq::empty(),
            }) + rest.records,
        }
    }
}

/// Overflow containment: the queue never exceeds the capacity after any
/// sequence of deliveries.
pub proof fn lemma_run_queue_bounded(q: Seq<u8>, chunks: Seq<Seq<u8>>)
    requires
        q.len() <= CAPACITY,
    ensures
        run_steps(q, chunks).queue.len() <= CAPACITY,
    decreases chunks.len(),
{
    if chunks.len() == 0 {
    } else {
        lemma_step_queue_bounded(q, chunks.first());
        lemma_run_queue_bounded(framer_step(q, chunks.first()).queue2, chunks.drop_first());
    }
}

/// One whole record: nonempty, it fits the capacity, and its only line
/// terminator is its last byte.
pub open spec fn single_record(record: Seq<u8>) -> bool {
    &&& 1 <= record.len() <= CAPACITY
    &&& record.last() == NL
    &&& forall|i: int| 0 <= i < record.len() - 1 ==> record[i] != NL
}

/// Delivering chunks that flatten to nothing moves nothing: starting from
/// an empty queue, no record is produced and the queue stays empty.
proof fn lemma_run_empty_chunks(chunks: Seq<Seq<u8>>)
    requires
        chunks.flatten().len() == 0,
    ensures
        run_steps(Seq::empty(), chunks).records.len() == 0,
        run_steps(Seq::empty(), chunks).queue.len() == 0,
    decreases chunks.len(),
{
    if chunks.len() == 0 {
    } else {
        let c0 = chunks.first();
        assert(chunks.flatten() == c0 + chunks.drop_first().flatten());
        assert(c0.len() == 0);
        assert(c0 =~= Seq::<u8>::empty());
        lemma_find_byte_absent(c0, NL);
        let m = framer_step(Seq::empty(), c0);
        assert(m.queue2 =~= Seq::<u8>::empty());
        lemma_run_empty_chunks(chunks.drop_first());
    }
}

/// Delivering the chunks of one record, after a terminator-free prefix
/// `pre` already queued, produces exactly that record, stripped, and
/// leaves the queue empty.
proof fn lemma_split_run(pre: Seq<u8>, chunks: Seq<Seq<u8>>, record: Seq<u8>)
    requires
        single_record(record),
        pre + chunks.flatten() == record,
        forall|i: int| 0 <= i < pre.len() ==> pre[i] != NL,
    ensures
        run_steps(pre, chunks).records =~= seq![strip_line_ends(record)],
        run_steps(pre, chunks).queue.len() == 0,
    decreases chunks.len(),
{
    if chunks.len() == 0 {
        assert(pre =~= record);
        assert(record[record.len() - 1] == NL);
        assert(false);
    } else {
        let c0 = chunks.first();
        let flat = chunks.flatten();
        assert(flat == c0 + chunks.drop_first().flatten());
        assert(pre.len() + flat.len() == record.len());
        assert forall|j: int| 0 <= j < c0.len() implies c0[j] == record[pre.len() + j] by {
            assert(record[pre.len() + j] == (pre + flat)[pre.len() + j]);
            assert(flat[j] == (c0 + chunks.drop_first().flatten())[j]);
        }
        let m = framer_step(pre, c0);
        if c0.len() > 0 && pre.len() + c0.len() == record.len() {
            // The chunk carries the terminator as its last byte.
            let p = c0.len() - 1;
            assert(c0[p] == record[record.len() - 1]);
            assert(forall|j: int| 0 <= j < p ==> c0[j] == record[pre.len() + j] && c0[j] != NL);
            lemma_find_byte_is_first(c0, NL, p);
            assert(pre.len() + p + 1 == record.len() <= CAPACITY);
            assert(c0.take(p + 1) =~= c0);
            assert(pre + c0 =~= record);
            assert(m.record == Some(strip_line_ends(record)));
            let rem = c0.skip(p + 1);
            assert(rem.len() == 0);
            assert(m.queue2 =~= Seq::<u8>::empty());
            assert(chunks.drop_first().flatten().len() == 0);
            lemma_run_empty_chunks(chunks.drop_first());
            let rest = run_steps(m.queue2, chunks.drop_first());
            assert(rest.records =~= Seq::<Seq<u8>>::empty());
            assert(run_steps(pre, chunks).records =~= seq![strip_line_ends(record)]);
        } else {
            // The terminator is further on: the whole chunk is queued.
            assert(pre.len() + c0.len() < record.len()) by {
                if pre.len() + c0.len() == record.len() {
                    assert(c0.len() == 0);
                    assert(pre =~= record);
                    assert(record[record.len() - 1] == NL);
                }
            }
            assert(forall|j: int| 0 <= j < c0.len() ==> c0[j] != NL);
            lemma_find_byte_absent(c0, NL);
            assert(pre.len() + c0.len() < record.len() <= CAPACITY);
            assert(accepted_len(pre.len() as int, c0.len() as int) == c0.len());
            assert(c0.take(c0.len() as int) =~= c0);
            assert(m.queue2 == pre + c0);
            assert((pre + c0) + chunks.drop_first().flatten() =~= record);
            assert(forall|i: int| 0 <= i < (pre + c0).len() ==> (pre + c0)[i] != NL);
            lemma_split_run(pre + c0, chunks.drop_first(), record);
            assert(run_steps(pre, chunks).records =~= Seq::<Seq<u8>>::empty() + run_steps(
                m.queue2,
                chunks.drop_first(),
            ).records);
            assert(Seq::<Seq<u8>>::empty() + run_steps(m.queue2, chunks.drop_first()).records
                =~= run_steps(m.queue2, chunks.drop_first()).records);
        }
    }
}

/// Chunk-split invariance: however one whole record is split into chunks,
/// delivering them in order from an empty queue produces exactly the one
/// stripped record — the same record that delivering it in a single chunk
/// produces — and leaves the queue empty.  Since what is parsed and
/// dispatched is a function of the produced record bytes and the sink,
/// every split yields the same dispatched sample.
pub proof fn lemma_chunk_split_invariance(record: Seq<u8>, chunks: Seq<Seq<u8>>)
    requires
        single_record(record),
        chunks.len() >= 1,
        chunks.flatten() == record,
    ensures
        run_steps(Seq::empty(), chunks).records == seq![strip_line_ends(record)],
        run_steps(Seq::empty(), chunks).queue.len() == 0,
        run_steps(Seq::empty(), chunks).records == run_steps(Seq::empty(), seq![record]).records,
{
    assert(Seq::<u8>::empty() + chunks.flatten() =~= record);
    lemma_split_run(Seq::empty(), chunks, record);
    let one = seq![record];
    assert(one.flatten() =~= record) by {
        one.lemma_flatten_one_element();
    }
    assert(Seq::<u8>::empty() + one.flatten() =~= record);
    lemma_split_run(Seq::empty(), one, record);
}

/// Stripping line ends ignores a trailing terminator.
proof fn lemma_strip_push_nl(s: Seq<u8>)
    ensures
        strip_line_ends(s + seq![NL]) == strip_line_ends(s),
{
    assert((s + seq![NL]).last() == NL);
    assert((s + seq![NL]).drop_last() =~= s);
}

/// Two terminators in one chunk: the call produces exactly one record —
/// the first — and queues the remainder, second terminator included; that
/// queued record is produced by the following call, here the one that
/// delivers the next terminator byte.
pub proof fn lemma_two_terminators_one_record_per_call(r1: Seq<u8>, r2: Seq<u8>)
    requires
        forall|i: int| 0 <= i < r1.len() ==> r1[i] != NL,
        forall|i: int| 0 <= i < r2.len() ==> r2[i] != NL,
        r1.len() + r2.len() + 2 <= CAPACITY,
    ensures
        ({
            let chunk = r1 + seq![NL] + r2 + seq![NL];
            let m1 = framer_step(Seq::empty(), chunk);
            let m2 = framer_step(m1.queue2, seq![NL]);
            &&& m1.record == Some(strip_line_ends(r1))
            &&& m1.queue2 == r2 + seq![NL]
            &&& !m1.oversized && !m1.overflow
            &&& m2.record == Some(strip_line_ends(r2))
            &&& m2.queue2 == Seq::<u8>::empty()
        }),
{
    let chunk = r1 + seq![NL] + r2 + seq![NL];
    let p = r1.len() as int;
    assert(chunk[p] == NL);
    assert(forall|j: int| 0 <= j < p ==> chunk[j] == r1[j]);
    lemma_find_byte_is_first(chunk, NL, p);
    let m1 = framer_step(Seq::empty(), chunk);
    assert(Seq::<u8>::empty() + chunk.take(p + 1) =~= r1 + seq![NL]);
    assert(r1 + seq![NL] =~= r1.push(NL));
    lemma_strip_push_nl(r1);
    assert(strip_line_ends(r1 + seq![NL]) == strip_line_ends(r1));
    let rem = chunk.skip(p + 1);
    assert(rem =~= r2 + seq![NL]);
    assert(rem.take(accepted_len(0, rem.len() as int)) =~= rem);
    // The following call delivers the next terminator: the queued record
    // is assembled with it and produced.
    let one = seq![NL];
    assert(one[0] == NL);
    lemma_find_byte_is_first(one, NL, 0);
    let m2 = framer_step(m1.queue2, one);
    assert(m1.queue2.len() + 1 <= CAPACITY);
    assert(m1.queue2 + one.take(1) =~= (r2 + seq![NL]) + seq![NL]);
    assert((r2 + seq![NL]) + seq![NL] =~= (r2.push(NL)).push(NL));
    lemma_strip_push_nl(r2.push(NL));
    assert(r2 + seq![NL] =~= r2.push(NL));
    lemma_strip_push_nl(r2);
    assert(one.skip(1) =~= Seq::<u8>::empty());
    assert(one.skip(1).take(accepted_len(0, 0)) =~= Seq::<u8>::empty());
}

/// A well-formed field: one recognized key byte, the separator right after
/// it, and a value that parses as a signed 32-bit integer.
pub open spec fn wf_field(f: Seq<u8>) -> bool {
    &&& find_byte(f, COLON) == Some(1int)
    &&& (f[0] == KEY_X || f[0] == KEY_Y || f[0] == KEY_Z || f[0] == KEY_A || f[0] == KEY_B)
    &&& spec_parse_i32(f.skip(2)) is Some
}

/// The key byte of a well-formed field.
pub open spec fn field_key(f: Seq<u8>) -> u8 {
    f[0]
}

/// The integer a well-formed field carries.
pub open spec fn field_value(f: Seq<u8>) -> i32 {
    spec_parse_i32(f.skip(2)).unwrap()
}

/// Some field carries key `k`.
pub open spec fn has_key(fields: Seq<Seq<u8>>, k: u8) -> bool {
    exists|i: int| 0 <= i < fields.len() && field_key(fields[i]) == k
}

/// The value carried under key `k`; single-valued when keys are distinct.
pub open spec fn key_value(fields: Seq<Seq<u8>>, k: u8) -> i32 {
    field_value(fields[choose|i: int| 0 <= i < fields.len() && field_key(fields[i]) == k])
}

/// No key occurs twice.
pub open spec fn distinct_keys(fields: Seq<Seq<u8>>) -> bool {
    forall|i: int, j: int| 0 <= i < j < fields.len() ==> field_key(fields[i]) != field_key(
        fields[j],
    )
}

/// With distinct keys, whether and with what value key `k` occurs
/// decomposes over the first field and the rest.
proof fn lemma_key_decomposition(fields: Seq<Seq<u8>>, k: u8)
    requires
        fields.len() > 0,
        distinct_keys(fields),
    ensures
        field_key(fields.first()) == k ==> has_key(fields, k) && key_value(fields, k)
            == field_value(fields.first()) && !has_key(fields.drop_first(), k),
        field_key(fields.first()) != k ==> (has_key(fields, k) == has_key(
            fields.drop_first(),
            k,
        )) && (has_key(fields, k) ==> key_value(fields, k) == key_value(fields.drop_first(), k)),
{
    let f0 = fields.first();
    let rest = fields.drop_first();
    assert(f0 == fields[0]);
    assert(forall|i: int| 0 <= i < rest.len() ==> rest[i] == fields[i + 1]);
    if field_key(f0) == k {
        assert(0 <= 0 < fields.len() && field_key(fields[0]) == k);
        assert(has_key(fields, k));
        if has_key(rest, k) {
            let i = choose|i: int| 0 <= i < rest.len() && field_key(rest[i]) == k;
            assert(field_key(fields[i + 1]) == k);
            assert(false);
        }
        let w = choose|i: int| 0 <= i < fields.len() && field_key(fields[i]) == k;
        if w != 0 {
            assert(field_key(fields[0]) == field_key(fields[w]));
            assert(false);
        }
    } else {
        if has_key(rest, k) {
            let i = choose|i: int| 0 <= i < rest.len() && field_key(rest[i]) == k;
            assert(0 <= i + 1 < fields.len() && field_key(fields[i + 1]) == k);
            assert(has_key(fields, k));
        }
        if has_key(fields, k) {
            let w = choose|i: int| 0 <= i < fields.len() && field_key(fields[i]) == k;
            assert(w != 0);
            assert(0 <= w - 1 < rest.len() && field_key(rest[w - 1]) == k);
            assert(has_key(rest, k));
            let v = choose|i: int| 0 <= i < rest.len() && field_key(rest[i]) == k;
            if v != w - 1 {
                assert(field_key(fields[v + 1]) == k && field_key(fields[w]) == k);
                assert(false);
            }
            assert(key_value(fields, k) == field_value(fields[w]));
            assert(key_value(rest, k) == field_value(rest[v]));
        }
    }
}

/// Field-order independence: a record of well-formed fields with distinct
/// keys parses, and each entry of the resulting sample equals the literal
/// integer written under its key, wherever in the record that field
/// stands; a key that does not occur leaves the entry as it was.
pub proof fn lemma_parse_fields_by_key(fields: Seq<Seq<u8>>, acc: Sample)
    requires
        forall|i: int| 0 <= i < fields.len() ==> wf_field(#[trigger] fields[i]),
        distinct_keys(fields),
    ensures
        parse_fields(fields, acc) is Ok,
        ({
            let r = parse_fields(fields, acc).unwrap();
            &&& r.x == if has_key(fields, KEY_X) {
                key_value(fields, KEY_X)
            } else {
                acc.x
            }
            &&& r.y == if has_key(fields, KEY_Y) {
                key_value(fields, KEY_Y)
            } else {
                acc.y
            }
            &&& r.z == if has_key(fields, KEY_Z) {
                key_value(fields, KEY_Z)
            } else {
                acc.z
            }
            &&& r.a == if has_key(fields, KEY_A) {
                key_value(fields, KEY_A)
            } else {
                acc.a
            }
            &&& r.b == if has_key(fields, KEY_B) {
                key_value(fields, KEY_B)
            } else {
                acc.b
            }
        }),
    decreases fields.len(),
{
    if fields.len() == 0 {
    } else {
        let f0 = fields.first();
        let rest = fields.drop_first();
        assert(f0 == fields[0]);
        assert(wf_field(f0));
        assert(f0.take(1) =~= seq![f0[0]]);
        assert(is_known_key(f0.take(1)));
        let acc1 = set_key(acc, f0[0], field_value(f0));
        assert(parse_field(f0, acc) == Ok::<Sample, TelemetryError>(acc1));
        assert forall|i: int| 0 <= i < rest.len() implies wf_field(#[trigger] rest[i]) by {
            assert(rest[i] == fields[i + 1]);
        }
        assert forall|i: int, j: int| 0 <= i < j < rest.len() implies field_key(rest[i])
            != field_key(rest[j]) by {
            assert(rest[i] == fields[i + 1] && rest[j] == fields[j + 1]);
        }
        lemma_parse_fields_by_key(rest, acc1);
        lemma_key_decomposition(fields, KEY_X);
        lemma_key_decomposition(fields, KEY_Y);
        lemma_key_decomposition(fields, KEY_Z);
        lemma_key_decomposition(fields, KEY_A);
        lemma_key_decomposition(fields, KEY_B);
    }
}

/// Field-order independence at the record level: two records of
/// well-formed fields with distinct keys that carry the same keys with the
/// same values — in whatever order — parse to the same sample, whose
/// entries are the literal integers written under the keys.
pub proof fn lemma_record_order_independent(s1: Seq<u8>, s2: Seq<u8>)
    requires
        forall|i: int| 0 <= i < split_on(s1, COMMA).len() ==> wf_field(
            #[trigger] split_on(s1, COMMA)[i],
        ),
        forall|i: int| 0 <= i < split_on(s2, COMMA).len() ==> wf_field(
            #[trigger] split_on(s2, COMMA)[i],
        ),
        distinct_keys(split_on(s1, COMMA)),
        distinct_keys(split_on(s2, COMMA)),
        forall|k: u8| has_key(split_on(s1, COMMA), k) == has_key(split_on(s2, COMMA), k),
        forall|k: u8| has_key(split_on(s1, COMMA), k) ==> key_value(split_on(s1, COMMA), k)
            == key_value(split_on(s2, COMMA), k),
    ensures
        spec_parse_record(s1) is Ok,
        spec_parse_record(s1) == spec_parse_record(s2),
{
    lemma_parse_fields_by_key(split_on(s1, COMMA), default_sample());
    lemma_parse_fields_by_key(split_on(s2, COMMA), default_sample());
}

} // verus!
