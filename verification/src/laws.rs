use vstd::prelude::*;
use crate::bits::{
    bytes_bits, bits_val, val_bits, bits_bytes, zeros, pad_len, lemma_bytes_bits_concat,
    lemma_val_bits_len, lemma_val_bits_val, lemma_bytes_bits_bits_bytes, lemma_bits_val_zeros_take,
};
use crate::code::{min_bits_nat, lemma_min_bits_u16, lemma_min_bits_iff, lemma_min_bits_monotonic};
use crate::compress::{
    CompView, comp_init, comp_inv, eat, eat_is_new, eat_code, write_seq, lemma_write_max_mono,
    emit, fin_state, finalize_out,
};
use crate::decompress::{DecView, DecRun, dec_init, dec_run, dec_extend, dec_feed, dec_width};
use vstd::arithmetic::power2::pow2;
use vstd::arithmetic::div_mod::lemma_small_mod;

verus! {

// ---------------------------------------------------------------------------
// Streaming equivalence, encode side
// ---------------------------------------------------------------------------

/// Feeding a byte sequence in two chunks leaves the encoder in exactly the
/// state that feeding it whole does, so any partitioning of the input into
/// `write` calls produces the same output.
pub proof fn lemma_write_chunked(s: CompView, a: Seq<u8>, b: Seq<u8>)
    ensures
        write_seq(s, a + b) == write_seq(write_seq(s, a), b),
    decreases a.len(),
{
    if a.len() == 0 {
        assert(a + b =~= b);
    } else {
        assert((a + b)[0] == a[0]);
        assert((a + b).skip(1) =~= a.skip(1) + b);
        lemma_write_chunked(eat(s, a[0]), a.skip(1), b);
    }
}

// ---------------------------------------------------------------------------
// Streaming equivalence, decode side
// ---------------------------------------------------------------------------

/// Extra bits appended behind a quiescent run commute with the run itself:
/// the machine takes exactly the same steps on the longer buffer.
pub proof fn lemma_dec_run_extend(s: DecView, extra: Seq<bool>)
    ensures
        dec_run(DecView { bits: s.bits + extra, ..s }) == match dec_run(s) {
            DecRun::Done(t) => dec_run(DecView { bits: t.bits + extra, ..t }),
            DecRun::Bad(t, c) => DecRun::Bad(DecView { bits: t.bits + extra, ..t }, c),
        },
    decreases s.bits.len() + s.bits.len() + (if s.byte_phase {
        0int
    } else {
        1int
    }),
{
    let se = DecView { bits: s.bits + extra, ..s };
    if !s.byte_phase {
        let w = dec_width(s);
        if s.bits.len() >= w {
            assert((s.bits + extra).take(w as int) =~= s.bits.take(w as int));
            assert((s.bits + extra).skip(w as int) =~= s.bits.skip(w as int) + extra);
            let c = bits_val(s.bits.take(w as int));
            if c < s.table.len() {
                let s1 = DecView {
                    out: s.out + s.table[c as int],
                    last: c,
                    bits: s.bits.skip(w as int),
                    byte_phase: true,
                    ..s
                };
                assert(dec_run(se) == dec_run(DecView { bits: s1.bits + extra, ..s1 }));
                lemma_dec_run_extend(s1, extra);
            }
        }
    } else {
        if s.bits.len() >= 8 {
            assert((s.bits + extra).take(8) =~= s.bits.take(8));
            assert((s.bits + extra).skip(8) =~= s.bits.skip(8) + extra);
            let b = bits_val(s.bits.take(8)) as u8;
            let s1 = DecView {
                table: s.table.push(s.table[s.last as int].push(b)),
                bits: s.bits.skip(8),
                byte_phase: false,
                out: s.out.push(b),
                ..s
            };
            assert(dec_run(se) == dec_run(DecView { bits: s1.bits + extra, ..s1 }));
            lemma_dec_run_extend(s1, extra);
        }
    }
}

/// Feeding compressed bytes in two chunks drives the decoder through
/// exactly the states that feeding them whole does: a quiescent first
/// chunk continues seamlessly, and a fatal code stays the same fatal code.
pub proof fn lemma_read_chunked(s: DecView, a: Seq<u8>, b: Seq<u8>)
    ensures
        dec_feed(s, a) matches DecRun::Done(t) ==> dec_feed(s, a + b) == dec_feed(t, b),
        dec_feed(s, a) matches DecRun::Bad(t, c) ==> dec_feed(s, a + b) == DecRun::Bad(
            DecView { bits: t.bits + bytes_bits(b), ..t },
            c,
        ),
{
    lemma_bytes_bits_concat(a, b);
    let sa = dec_extend(s, a);
    assert(dec_extend(s, a + b) =~= DecView { bits: sa.bits + bytes_bits(b), ..sa });
    lemma_dec_run_extend(sa, bytes_bits(b));
    match dec_run(sa) {
        DecRun::Done(t) => {
            assert(DecView { bits: t.bits + bytes_bits(b), ..t } =~= dec_extend(t, b));
        },
        DecRun::Bad(t, c) => {},
    }
}

// ---------------------------------------------------------------------------
// Dictionary lockstep
// ---------------------------------------------------------------------------

/// The transaction trace of an encode run: one (code, literal) pair for
/// each new dictionary entry the input mints.
pub open spec fn enc_txs(s: CompView, data: Seq<u8>) -> Seq<(u16, u8)>
    decreases data.len(),
{
    if data.len() == 0 {
        Seq::empty()
    } else if eat_is_new(s, data[0]) {
        seq![(eat_code(s), data[0])] + enc_txs(eat(s, data[0]), data.skip(1))
    } else {
        enc_txs(eat(s, data[0]), data.skip(1))
    }
}

/// A decode dictionary grown by one entry per transaction: the expansion
/// of the transaction's code extended with its literal.
pub open spec fn dec_apply_txs(t: Seq<Seq<u8>>, txs: Seq<(u16, u8)>) -> Seq<Seq<u8>>
    decreases txs.len(),
{
    if txs.len() == 0 {
        t
    } else {
        dec_apply_txs(t.push(t[txs[0].0 as int].push(txs[0].1)), txs.skip(1))
    }
}

/// The two dictionaries agree: the decode table has one entry per code up
/// to the running max-code, and the encode table maps exactly those
/// sequences to their indices.
pub open spec fn lockstep(e: CompView, dt: Seq<Seq<u8>>) -> bool {
    &&& dt.len() == e.max_code + 1
    &&& dt[0] == Seq::<u8>::empty()
    &&& (forall|i: int|
        1 <= i < dt.len() ==> e.table.dom().contains(#[trigger] dt[i]) && e.table[dt[i]] as int
            == i)
    &&& (forall|k: Seq<u8>| e.table.dom().contains(k) ==> dt[(#[trigger] e.table[k]) as int] == k)
}

/// Ingesting one byte preserves the encoder's structural invariant.
pub proof fn lemma_eat_inv(e: CompView, b: u8)
    requires
        comp_inv(e),
        eat(e, b).max_code <= 0xFFFF,
    ensures
        comp_inv(eat(e, b)),
{
    if eat_is_new(e, b) {
        lemma_min_bits_u16(e.max_code);
        lemma_val_bits_len(eat_code(e) as nat, min_bits_nat(e.max_code));
        lemma_val_bits_len(b as nat, 8);
        assert forall|k: Seq<u8>| eat(e, b).table.dom().contains(k) implies 1 <= (#[trigger] eat(
            e,
            b,
        ).table[k]) as nat <= eat(e, b).max_code by {
            if k !== e.pending.push(b) {
                assert(e.table.dom().contains(k));
            }
        }
    }
}

/// One new transaction keeps the two dictionaries in lockstep.
pub proof fn lemma_lockstep_eat(e: CompView, dt: Seq<Seq<u8>>, b: u8)
    requires
        comp_inv(e),
        lockstep(e, dt),
        eat_is_new(e, b),
        eat(e, b).max_code <= 0xFFFF,
    ensures
        lockstep(eat(e, b), dt.push(dt[eat_code(e) as int].push(b))),
{
    let p2 = e.pending.push(b);
    let c = eat_code(e);
    let e2 = eat(e, b);
    let dt2 = dt.push(dt[c as int].push(b));
    if e.pending.len() == 0 {
        assert(dt[c as int] == e.pending);
        assert(dt[c as int].push(b) =~= p2);
    } else {
        assert(e.table.dom().contains(e.pending));
        assert(dt[c as int] == e.pending);
    }
    assert(dt2[dt.len() as int] == p2);
    assert(e2.table == e.table.insert(p2, (e.max_code + 1) as u16));
    assert forall|i: int| 1 <= i < dt2.len() implies e2.table.dom().contains(#[trigger] dt2[i])
        && e2.table[dt2[i]] as int == i by {
        if i < dt.len() {
            assert(dt2[i] == dt[i]);
            assert(e.table.dom().contains(dt[i]));
            assert(dt[i] !== p2);
        } else {
            assert(dt2[i] == p2);
        }
    }
    assert forall|k: Seq<u8>| e2.table.dom().contains(k) implies dt2[(
    #[trigger] e2.table[k]) as int] == k by {
        if k !== p2 {
            assert(e.table.dom().contains(k));
            assert(1 <= e.table[k] as nat <= e.max_code);
            assert(dt2[e.table[k] as int] == dt[e.table[k] as int]);
        }
    }
}

/// Lockstep is preserved across a whole encode run, transaction for
/// transaction.
pub proof fn lemma_lockstep_write(e: CompView, dt: Seq<Seq<u8>>, data: Seq<u8>)
    requires
        comp_inv(e),
        lockstep(e, dt),
        write_seq(e, data).max_code <= 0xFFFF,
    ensures
        lockstep(write_seq(e, data), dec_apply_txs(dt, enc_txs(e, data))),
        comp_inv(write_seq(e, data)),
    decreases data.len(),
{
    if data.len() > 0 {
        let b = data[0];
        let e2 = eat(e, b);
        lemma_write_max_mono(e2, data.skip(1));
        lemma_eat_inv(e, b);
        if eat_is_new(e, b) {
            let c = eat_code(e);
            let dt2 = dt.push(dt[c as int].push(b));
            lemma_lockstep_eat(e, dt, b);
            let txs = enc_txs(e, data);
            assert(txs == seq![(c, b)] + enc_txs(e2, data.skip(1)));
            assert(txs[0] == (c, b));
            assert(txs.skip(1) =~= enc_txs(e2, data.skip(1)));
            assert(dec_apply_txs(dt, txs) == dec_apply_txs(dt2, enc_txs(e2, data.skip(1))));
            lemma_lockstep_write(e2, dt2, data.skip(1));
        } else {
            lemma_lockstep_write(e2, dt, data.skip(1));
        }
    }
}

/// Dictionary lockstep from fresh sessions: after any input is encoded,
/// the decode dictionary grown by the same transactions holds the same
/// count of entries, and for every assigned code the same byte sequence
/// that the encode dictionary maps to that code.
pub proof fn lemma_dictionary_lockstep(data: Seq<u8>)
    requires
        write_seq(comp_init(), data).max_code <= 0xFFFF,
    ensures
        ({
            let e = write_seq(comp_init(), data);
            let dt = dec_apply_txs(dec_init().table, enc_txs(comp_init(), data));
            &&& dt.len() == e.max_code + 1
            &&& (forall|i: int|
                1 <= i < dt.len() ==> e.table.dom().contains(#[trigger] dt[i])
                    && e.table[dt[i]] as int == i)
            &&& (forall|k: Seq<u8>|
                e.table.dom().contains(k) ==> dt[(#[trigger] e.table[k]) as int] == k)
        }),
{
    assert(dec_init().table == seq![Seq::<u8>::empty()]);
    assert(lockstep(comp_init(), seq![Seq::<u8>::empty()]));
    lemma_lockstep_write(comp_init(), seq![Seq::<u8>::empty()], data);
}

// ---------------------------------------------------------------------------
// Round trip
// ---------------------------------------------------------------------------

/// The whole bit stream an encoder state stands for: the bytes already
/// flushed, followed by the bits still buffered in the sink.
pub open spec fn all_bits(s: CompView) -> Seq<bool> {
    bytes_bits(s.out) + s.bits
}

/// A decoder whose buffered input is exactly `bs`.
pub open spec fn dec_start(bs: Seq<bool>) -> DecView {
    DecView { bits: bs, ..dec_init() }
}

/// Packing a value at a width that holds it reads back exactly.
proof fn lemma_val_bits_exact(v: nat, w: nat)
    requires
        v < pow2(w),
    ensures
        bits_val(val_bits(v, w)) == v,
{
    lemma_val_bits_val(v, w);
    lemma_small_mod(v, pow2(w));
}

/// Flushing is transparent: emitting a field appends exactly its bits to
/// the stream the encoder state stands for.
proof fn lemma_emit_all_bits(s: CompView, v: u16, w: nat)
    ensures
        all_bits(emit(s, v, w)) == all_bits(s) + val_bits(v as nat, w),
{
    let b2 = s.bits + val_bits(v as nat, w);
    if b2.len() > 64 {
        let head = b2.take(64);
        assert(head.len() % 8 == 0);
        lemma_bytes_bits_concat(s.out, bits_bytes(head));
        lemma_bytes_bits_bits_bytes(head);
        assert(all_bits(emit(s, v, w)) =~= all_bits(s) + val_bits(v as nat, w));
    } else {
        assert(all_bits(emit(s, v, w)) =~= all_bits(s) + val_bits(v as nat, w));
    }
}

/// The coupling between an encoder state and the quiescent decoder that has
/// consumed exactly the stream emitted so far: dictionaries in lockstep,
/// no bits left over, the decoder's phase matching whether the zero-width
/// initial code field has been passed, and the decoded output being the
/// consumed input less the still-pending match.
pub open spec fn rt(e: CompView, q: DecView, consumed: Seq<u8>) -> bool {
    &&& comp_inv(e)
    &&& lockstep(e, q.table)
    &&& q.bits == Seq::<bool>::empty()
    &&& q.byte_phase == (e.max_code == 0)
    &&& (q.byte_phase ==> q.last == 0)
    &&& q.out + e.pending == consumed
}

/// An emitted code always fits the width it is sent at.
proof fn lemma_code_fits(c: nat, m: nat)
    requires
        c <= m,
    ensures
        c < pow2(min_bits_nat(m)),
{
    lemma_min_bits_monotonic(c, m);
    lemma_min_bits_iff(c, min_bits_nat(m));
}

/// Ingesting one byte preserves the coupling: the decoder, fed the bits
/// this byte caused, reaches the coupled quiescent state again.
proof fn lemma_rt_eat(e: CompView, q: DecView, consumed: Seq<u8>, b: u8) -> (q2: DecView)
    requires
        rt(e, q, consumed),
        dec_run(dec_start(all_bits(e))) == DecRun::Done(q),
        eat(e, b).max_code <= 0xFFFF,
    ensures
        rt(eat(e, b), q2, consumed.push(b)),
        dec_run(dec_start(all_bits(eat(e, b)))) == DecRun::Done(q2),
{
    let e2 = eat(e, b);
    lemma_eat_inv(e, b);
    if !eat_is_new(e, b) {
        assert(e2 =~= CompView { pending: e.pending.push(b), ..e });
        assert(q.out + e.pending.push(b) =~= consumed.push(b));
        q
    } else {
        let c = eat_code(e);
        let w = min_bits_nat(e.max_code);
        let m = e.max_code;
        let dt = q.table;
        let p2 = e.pending.push(b);
        // the stream gains exactly the code field and the literal field
        let s1 = CompView {
            table: e.table.insert(p2, (m + 1) as u16),
            max_code: m + 1,
            pending: Seq::empty(),
            ..e
        };
        lemma_emit_all_bits(s1, c, w);
        lemma_emit_all_bits(emit(s1, c, w), b as u16, 8);
        let ext = val_bits(c as nat, w) + val_bits(b as nat, 8);
        assert(all_bits(e2) =~= all_bits(e) + ext);
        // run the decoder over the appended bits
        lemma_dec_run_extend(dec_start(all_bits(e)), ext);
        assert(dec_start(all_bits(e2)) =~= DecView {
            bits: dec_start(all_bits(e)).bits + ext,
            ..dec_start(all_bits(e))
        });
        let qx = DecView { bits: q.bits + ext, ..q };
        assert(qx.bits =~= ext);
        assert(dec_run(dec_start(all_bits(e2))) == dec_run(qx));
        lemma_val_bits_len(c as nat, w);
        lemma_val_bits_len(b as nat, 8);
        lemma_code_fits(c as nat, m);
        lemma_val_bits_exact(c as nat, w);
        vstd::arithmetic::power2::lemma2_to64();
        lemma_val_bits_exact(b as nat, 8);
        // the pending match is what the emitted code expands to
        if e.pending.len() == 0 {
            assert(dt[c as int] =~= e.pending);
        } else {
            assert(e.table.dom().contains(e.pending));
        }
        assert(dt[c as int] == e.pending);
        lemma_lockstep_eat(e, dt, b);
        let dt2 = dt.push(dt[c as int].push(b));
        assert(dt[c as int].push(b) =~= p2);
        let q2 = DecView {
            table: dt2,
            last: c as nat,
            bits: Seq::empty(),
            byte_phase: false,
            out: q.out + e.pending + seq![b],
        };
        if m == 0 {
            // the zero-width code field was already consumed: only the
            // literal arrives
            assert(e.pending.len() == 0) by {
                if e.pending.len() > 0 {
                    assert(e.table.dom().contains(e.pending));
                }
            }
            assert(c == 0 && w == 0);
            assert(qx.bits =~= val_bits(b as nat, 8));
            assert(qx.bits.take(8) =~= val_bits(b as nat, 8));
            assert(qx.bits.skip(8) =~= Seq::<bool>::empty());
            let sb = DecView {
                table: qx.table.push(qx.table[qx.last as int].push(b)),
                bits: qx.bits.skip(8),
                byte_phase: false,
                out: qx.out.push(b),
                ..qx
            };
            assert(dec_run(qx) == dec_run(sb));
            assert(min_bits_nat(1) == 1);
            assert(dec_run(sb) == DecRun::Done(sb));
            assert(sb =~= q2);
        } else {
            // the decoder waits in the code phase: consume code, then byte
            assert(dec_width(qx) == w);
            assert(w >= 1);
            assert(qx.bits.take(w as int) =~= val_bits(c as nat, w));
            assert(qx.bits.skip(w as int) =~= val_bits(b as nat, 8));
            assert(c < dt.len());
            let sa = DecView {
                out: qx.out + qx.table[c as int],
                last: c as nat,
                bits: qx.bits.skip(w as int),
                byte_phase: true,
                ..qx
            };
            assert(dec_run(qx) == dec_run(sa));
            assert(sa.bits.take(8) =~= val_bits(b as nat, 8));
            assert(sa.bits.skip(8) =~= Seq::<bool>::empty());
            let sb = DecView {
                table: sa.table.push(sa.table[sa.last as int].push(b)),
                bits: sa.bits.skip(8),
                byte_phase: false,
                out: sa.out.push(b),
                ..sa
            };
            assert(dec_run(sa) == dec_run(sb));
            assert(dec_width(sb) == min_bits_nat(m + 1));
            lemma_min_bits_iff(m + 1, 0);
            vstd::arithmetic::power2::lemma2_to64();
            assert(dec_width(sb) >= 1);
            assert(dec_run(sb) == DecRun::Done(sb));
            assert(sb =~= q2);
        }
        assert(q2.out + e2.pending =~= consumed.push(b));
        q2
    }
}

/// The coupling survives a whole encode run.
proof fn lemma_rt_write(e: CompView, q: DecView, consumed: Seq<u8>, data: Seq<u8>) -> (q2: DecView)
    requires
        rt(e, q, consumed),
        dec_run(dec_start(all_bits(e))) == DecRun::Done(q),
        write_seq(e, data).max_code <= 0xFFFF,
    ensures
        rt(write_seq(e, data), q2, consumed + data),
        dec_run(dec_start(all_bits(write_seq(e, data)))) == DecRun::Done(q2),
    decreases data.len(),
{
    if data.len() == 0 {
        assert(consumed + data =~= consumed);
        q
    } else {
        let b = data[0];
        lemma_write_max_mono(eat(e, b), data.skip(1));
        let q1 = lemma_rt_eat(e, q, consumed, b);
        let q2 = lemma_rt_write(eat(e, b), q1, consumed.push(b), data.skip(1));
        assert(consumed.push(b) + data.skip(1) =~= consumed + data);
        q2
    }
}

/// Round trip: any byte sequence whose encode run stays within the 16-bit
/// code space decodes, from the encoder's finalized output, to exactly
/// itself, with the decoder ending quiescent rather than failing.
pub proof fn lemma_round_trip(x: Seq<u8>)
    requires
        write_seq(comp_init(), x).max_code <= 0xFFFF,
    ensures
        dec_feed(dec_init(), finalize_out(write_seq(comp_init(), x))) matches DecRun::Done(t)
            && t.out == x,
{
    let e0 = comp_init();
    let q0 = DecView {
        table: seq![Seq::<u8>::empty()],
        last: 0,
        bits: Seq::empty(),
        byte_phase: true,
        out: Seq::empty(),
    };
    // a fresh decoder steps through the zero-width initial code field
    assert(all_bits(e0) =~= Seq::<bool>::empty());
    assert(min_bits_nat(0) == 0);
    let d0 = dec_start(all_bits(e0));
    assert(d0.bits.take(0) =~= Seq::<bool>::empty());
    assert(bits_val(Seq::<bool>::empty()) == 0);
    let d0b = DecView {
        out: d0.out + d0.table[0],
        last: 0,
        bits: d0.bits.skip(0),
        byte_phase: true,
        ..d0
    };
    assert(dec_run(d0) == dec_run(d0b));
    assert(dec_run(d0b) == DecRun::Done(d0b));
    assert(d0b =~= q0);
    assert(lockstep(e0, q0.table));
    assert(q0.out + e0.pending =~= Seq::<u8>::empty());
    assert(rt(e0, q0, Seq::empty()));
    let q = lemma_rt_write(e0, q0, Seq::empty(), x);
    let e = write_seq(e0, x);
    assert(Seq::<u8>::empty() + x =~= x);
    // finalize: the trailing code field and the zero padding
    let f = fin_state(e);
    let p = pad_len(f.bits.len());
    let padded = f.bits + zeros(p);
    assert(padded.len() % 8 == 0);
    assert(finalize_out(e) == f.out + bits_bytes(padded));
    lemma_bytes_bits_concat(f.out, bits_bytes(padded));
    lemma_bytes_bits_bits_bytes(padded);
    assert(bytes_bits(finalize_out(e)) =~= all_bits(f) + zeros(p));
    let tail: Seq<bool> = if e.pending.len() == 0 {
        zeros(p)
    } else {
        val_bits(e.table[e.pending] as nat, min_bits_nat(e.max_code)) + zeros(p)
    };
    if e.pending.len() > 0 {
        lemma_emit_all_bits(e, e.table[e.pending], min_bits_nat(e.max_code));
    }
    assert(bytes_bits(finalize_out(e)) =~= all_bits(e) + tail);
    lemma_dec_run_extend(dec_start(all_bits(e)), tail);
    assert(dec_start(bytes_bits(finalize_out(e))) =~= DecView {
        bits: dec_start(all_bits(e)).bits + tail,
        ..dec_start(all_bits(e))
    });
    let qt = DecView { bits: q.bits + tail, ..q };
    assert(qt.bits =~= tail);
    assert(dec_feed(dec_init(), finalize_out(e)) == dec_run(qt)) by {
        assert(dec_extend(dec_init(), finalize_out(e)) =~= dec_start(bytes_bits(finalize_out(e))));
    }
    let m = e.max_code;
    let w = min_bits_nat(m);
    if e.pending.len() == 0 {
        assert(q.out =~= x);
        if m == 0 {
            // nothing was ever emitted: the decoder waits for a literal
            assert(e.bits =~= Seq::<bool>::empty()) by {
                lemma_all_bits_empty_when_no_codes(e0, x);
            }
            assert(p == 0);
            assert(qt.bits =~= Seq::<bool>::empty());
            assert(dec_run(qt) == DecRun::Done(qt));
            assert(qt.out == x);
        } else {
            assert(dec_width(qt) == w);
            if p < w {
                assert(dec_run(qt) == DecRun::Done(qt));
                assert(qt.out == x);
            } else {
                // the padding is wide enough to read as one more code: it
                // is all zeros, so it expands to the empty entry
                assert(qt.bits.take(w as int) =~= zeros(p).take(w as int));
                lemma_bits_val_zeros_take(p, w);
                assert(bits_val(qt.bits.take(w as int)) == 0);
                let sa = DecView {
                    out: qt.out + qt.table[0],
                    last: 0,
                    bits: qt.bits.skip(w as int),
                    byte_phase: true,
                    ..qt
                };
                assert(dec_run(qt) == dec_run(sa));
                assert(sa.bits.len() == p - w < 8);
                assert(dec_run(sa) == DecRun::Done(sa));
                assert(sa.out =~= x);
            }
        }
    } else {
        // the trailing code expands to the pending match
        let c = e.table[e.pending];
        assert(comp_inv(e));
        assert(1 <= c as nat <= m);
        assert(q.byte_phase == false);
        assert(dec_width(qt) == w);
        lemma_val_bits_len(c as nat, w);
        assert(qt.bits.take(w as int) =~= val_bits(c as nat, w));
        assert(qt.bits.skip(w as int) =~= zeros(p));
        lemma_code_fits(c as nat, m);
        lemma_val_bits_exact(c as nat, w);
        assert(c < qt.table.len());
        assert(qt.table[c as int] == e.pending);
        let sa = DecView {
            out: qt.out + qt.table[c as int],
            last: c as nat,
            bits: qt.bits.skip(w as int),
            byte_phase: true,
            ..qt
        };
        assert(dec_run(qt) == dec_run(sa));
        assert(sa.bits.len() == p < 8);
        assert(dec_run(sa) == DecRun::Done(sa));
        assert(sa.out =~= x);
    }
}

/// While no dictionary entry has been minted, nothing has been emitted.
proof fn lemma_all_bits_empty_when_no_codes(e: CompView, data: Seq<u8>)
    requires
        all_bits(e).len() == 0,
    ensures
        write_seq(e, data).max_code == 0 ==> all_bits(write_seq(e, data)).len() == 0,
    decreases data.len(),
{
    if data.len() > 0 {
        let b = data[0];
        if eat_is_new(e, b) {
            lemma_write_max_mono(eat(e, b), data.skip(1));
        } else {
            lemma_all_bits_empty_when_no_codes(eat(e, b), data.skip(1));
        }
    }
}

} // verus!
