use vstd::prelude::*;
use crate::bits::{bits_val, val_bits, bytes_bits, push_byte_bits, take_bits, lemma_bytes_bits_concat};
use crate::code::{Code, min_bits_nat};
use crate::error::Error;

verus! {

/// The abstract state of a decode session: the code-indexed dictionary,
/// the last decoded code, the buffered input bits, which field the state
/// machine expects next, and the bytes decoded so far.
#[verifier::ext_equal]
pub ghost struct DecView {
    pub table: Seq<Seq<u8>>,
    pub last: nat,
    pub bits: Seq<bool>,
    pub byte_phase: bool,
    pub out: Seq<u8>,
}

/// A fresh decode session: the dictionary is seeded with code 0 mapped to
/// the empty sequence, and a code field is expected first.
pub open spec fn dec_init() -> DecView {
    DecView {
        table: seq![Seq::empty()],
        last: 0,
        bits: Seq::empty(),
        byte_phase: false,
        out: Seq::empty(),
    }
}

/// What a decode run ends in: quiescent (waiting for more input), or a
/// fatal code with no dictionary entry, with the state at that point.
pub ghost enum DecRun {
    Done(DecView),
    Bad(DecView, u16),
}

pub open spec fn dec_run_state(r: DecRun) -> DecView {
    match r {
        DecRun::Done(t) => t,
        DecRun::Bad(t, _) => t,
    }
}

/// The current code field width: the bits needed for the running max-code,
/// which is the dictionary's highest index.
pub open spec fn dec_width(s: DecView) -> nat {
    min_bits_nat((s.table.len() - 1) as nat)
}

/// Run the decoder state machine until it cannot make further progress.
/// Expecting a code: consume `dec_width` bits big-endian; an unknown code
/// is fatal, a known one sends its expansion to the output. Expecting a
/// byte: consume eight bits, grow the dictionary by the last expansion
/// extended with this literal, and output the literal.
pub open spec fn dec_run(s: DecView) -> DecRun
    decreases s.bits.len() + s.bits.len() + (if s.byte_phase {
        0int
    } else {
        1int
    }),
{
    if !s.byte_phase {
        let w = dec_width(s);
        if s.bits.len() < w {
            DecRun::Done(s)
        } else {
            let c = bits_val(s.bits.take(w as int));
            if c >= s.table.len() {
                DecRun::Bad(DecView { bits: s.bits.skip(w as int), ..s }, c as u16)
            } else {
                dec_run(
                    DecView {
                        out: s.out + s.table[c as int],
                        last: c,
                        bits: s.bits.skip(w as int),
                        byte_phase: true,
                        ..s
                    },
                )
            }
        }
    } else {
        if s.bits.len() < 8 {
            DecRun::Done(s)
        } else {
            let b = bits_val(s.bits.take(8)) as u8;
            dec_run(
                DecView {
                    table: s.table.push(s.table[s.last as int].push(b)),
                    bits: s.bits.skip(8),
                    byte_phase: false,
                    out: s.out.push(b),
                    ..s
                },
            )
        }
    }
}

/// The state after buffering a chunk of raw input bytes, before the state
/// machine runs.
pub open spec fn dec_extend(s: DecView, data: Seq<u8>) -> DecView {
    DecView { bits: s.bits + bytes_bits(data), ..s }
}

/// What one `read` call does: buffer the bytes, then run to quiescence.
pub open spec fn dec_feed(s: DecView, data: Seq<u8>) -> DecRun {
    dec_run(dec_extend(s, data))
}

/// The decoder's structural invariant: the seeded dictionary never empties
/// and the last decoded code always has an entry.
pub open spec fn dec_inv(s: DecView) -> bool {
    &&& 1 <= s.table.len() <= 0x10000
    &&& s.last < s.table.len()
}

/// The dictionary only grows while the machine runs.
pub proof fn lemma_dec_run_table_mono(s: DecView)
    ensures
        s.table.len() <= dec_run_state(dec_run(s)).table.len(),
    decreases s.bits.len() + s.bits.len() + (if s.byte_phase {
        0int
    } else {
        1int
    }),
{
    if !s.byte_phase {
        let w = dec_width(s);
        if s.bits.len() >= w {
            let c = bits_val(s.bits.take(w as int));
            if c < s.table.len() {
                lemma_dec_run_table_mono(
                    DecView {
                        out: s.out + s.table[c as int],
                        last: c,
                        bits: s.bits.skip(w as int),
                        byte_phase: true,
                        ..s
                    },
                );
            }
        }
    } else {
        if s.bits.len() >= 8 {
            let b = bits_val(s.bits.take(8)) as u8;
            lemma_dec_run_table_mono(
                DecView {
                    table: s.table.push(s.table[s.last as int].push(b)),
                    bits: s.bits.skip(8),
                    byte_phase: false,
                    out: s.out.push(b),
                    ..s
                },
            );
        }
    }
}

/// Whether the decoder is waiting for the literal of a half-read
/// transaction.
enum State {
    Code,
    Byte,
}

/// Make an owned copy of a byte vector.
fn copy_bytes(src: &Vec<u8>) -> (r: Vec<u8>)
    ensures
        r@ == src@,
{
    let mut r: Vec<u8> = Vec::new();
    let mut i: usize = 0;
    while i < src.len()
        invariant
            i <= src@.len(),
            r@ == src@.take(i as int),
        decreases src@.len() - i,
    {
        let x = src[i];
        r.push(x);
        proof {
            assert(r@ =~= src@.take(i as int + 1));
        }
        i = i + 1;
    }
    proof {
        assert(r@ =~= src@);
    }
    r
}

/// The deep view of a table of byte vectors indexes to each vector's view.
proof fn lemma_table_view(t: Vec<Vec<u8>>)
    ensures
        t.deep_view().len() == t@.len(),
        forall|i: int| 0 <= i < t@.len() ==> t.deep_view()[i] == t@[i]@,
{
    assert forall|i: int| 0 <= i < t@.len() implies t.deep_view()[i] == t@[i]@ by {
        assert(t@[i].deep_view() =~= t@[i]@);
    }
}

/// An incremental LZ78 decoder. Compressed bytes go in through `read` in
/// chunks of any size; decoded bytes accumulate internally and come out
/// from `finalize`.
pub struct LZ78Decompressor {
    table: Vec<Vec<u8>>,
    max_code: Code,
    last_code: Code,
    bits: Vec<bool>,
    state: State,
    out: Vec<u8>,
}

impl View for LZ78Decompressor {
    type V = DecView;

    closed spec fn view(&self) -> DecView {
        DecView {
            table: self.table.deep_view(),
            last: self.last_code.0 as nat,
            bits: self.bits@,
            byte_phase: self.state is Byte,
            out: self.out@,
        }
    }
}

impl LZ78Decompressor {
    pub closed spec fn wf(&self) -> bool {
        &&& dec_inv(self@)
        &&& self.max_code.0 as nat + 1 == self.table@.len()
    }

    /// Start a fresh decode session.
    pub fn new() -> (d: Self)
        ensures
            d.wf(),
            d@ == dec_init(),
    {
        let mut table: Vec<Vec<u8>> = Vec::new();
        table.push(Vec::new());
        let d = LZ78Decompressor {
            table,
            max_code: Code(0),
            last_code: Code(0),
            bits: Vec::new(),
            state: State::Code,
            out: Vec::new(),
        };
        proof {
            lemma_table_view(d.table);
            assert(d@.table =~~= seq![Seq::<u8>::empty()]);
            assert(d@ =~~= dec_init());
        }
        d
    }

    /// The decoded bytes produced so far.
    pub fn output(&self) -> (r: &Vec<u8>)
        ensures
            r@ == self@.out,
    {
        &self.out
    }

    /// Feed a chunk of compressed bytes and drive the state machine as far
    /// as the buffered bits allow. Returns how many decoded bytes this call
    /// produced, or the fatal `BadCode` if a consumed code field has no
    /// dictionary entry; an in-progress field merely waits for more input
    /// and is never surfaced.
    pub fn read(&mut self, data: &[u8]) -> (r: Result<usize, Error>)
        requires
            old(self).wf(),
            dec_run_state(dec_feed(old(self)@, data@)).table.len() <= 0x10000,
        ensures
            match dec_feed(old(self)@, data@) {
                DecRun::Done(t) => final(self).wf() && final(self)@ == t && (r matches Ok(n)
                    && old(self)@.out.len() + n == t.out.len()),
                DecRun::Bad(t, c) => final(self)@ == t && r == Err::<usize, Error>(
                    Error::BadCode(c),
                ),
            },
    {
        let ghost s0 = self@;
        let ghost target = dec_feed(s0, data@);
        let start = self.out.len();
        let mut i: usize = 0;
        while i < data.len()
            invariant
                i <= data@.len(),
                self@.bits == s0.bits + bytes_bits(data@.take(i as int)),
                self@.table == s0.table,
                self@.last == s0.last,
                self@.byte_phase == s0.byte_phase,
                self@.out == s0.out,
                self.wf(),
            decreases data@.len() - i,
        {
            push_byte_bits(&mut self.bits, data[i]);
            proof {
                let pre = data@.take(i as int);
                let one = seq![data@[i as int]];
                lemma_bytes_bits_concat(pre, one);
                assert(pre + one =~= data@.take(i as int + 1));
                assert(one.skip(1) =~= Seq::<u8>::empty());
                assert(bytes_bits(one.skip(1)) =~= Seq::<bool>::empty());
                assert(bytes_bits(one) =~= val_bits(data@[i as int] as nat, 8));
                assert(self@.bits =~= s0.bits + bytes_bits(data@.take(i as int + 1)));
            }
            i = i + 1;
        }
        proof {
            assert(data@.take(data@.len() as int) =~= data@);
            assert(self@ =~= dec_extend(s0, data@));
        }
        loop
            invariant
                self.wf(),
                s0 == old(self)@,
                target == dec_feed(s0, data@),
                dec_run(self@) == target,
                dec_run_state(target).table.len() <= 0x10000,
                s0.out.len() <= self@.out.len(),
                start == s0.out.len(),
            ensures
                self.wf(),
                target == DecRun::Done(self@),
                s0.out.len() <= self@.out.len(),
                start == s0.out.len(),
            decreases self@.bits.len() + self@.bits.len() + (if self@.byte_phase {
                0int
            } else {
                1int
            }),
        {
            let ghost u = self@;
            match self.state {
                State::Code => {
                    let w = self.max_code.min_bits();
                    proof {
                        assert(w as nat == dec_width(u));
                    }
                    if self.bits.len() < w {
                        proof {
                            assert(dec_run(self@) == DecRun::Done(self@));
                        }
                        break ;
                    }
                    let c = take_bits(&mut self.bits, w);
                    proof {
                        vstd::arithmetic::power2::lemma2_to64();
                        crate::bits::lemma_bits_val_bound(u.bits.take(w as int));
                        crate::code::lemma_min_bits_u16((u.table.len() - 1) as nat);
                    }
                    if (c as usize) >= self.table.len() {
                        proof {
                            assert(self@ =~= DecView { bits: u.bits.skip(w as int), ..u });
                            assert(dec_run(u) == DecRun::Bad(self@, c));
                        }
                        return Err(Error::BadCode(c));
                    }
                    let ci = c as usize;
                    let ghost pre_out = self.out@;
                    let n = self.table[ci].len();
                    let mut j: usize = 0;
                    while j < n
                        invariant
                            ci < self.table@.len(),
                            n == self.table@[ci as int]@.len(),
                            j <= n,
                            self.out@ == pre_out + self.table@[ci as int]@.take(j as int),
                            self@.table == u.table,
                            self@.bits == u.bits.skip(dec_width(u) as int),
                            self@.last == u.last,
                            self@.byte_phase == u.byte_phase,
                            self.wf(),
                        decreases n - j,
                    {
                        let x = self.table[ci][j];
                        self.out.push(x);
                        proof {
                            assert(self.out@ =~= pre_out + self.table@[ci as int]@.take(
                                j as int + 1,
                            ));
                        }
                        j = j + 1;
                    }
                    self.last_code = Code(c);
                    self.state = State::Byte;
                    proof {
                        assert(self@.table[c as int] == self.table@[ci as int]@);
                        assert(self.out@ =~= pre_out + self.table@[ci as int]@);
                        let v = DecView {
                            out: u.out + u.table[c as int],
                            last: c as nat,
                            bits: u.bits.skip(w as int),
                            byte_phase: true,
                            ..u
                        };
                        assert(self@ =~= v);
                        assert(dec_run(u) == dec_run(v));
                    }
                },
                State::Byte => {
                    if self.bits.len() < 8 {
                        proof {
                            assert(dec_run(self@) == DecRun::Done(self@));
                        }
                        break ;
                    }
                    let b16 = take_bits(&mut self.bits, 8);
                    proof {
                        vstd::arithmetic::power2::lemma2_to64();
                        crate::bits::lemma_bits_val_bound(u.bits.take(8));
                    }
                    let b = b16 as u8;
                    let li = self.last_code.0 as usize;
                    let mut entry = copy_bytes(&self.table[li]);
                    entry.push(b);
                    proof {
                        lemma_dec_run_table_mono(
                            DecView {
                                table: u.table.push(u.table[u.last as int].push(b)),
                                bits: u.bits.skip(8),
                                byte_phase: false,
                                out: u.out.push(b),
                                ..u
                            },
                        );
                    }
                    self.table.push(entry);
                    self.max_code = Code(self.max_code.0 + 1);
                    self.out.push(b);
                    self.state = State::Code;
                    proof {
                        let v = DecView {
                            table: u.table.push(u.table[u.last as int].push(b)),
                            bits: u.bits.skip(8),
                            byte_phase: false,
                            out: u.out.push(b),
                            ..u
                        };
                        lemma_table_view(self.table);
                        assert(self@.table =~~= v.table);
                        assert(self@ =~= v);
                        assert(dec_run(u) == dec_run(v));
                    }
                },
            }
        }
        Ok(self.out.len() - start)
    }

    /// End the session. No residual decode work is defined: this is a
    /// terminal no-op that hands back the decoded bytes.
    pub fn finalize(self) -> (r: Result<(usize, Vec<u8>), Error>)
        ensures
            r matches Ok(p) && p.0 == 0 && p.1@ == self@.out,
    {
        Ok((0usize, self.out))
    }
}

} // verus!
