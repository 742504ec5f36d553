use vstd::prelude::*;
use crate::bits::{
    bits_val, val_bits, bits_bytes, pad_len, zeros, push_low_bits, peek_bits, drop_front,
    lemma_val_bits_len, lemma_bits_bytes_concat, lemma_bits_val_bound, lemma_bits_bytes_single,
};
use crate::code::{Code, min_bits_nat, lemma_min_bits_u16};
use crate::dict::{trie_entries, trie_new, trie_get, trie_insert};
use crate::error::Error;
use vstd::arithmetic::power2::lemma2_to64;

verus! {

/// The abstract state of an encode session: the dictionary, the running
/// max-code, the pending-match buffer, the bit sink and the bytes flushed
/// so far.
#[verifier::ext_equal]
pub ghost struct CompView {
    pub table: Map<Seq<u8>, u16>,
    pub max_code: nat,
    pub pending: Seq<u8>,
    pub bits: Seq<bool>,
    pub out: Seq<u8>,
}

/// A fresh encode session: everything empty, no code assigned yet.
pub open spec fn comp_init() -> CompView {
    CompView {
        table: Map::empty(),
        max_code: 0,
        pending: Seq::empty(),
        bits: Seq::empty(),
        out: Seq::empty(),
    }
}

/// Append a field of `w` bits holding `v` to the bit sink; whenever the
/// sink exceeds 64 bits, its oldest 64 bits leave as eight bytes.
pub open spec fn emit(s: CompView, v: u16, w: nat) -> CompView {
    let b2 = s.bits + val_bits(v as nat, w);
    if b2.len() > 64 {
        CompView { bits: b2.skip(64), out: s.out + bits_bytes(b2.take(64)), ..s }
    } else {
        CompView { bits: b2, ..s }
    }
}

/// Whether ingesting `b` mints a new dictionary entry (the extended
/// pending match is not yet in the dictionary).
pub open spec fn eat_is_new(s: CompView, b: u8) -> bool {
    !s.table.dom().contains(s.pending.push(b))
}

/// The code emitted for a new entry: the code of the pending match, or
/// code 0 when the new entry is a single byte.
pub open spec fn eat_code(s: CompView) -> u16 {
    if s.pending.len() == 0 {
        0
    } else {
        s.table[s.pending]
    }
}

/// Ingest one byte: extend the pending match if the dictionary already
/// holds it, otherwise mint a new code for it, emit the pending match's
/// code at the width of the dictionary size before this insertion, then
/// the literal at eight bits, and clear the pending match.
pub open spec fn eat(s: CompView, b: u8) -> CompView {
    let p2 = s.pending.push(b);
    if !eat_is_new(s, b) {
        CompView { pending: p2, ..s }
    } else {
        let s1 = CompView {
            table: s.table.insert(p2, (s.max_code + 1) as u16),
            max_code: s.max_code + 1,
            pending: Seq::empty(),
            ..s
        };
        let s2 = emit(s1, eat_code(s), min_bits_nat(s.max_code));
        emit(s2, b as u16, 8)
    }
}

/// Ingest a whole byte sequence, front to back.
pub open spec fn write_seq(s: CompView, data: Seq<u8>) -> CompView
    decreases data.len(),
{
    if data.len() == 0 {
        s
    } else {
        write_seq(eat(s, data[0]), data.skip(1))
    }
}

/// The state after the trailing code field: if a pending match remains, its
/// (already assigned) code goes out at the width of the current max-code.
pub open spec fn fin_state(s: CompView) -> CompView {
    if s.pending.len() == 0 {
        s
    } else {
        emit(s, s.table[s.pending], min_bits_nat(s.max_code))
    }
}

/// The complete output of a session ended at state `s`: everything flushed
/// so far, the trailing code field, and the bit sink drained with zero
/// padding to the next byte boundary.
pub open spec fn finalize_out(s: CompView) -> Seq<u8> {
    let t = fin_state(s);
    t.out + bits_bytes(t.bits + zeros(pad_len(t.bits.len())))
}

/// The encoder's structural invariant: the bit sink stays within one flush
/// chunk, a non-empty pending match is always a dictionary entry, and every
/// assigned code lies in `1 ..= max_code`.
pub open spec fn comp_inv(s: CompView) -> bool {
    &&& s.bits.len() <= 64
    &&& (s.pending.len() > 0 ==> s.table.dom().contains(s.pending))
    &&& (forall|k: Seq<u8>|
        s.table.dom().contains(k) ==> 1 <= (#[trigger] s.table[k]) as nat <= s.max_code)
}

/// The running max-code never decreases.
pub proof fn lemma_write_max_mono(s: CompView, data: Seq<u8>)
    ensures
        s.max_code <= write_seq(s, data).max_code,
    decreases data.len(),
{
    if data.len() > 0 {
        lemma_write_max_mono(eat(s, data[0]), data.skip(1));
    }
}

/// An incremental LZ78 encoder. Bytes go in through `write` in chunks of
/// any size; compressed bytes accumulate internally and come out, with the
/// zero-padded tail of the bit stream, from `finalize`.
pub struct LZ78Compressor {
    table: radix_trie::Trie<Vec<u8>, u16>,
    max_code: Code,
    seq_buffer: Vec<u8>,
    bits: Vec<bool>,
    out: Vec<u8>,
}

impl View for LZ78Compressor {
    type V = CompView;

    closed spec fn view(&self) -> CompView {
        CompView {
            table: trie_entries(self.table),
            max_code: self.max_code.0 as nat,
            pending: self.seq_buffer@,
            bits: self.bits@,
            out: self.out@,
        }
    }
}

impl LZ78Compressor {
    pub open spec fn wf(&self) -> bool {
        comp_inv(self@)
    }

    /// Start a fresh encode session.
    pub fn new() -> (c: Self)
        ensures
            c.wf(),
            c@ == comp_init(),
    {
        let c = LZ78Compressor {
            table: trie_new(),
            max_code: Code(0),
            seq_buffer: Vec::new(),
            bits: Vec::new(),
            out: Vec::new(),
        };
        proof {
            assert(c@ =~= comp_init());
        }
        c
    }

    /// The compressed bytes flushed so far.
    pub fn output(&self) -> (r: &Vec<u8>)
        ensures
            r@ == self@.out,
    {
        &self.out
    }

    /// The running max-code: how many dictionary entries have been minted.
    pub fn max_code(&self) -> (r: Code)
        ensures
            r.0 as nat == self@.max_code,
    {
        self.max_code
    }

    /// Append one field to the bit sink and flush a 64-bit chunk as eight
    /// bytes if the sink now exceeds 64 bits.
    fn emit_field(&mut self, v: u16, w: usize)
        requires
            w <= 16,
            old(self)@.bits.len() <= 64,
        ensures
            final(self)@ == emit(old(self)@, v, w as nat),
            final(self)@.bits.len() <= 64,
    {
        push_low_bits(&mut self.bits, v, w);
        proof {
            lemma_val_bits_len(v as nat, w as nat);
        }
        if self.bits.len() > 64 {
            let ghost pre_out = self.out@;
            let ghost pre_bits = self.bits@;
            let mut k: usize = 0;
            while k < 8
                invariant
                    k <= 8,
                    self.bits@ == pre_bits,
                    pre_bits.len() > 64,
                    self.out@ == pre_out + bits_bytes(pre_bits.take(8 * k as int)),
                    self@.table == old(self)@.table,
                    self@.max_code == old(self)@.max_code,
                    self@.pending == old(self)@.pending,
                decreases 8 - k,
            {
                proof {
                    lemma_bits_val_bound(pre_bits.subrange(8 * k as int, 8 * k as int + 8));
                    lemma2_to64();
                }
                let b16 = peek_bits(&self.bits, 8 * k, 8);
                let byte: u8 = b16 as u8;
                self.out.push(byte);
                proof {
                    let a = pre_bits.take(8 * k as int);
                    let t = pre_bits.subrange(8 * k as int, 8 * k as int + 8);
                    lemma_bits_bytes_concat(a, t);
                    assert(pre_bits.take(8 * (k + 1) as int) =~= a + t);
                    lemma_bits_bytes_single(t);
                    assert(bits_bytes(t) =~= seq![byte]);
                    assert(self.out@ =~= pre_out + bits_bytes(pre_bits.take(8 * (k + 1) as int)));
                }
                k = k + 1;
            }
            drop_front(&mut self.bits, 64);
            proof {
                assert(pre_bits.take(64) =~= pre_bits.take(8 * 8int));
                assert(self@ =~= emit(old(self)@, v, w as nat));
            }
        } else {
            proof {
                assert(self@ =~= emit(old(self)@, v, w as nat));
            }
        }
    }

    /// Ingest one byte, as `eat` describes.
    fn eat_byte(&mut self, b: u8)
        requires
            old(self).wf(),
            eat(old(self)@, b).max_code <= 0xFFFF,
        ensures
            final(self).wf(),
            final(self)@ == eat(old(self)@, b),
            final(self)@.out.len() >= old(self)@.out.len(),
    {
        let c: u16 = if self.seq_buffer.len() == 0 {
            0
        } else {
            match trie_get(&self.table, &self.seq_buffer) {
                Some(cc) => cc,
                None => {
                    proof {
                        assert(false);
                    }
                    0
                },
            }
        };
        let w = self.max_code.min_bits();
        self.seq_buffer.push(b);
        match trie_get(&self.table, &self.seq_buffer) {
            Some(_) => {
                proof {
                    assert(self@ =~= eat(old(self)@, b));
                }
            },
            None => {
                let nc: u16 = self.max_code.0 + 1;
                self.max_code = Code(nc);
                let mut key: Vec<u8> = Vec::new();
                let mut i: usize = 0;
                while i < self.seq_buffer.len()
                    invariant
                        i <= self.seq_buffer@.len(),
                        key@ == self.seq_buffer@.take(i as int),
                    decreases self.seq_buffer@.len() - i,
                {
                    let x = self.seq_buffer[i];
                    key.push(x);
                    proof {
                        assert(key@ =~= self.seq_buffer@.take(i as int + 1));
                    }
                    i = i + 1;
                }
                proof {
                    assert(key@ =~= self.seq_buffer@);
                }
                trie_insert(&mut self.table, key, nc);
                self.seq_buffer.clear();
                self.emit_field(c, w);
                self.emit_field(b as u16, 8);
                proof {
                    assert(self@ =~= eat(old(self)@, b));
                    assert forall|k2: Seq<u8>| self@.table.dom().contains(k2) implies 1 <= (
                    #[trigger] self@.table[k2]) as nat <= self@.max_code by {
                        if k2 !== old(self)@.pending.push(b) {
                            assert(old(self)@.table.dom().contains(k2));
                        }
                    }
                }
            },
        }
    }

    /// Feed a chunk of input bytes. Returns how many compressed bytes were
    /// flushed out of the bit sink during this call; the rest stays
    /// buffered for later calls or for `finalize`.
    pub fn write(&mut self, data: &[u8]) -> (r: Result<usize, Error>)
        requires
            old(self).wf(),
            write_seq(old(self)@, data@).max_code <= 0xFFFF,
        ensures
            final(self).wf(),
            final(self)@ == write_seq(old(self)@, data@),
            r matches Ok(n) && old(self)@.out.len() + n == final(self)@.out.len(),
    {
        let start = self.out.len();
        let ghost s0 = self@;
        proof {
            assert(data@.skip(0) =~= data@);
        }
        let mut i: usize = 0;
        while i < data.len()
            invariant
                self.wf(),
                i <= data@.len(),
                start <= self@.out.len(),
                write_seq(self@, data@.skip(i as int)) == write_seq(s0, data@),
                write_seq(s0, data@).max_code <= 0xFFFF,
            decreases data@.len() - i,
        {
            let ghost pre = self@;
            let ghost rest = data@.skip(i as int);
            proof {
                assert(rest[0] == data@[i as int]);
                assert(rest.skip(1) =~= data@.skip(i as int + 1));
                lemma_write_max_mono(eat(pre, data@[i as int]), data@.skip(i as int + 1));
            }
            self.eat_byte(data[i]);
            i = i + 1;
        }
        proof {
            assert(data@.skip(data@.len() as int) =~= Seq::<u8>::empty());
        }
        Ok(self.out.len() - start)
    }

    /// End the session: emit the pending match's trailing code field, then
    /// drain the bit sink zero-padded to whole bytes. Returns how many
    /// bytes the final drain wrote, together with the session's complete
    /// compressed output.
    pub fn finalize(self) -> (r: Result<(usize, Vec<u8>), Error>)
        requires
            self.wf(),
        ensures
            r matches Ok(p) && p.1@ == finalize_out(self@) && p.0 + fin_state(self@).out.len()
                == p.1@.len(),
    {
        let mut this = self;
        let ghost s0 = this@;
        if this.seq_buffer.len() > 0 {
            let c: u16 = match trie_get(&this.table, &this.seq_buffer) {
                Some(cc) => cc,
                None => {
                    proof {
                        assert(false);
                    }
                    0
                },
            };
            let w = this.max_code.min_bits();
            this.emit_field(c, w);
        }
        proof {
            assert(this@ =~= fin_state(s0));
        }
        let ghost base_bits = this@.bits;
        let rem: usize = this.bits.len() % 8;
        if rem != 0 {
            let padn: usize = 8 - rem;
            let mut k: usize = 0;
            while k < padn
                invariant
                    k <= padn,
                    this.bits@ == base_bits + zeros(k as nat),
                    this@.out == fin_state(s0).out,
                    this@.table == fin_state(s0).table,
                decreases padn - k,
            {
                this.bits.push(false);
                proof {
                    assert(this.bits@ =~= base_bits + zeros(k as nat + 1));
                }
                k = k + 1;
            }
        }
        proof {
            if rem == 0 {
                assert(this.bits@ =~= base_bits + zeros(pad_len(base_bits.len())));
            }
            assert(this.bits@ == base_bits + zeros(pad_len(base_bits.len())));
            assert(this.bits@.len() % 8 == 0);
        }
        let base = this.out.len();
        let total = this.bits.len();
        let nbytes = total / 8;
        let ghost padded = this.bits@;
        let ghost pre_out = this.out@;
        let mut k: usize = 0;
        while k < nbytes
            invariant
                k <= nbytes,
                nbytes == padded.len() / 8,
                padded.len() % 8 == 0,
                this.bits@ == padded,
                this.out@ == pre_out + bits_bytes(padded.take(8 * k as int)),
            decreases nbytes - k,
        {
            proof {
                lemma_bits_val_bound(padded.subrange(8 * k as int, 8 * k as int + 8));
                lemma2_to64();
            }
            let b16 = peek_bits(&this.bits, 8 * k, 8);
            let byte: u8 = b16 as u8;
            this.out.push(byte);
            proof {
                let a = padded.take(8 * k as int);
                let t = padded.subrange(8 * k as int, 8 * k as int + 8);
                lemma_bits_bytes_concat(a, t);
                assert(padded.take(8 * (k + 1) as int) =~= a + t);
                lemma_bits_bytes_single(t);
                assert(bits_bytes(t) =~= seq![byte]);
                assert(this.out@ =~= pre_out + bits_bytes(padded.take(8 * (k + 1) as int)));
            }
            k = k + 1;
        }
        proof {
            assert(padded.take(8 * (padded.len() / 8) as int) =~= padded);
            assert(this.out@ == finalize_out(s0));
        }
        Ok((this.out.len() - base, this.out))
    }
}

} // verus!
