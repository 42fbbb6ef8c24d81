use vstd::prelude::*;
use crate::arith::{exp2, lemma_exp2_adds, lemma_exp2_monotone, lemma_exp2_pos, lemma_exp2_values, lemma_sum_scale, lemma_sum_zero_tail};
use crate::bits::{Bits, bit_at, bits_value};
use crate::canonical::{
    MAX_CODE_LEN, canon_code, canonical_order, compute_decodings, compute_encodings, decodes_to,
    is_code_prefix, kraft_sum, before, kraft_term, len_at, lens_bounded, lens_valid, share, lemma_code_fits,
    lemma_order,
};
use crate::lengths::{MAX_SYMBOLS, active_count, compute_canonical_lens, huffman_lens, lens_for_weights};

verus! {

/// Encodes symbols with the canonical code built from their weights.
pub struct HuffmanEncoder {
    canonical_lens: Vec<u8>,
    encodings: Vec<u16>,
}

/// Decodes symbols of a canonical code rebuilt from its length table.
pub struct HuffmanDecoder {
    canonical_lens: Vec<u8>,
    canonical_lens_max: u8,
    decodings: Vec<u16>,
}

/// `codes` holds the canonical code of each symbol of the length table
/// `lens`, and 0 for unused symbols.
pub open spec fn codes_of(lens: Seq<u8>, codes: Seq<u16>) -> bool {
    &&& codes.len() == lens.len()
    &&& forall|k: int|
        0 <= k < canonical_order(lens).len() ==> codes[#[trigger] canonical_order(lens)[k] as int]
            == canon_code(lens, k as nat)
    &&& forall|s: int| 0 <= s < lens.len() && lens[s] == 0 ==> #[trigger] codes[s] == 0
}

impl HuffmanEncoder {
    /// The code length of each symbol (0 for an unused one).
    pub closed spec fn lens(&self) -> Seq<u8> {
        self.canonical_lens@
    }

    /// The code of each symbol.
    pub closed spec fn codes(&self) -> Seq<u16> {
        self.encodings@
    }

    /// The codes are the canonical codes of the lengths.
    pub open spec fn wf(&self) -> bool {
        &&& lens_valid(self.lens())
        &&& self.lens().len() <= MAX_SYMBOLS
        &&& codes_of(self.lens(), self.codes())
    }

    /// Builds the length-limited canonical code for the symbol weights (see
    /// `compute_canonical_lens`); `None` when no code of at most
    /// `canonical_lens_max` bits is found for the active symbols.
    pub fn from_symbol_weights(symbol_weights: &[u32], canonical_lens_max: u8) -> (r: Option<
        HuffmanEncoder,
    >)
        requires
            symbol_weights@.len() <= MAX_SYMBOLS,
            1 <= canonical_lens_max <= MAX_CODE_LEN,
        ensures
            r is None <==> huffman_lens(symbol_weights@, canonical_lens_max as nat) is None,
            r is None ==> active_count(symbol_weights@) >= 2,
            r matches Some(e) ==> {
                &&& e.wf()
                &&& huffman_lens(symbol_weights@, canonical_lens_max as nat) == Some(e.lens())
                &&& lens_for_weights(symbol_weights@, canonical_lens_max as nat, e.lens())
            },
    {
        let lens = compute_canonical_lens(symbol_weights, canonical_lens_max);
        match lens {
            None => None,
            Some(canonical_lens) => {
                proof {
                    lemma_weights_lens_valid(symbol_weights@, canonical_lens_max as nat, canonical_lens@);
                }
                let encodings = compute_encodings(canonical_lens.as_slice());
                Some(HuffmanEncoder { canonical_lens, encodings })
            },
        }
    }

    /// The code length table, to be handed to a decoder.
    pub fn get_canonical_lens(&self) -> (r: &[u8])
        ensures
            r@ == self.lens(),
    {
        self.canonical_lens.as_slice()
    }

    /// Writes the code of `symbol`: its length in bits, most significant first.
    pub fn encode_to_bits(&self, symbol: u16, bits: &mut Bits)
        requires
            self.wf(),
            symbol < self.lens().len(),
            self.lens()[symbol as int] >= 1,
            old(bits).stream().len() + MAX_CODE_LEN <= usize::MAX,
        ensures
            final(bits).stream().len() == old(bits).stream().len() + self.lens()[symbol as int],
            final(bits).stream().subrange(0, old(bits).stream().len() as int) == old(bits).stream(),
            bits_value(
                final(bits).stream(),
                old(bits).stream().len() as int,
                self.lens()[symbol as int] as nat,
            ) == self.codes()[symbol as int],
            final(bits).cursor() == old(bits).cursor(),
    {
        proof {
            lemma_code_below_len(self.lens(), self.codes(), symbol as int);
        }
        let bits_len = self.canonical_lens[symbol as usize];
        let bs = self.encodings[symbol as usize];
        bits.put(bits_len, bs as u64);
    }
}

impl HuffmanDecoder {
    /// The code length of each symbol (0 for an unused one).
    pub closed spec fn lens(&self) -> Seq<u8> {
        self.canonical_lens@
    }

    /// The longest code length: the width of the decode table.
    pub closed spec fn max_len(&self) -> nat {
        self.canonical_lens_max as nat
    }

    /// The decode table: slot `b` holds the symbol whose code is a prefix of
    /// the `max_len`-bit value `b`.
    pub closed spec fn table(&self) -> Seq<u16> {
        self.decodings@
    }

    /// The table is the decode table of the lengths, and its every slot
    /// names a symbol of the table.
    pub open spec fn wf(&self) -> bool {
        &&& lens_valid(self.lens())
        &&& 1 <= self.lens().len() <= MAX_SYMBOLS
        &&& lens_bounded(self.lens(), self.max_len())
        &&& self.max_len() <= MAX_CODE_LEN
        &&& self.table().len() == exp2(self.max_len())
        &&& forall|b: int|
            0 <= b < self.table().len() ==> #[trigger] decodes_to(
                self.lens(),
                self.max_len(),
                self.table(),
                b,
            )
        &&& forall|b: int| 0 <= b < self.table().len() ==> #[trigger] self.table()[b] < self.lens().len()
        &&& exists|s: int| 0 <= s < self.lens().len() && self.lens()[s] as nat == self.max_len()
    }

    /// The symbol that decoding reads at bit `pos` of `stream`: the table
    /// slot of the next `max_len` bits.
    pub open spec fn decoded(&self, stream: Seq<bool>, pos: int) -> u16 {
        self.table()[bits_value(stream, pos, self.max_len()) as int]
    }

    /// Rebuilds the code from its length table: the longest length is the
    /// table's width, and each slot holds the symbol whose code is a prefix
    /// of the slot's bits.
    pub fn from_canonical_lens(canonical_lens: &[u8]) -> (r: HuffmanDecoder)
        requires
            1 <= canonical_lens@.len() <= MAX_SYMBOLS,
            lens_valid(canonical_lens@),
        ensures
            r.wf(),
            r.lens() == canonical_lens@,
    {
        let mut canonical_lens_max: u8 = 0;
        let mut i: usize = 0;
        while i < canonical_lens.len()
            invariant
                i <= canonical_lens@.len(),
                forall|s: int| 0 <= s < i ==> #[trigger] canonical_lens@[s] <= canonical_lens_max,
                i == 0 ==> canonical_lens_max == 0,
                i > 0 ==> exists|s: int| 0 <= s < i && canonical_lens@[s] == canonical_lens_max,
            decreases canonical_lens@.len() - i,
        {
            if canonical_lens[i] > canonical_lens_max {
                canonical_lens_max = canonical_lens[i];
            }
            i = i + 1;
        }
        proof {
            assert(canonical_lens_max <= MAX_CODE_LEN) by {
                let s = choose|s: int| 0 <= s < canonical_lens@.len() && canonical_lens@[s] == canonical_lens_max;
                assert(lens_bounded(canonical_lens@, MAX_CODE_LEN as nat));
                assert(canonical_lens@[s] as nat <= MAX_CODE_LEN);
            }
        }
        let encodings = compute_encodings(canonical_lens);
        let decodings = compute_decodings(canonical_lens, encodings.as_slice(), canonical_lens_max);
        let r = HuffmanDecoder {
            canonical_lens: copy_bytes(canonical_lens),
            canonical_lens_max,
            decodings,
        };
        proof {
            lemma_table_names_symbols(canonical_lens@, canonical_lens_max as nat, decodings@);
        }
        r
    }

    /// Reads one symbol: looks up the next `max_len` bits without consuming
    /// them, then moves the cursor past that symbol's code only. The code
    /// must have a symbol, and the stream must hold at least `max_len` bits
    /// from the cursor on (a writer pads its tail to make sure of that).
    pub fn decode_from_bits(&self, bits: &mut Bits) -> (r: u16)
        requires
            self.wf(),
            exists|s: int| 0 <= s < self.lens().len() && self.lens()[s] > 0,
            old(bits).cursor() + self.max_len() <= old(bits).stream().len(),
            old(bits).cursor() + MAX_CODE_LEN <= usize::MAX,
        ensures
            r == self.decoded(old(bits).stream(), old(bits).cursor() as int),
            r < self.lens().len(),
            self.lens()[r as int] >= 1,
            final(bits).cursor() == old(bits).cursor() + self.lens()[r as int],
            final(bits).cursor() <= final(bits).stream().len(),
            final(bits).stream() == old(bits).stream(),
    {
        let v = bits.peek(self.canonical_lens_max);
        proof {
            lemma_bits_value_bound(bits.stream(), bits.cursor() as int, self.max_len());
            lemma_exp2_monotone(self.max_len(), 16);
            lemma_exp2_values();
            assert(v < 65536);
        }
        let symbol = self.decodings[v as usize];
        let len = self.canonical_lens[symbol as usize];
        proof {
            assert(self.lens()[symbol as int] as nat <= MAX_CODE_LEN);
            lemma_decoded_is_active(self, v as int);
        }
        bits.skip(len);
        symbol
    }
}

/// A vector holding the bytes of a slice.
fn copy_bytes(x: &[u8]) -> (r: Vec<u8>)
    ensures
        r@ == x@,
{
    let mut r: Vec<u8> = Vec::new();
    let mut i: usize = 0;
    while i < x.len()
        invariant
            i <= x@.len(),
            r@ == x@.subrange(0, i as int),
        decreases x@.len() - i,
    {
        r.push(x[i]);
        i = i + 1;
        assert(r@ =~= x@.subrange(0, i as int));
    }
    assert(x@.subrange(0, x@.len() as int) =~= x@);
    r
}

/// In the decode table of a code with at least one symbol, every slot
/// names a symbol that has a code.
pub proof fn lemma_decoded_is_active(dec: &HuffmanDecoder, b: int)
    requires
        dec.wf(),
        exists|s: int| 0 <= s < dec.lens().len() && dec.lens()[s] > 0,
        0 <= b < dec.table().len(),
    ensures
        dec.lens()[dec.table()[b] as int] >= 1,
{
    let lens = dec.lens();
    let w = dec.max_len();
    let table = dec.table();
    lemma_order(lens);
    let o = canonical_order(lens);
    let s = choose|s: int| 0 <= s < lens.len() && lens[s] > 0;
    assert(o.contains(s as nat));
    assert(o.len() > 0);
    assert(decodes_to(lens, w, table, b));
    if b < crate::canonical::code_prefix(lens, w, o.len()) {
        crate::canonical::lemma_code_prefix_cover(lens, w, o.len(), b);
        let j = choose|j: nat|
            j < o.len() && #[trigger] crate::canonical::code_prefix(lens, w, j) <= b
                < crate::canonical::code_prefix(lens, w, (j + 1) as nat);
        crate::canonical::lemma_code_scaled(lens, w, j);
        let c = canon_code(lens, j);
        let e = share(w, len_at(lens, j as int));
        assert((c + 1) * e == c * e + e) by (nonlinear_arith);
        assert(is_code_prefix(c, len_at(lens, j as int), w, b));
        assert(table[b] as nat == o[j as int]);
    } else {
        assert(table[b] as nat == o[0]);
    }
}

/// The value of `n` bits is below `2^n`.
pub proof fn lemma_bits_value_bound(s: Seq<bool>, start: int, n: nat)
    ensures
        bits_value(s, start, n) < exp2(n),
    decreases n,
{
    if n > 0 {
        lemma_bits_value_bound(s, start, (n - 1) as nat);
    }
}

/// Every slot of a decode table names a symbol of the length table.
proof fn lemma_table_names_symbols(lens: Seq<u8>, w: nat, table: Seq<u16>)
    requires
        lens_valid(lens),
        1 <= lens.len(),
        lens_bounded(lens, w),
        w <= MAX_CODE_LEN,
        forall|b: int| 0 <= b < table.len() ==> #[trigger] decodes_to(lens, w, table, b),
    ensures
        forall|b: int| 0 <= b < table.len() ==> #[trigger] table[b] < lens.len(),
{
    lemma_order(lens);
    let o = canonical_order(lens);
    assert forall|b: int| 0 <= b < table.len() implies #[trigger] table[b] < lens.len() by {
        assert(decodes_to(lens, w, table, b));
        if b < crate::canonical::code_prefix(lens, w, o.len()) {
            crate::canonical::lemma_code_prefix_cover(lens, w, o.len(), b);
            let j = choose|j: nat|
                j < o.len() && #[trigger] crate::canonical::code_prefix(lens, w, j) <= b
                    < crate::canonical::code_prefix(lens, w, (j + 1) as nat);
            crate::canonical::lemma_code_scaled(lens, w, j);
            let c = canon_code(lens, j);
            let e = share(w, len_at(lens, j as int));
            assert((c + 1) * e == c * e + e) by (nonlinear_arith);
            assert(is_code_prefix(c, len_at(lens, j as int), w, b));
            assert(table[b] as nat == o[j as int]);
        } else if o.len() > 0 {
            assert(o[0] < lens.len());
        }
    }
}

/// Reading `l + m` bits is reading the first `l`, then the next `m`.
pub proof fn lemma_bits_value_split(s: Seq<bool>, start: int, l: nat, m: nat)
    ensures
        bits_value(s, start, l + m) == bits_value(s, start, l) * exp2(m) + bits_value(
            s,
            start + l,
            m,
        ),
    decreases m,
{
    if m == 0 {
        assert(exp2(0) == 1);
        assert(bits_value(s, start + l, 0) == 0);
        assert(l + 0 == l);
    } else {
        lemma_bits_value_split(s, start, l, (m - 1) as nat);
        let a = bits_value(s, start, l);
        let t = bits_value(s, start + l, (m - 1) as nat);
        let e = exp2((m - 1) as nat);
        assert((l + m - 1) as nat == l + (m - 1) as nat);
        assert(bits_value(s, start, l + m) == 2 * bits_value(s, start, (l + m - 1) as nat) + bit_at(
            s,
            start + (l + m) - 1,
        ));
        assert(bits_value(s, start + l, m) == 2 * t + bit_at(s, start + l + m - 1));
        assert(2 * (a * e + t) == a * (2 * e) + 2 * t) by (nonlinear_arith);
    }
}

/// Round trip: where the bits at `pos` begin with the code of an active
/// symbol (as `encode_to_bits` writes it), a decoder rebuilt from the
/// encoder's lengths reads that symbol there; `decode_from_bits` then moves
/// the cursor past exactly that symbol's length.
pub proof fn lemma_round_trip(
    enc: &HuffmanEncoder,
    dec: &HuffmanDecoder,
    symbol: int,
    stream: Seq<bool>,
    pos: int,
)
    requires
        enc.wf(),
        dec.wf(),
        dec.lens() == enc.lens(),
        0 <= symbol < enc.lens().len(),
        enc.lens()[symbol] >= 1,
        bits_value(stream, pos, enc.lens()[symbol] as nat) == enc.codes()[symbol],
    ensures
        dec.decoded(stream, pos) == symbol,
{
    let lens = enc.lens();
    let w = dec.max_len();
    let l = lens[symbol] as nat;
    lemma_order(lens);
    let o = canonical_order(lens);
    assert(o.contains(symbol as nat));
    let k = choose|k: int| 0 <= k < o.len() && o[k] == symbol as nat;
    assert(enc.codes()[o[k] as int] == canon_code(lens, k as nat));
    assert(l <= w);
    let m = (w - l) as nat;
    assert(l + m == w);
    lemma_bits_value_split(stream, pos, l, m);
    lemma_bits_value_bound(stream, pos + l, m);
    lemma_bits_value_bound(stream, pos, w);
    let c = canon_code(lens, k as nat);
    let v = bits_value(stream, pos, w);
    let t = bits_value(stream, pos + l, m);
    assert(share(w, l) == exp2(m));
    assert(c * exp2(m) <= v < (c + 1) * exp2(m)) by (nonlinear_arith)
        requires
            v == c * exp2(m) + t,
            t < exp2(m),
    ;
    assert(is_code_prefix(c, len_at(lens, k), w, v as int));
    assert(decodes_to(lens, w, dec.table(), v as int));
}

/// Where the `j`-th symbol of `msg` starts when the codes of its symbols
/// are written one after another from bit `start`.
pub open spec fn message_pos(lens: Seq<u8>, msg: Seq<u16>, start: int, j: int) -> int
    decreases j,
{
    if j <= 0 {
        start
    } else {
        message_pos(lens, msg, start, j - 1) + lens[msg[j - 1] as int]
    }
}

/// Round trip of a message: where the codes of the active symbols of `msg`
/// stand one after another from bit `start` (as successive calls of
/// `encode_to_bits` write them), the decoder reads the `j`-th symbol at the
/// `j`-th position, and moving past its length lands on the next one.
pub proof fn lemma_round_trip_message(
    enc: &HuffmanEncoder,
    dec: &HuffmanDecoder,
    msg: Seq<u16>,
    stream: Seq<bool>,
    start: int,
)
    requires
        enc.wf(),
        dec.wf(),
        dec.lens() == enc.lens(),
        forall|i: int|
            0 <= i < msg.len() ==> {
                &&& #[trigger] msg[i] < enc.lens().len()
                &&& enc.lens()[msg[i] as int] >= 1
                &&& bits_value(
                    stream,
                    message_pos(enc.lens(), msg, start, i),
                    enc.lens()[msg[i] as int] as nat,
                ) == enc.codes()[msg[i] as int]
            },
    ensures
        forall|j: int|
            0 <= j < msg.len() ==> {
                &&& #[trigger] dec.decoded(stream, message_pos(enc.lens(), msg, start, j)) == msg[j]
                &&& message_pos(enc.lens(), msg, start, j + 1) == message_pos(enc.lens(), msg, start, j)
                    + dec.lens()[dec.decoded(stream, message_pos(enc.lens(), msg, start, j)) as int]
            },
{
    assert forall|j: int| 0 <= j < msg.len() implies {
        &&& #[trigger] dec.decoded(stream, message_pos(enc.lens(), msg, start, j)) == msg[j]
        &&& message_pos(enc.lens(), msg, start, j + 1) == message_pos(enc.lens(), msg, start, j)
            + dec.lens()[dec.decoded(stream, message_pos(enc.lens(), msg, start, j)) as int]
    } by {
        assert(msg[j] < enc.lens().len());
        lemma_round_trip(enc, dec, msg[j] as int, stream, message_pos(enc.lens(), msg, start, j));
    }
}

/// Decode table completeness: for a complete code (Kraft sum exactly 1),
/// every slot of the table lies under the code of exactly one symbol, and
/// holds that symbol.
pub proof fn lemma_table_complete(dec: &HuffmanDecoder, b: int)
    requires
        dec.wf(),
        kraft_sum(dec.lens(), MAX_CODE_LEN as nat) == exp2(MAX_CODE_LEN as nat),
        0 <= b < exp2(dec.max_len()),
    ensures
        exists|k: int|
            0 <= k < canonical_order(dec.lens()).len() && is_code_prefix(
                canon_code(dec.lens(), k as nat),
                len_at(dec.lens(), k),
                dec.max_len(),
                b,
            ) && dec.table()[b] as nat == #[trigger] canonical_order(dec.lens())[k],
        forall|j: int, k: int|
            0 <= j < canonical_order(dec.lens()).len() && 0 <= k < canonical_order(dec.lens()).len()
                && is_code_prefix(
                canon_code(dec.lens(), j as nat),
                len_at(dec.lens(), j),
                dec.max_len(),
                b,
            ) && is_code_prefix(
                canon_code(dec.lens(), k as nat),
                len_at(dec.lens(), k),
                dec.max_len(),
                b,
            ) ==> #[trigger] canonical_order(dec.lens())[j] == #[trigger] canonical_order(dec.lens())[k],
{
    let lens = dec.lens();
    let w = dec.max_len();
    let o = canonical_order(lens);
    lemma_order(lens);
    crate::canonical::lemma_code_prefix_total(lens, MAX_CODE_LEN as nat);
    crate::canonical::lemma_code_prefix_scale(lens, w, o.len());
    lemma_exp2_adds(w, (MAX_CODE_LEN - w) as nat);
    assert((w + (MAX_CODE_LEN - w) as nat) as nat == MAX_CODE_LEN as nat);
    lemma_exp2_pos((MAX_CODE_LEN - w) as nat);
    let p = crate::canonical::code_prefix(lens, w, o.len());
    let e = exp2((MAX_CODE_LEN - w) as nat);
    assert(p == exp2(w)) by (nonlinear_arith)
        requires
            p * e == exp2(w) * e,
            e >= 1,
    ;
    crate::canonical::lemma_code_prefix_cover(lens, w, o.len(), b);
    let j = choose|j: nat|
        j < o.len() && #[trigger] crate::canonical::code_prefix(lens, w, j) <= b
            < crate::canonical::code_prefix(lens, w, (j + 1) as nat);
    crate::canonical::lemma_code_scaled(lens, w, j);
    let c = canon_code(lens, j);
    let sh = share(w, len_at(lens, j as int));
    assert((c + 1) * sh == c * sh + sh) by (nonlinear_arith);
    assert(is_code_prefix(c, len_at(lens, j as int), w, b));
    assert(decodes_to(lens, w, dec.table(), b));
    assert(dec.table()[b] as nat == o[j as int]);
    assert forall|x: int, y: int|
        0 <= x < o.len() && 0 <= y < o.len() && is_code_prefix(
            canon_code(lens, x as nat),
            len_at(lens, x),
            w,
            b,
        ) && is_code_prefix(canon_code(lens, y as nat), len_at(lens, y), w, b) implies #[trigger] o[x]
        == #[trigger] o[y] by {
        if x < y {
            crate::canonical::lemma_codes_ascending(lens, w, x as nat, y as nat);
            let cx = canon_code(lens, x as nat);
            let sx = share(w, len_at(lens, x));
            assert((cx + 1) * sx == cx * sx + sx) by (nonlinear_arith);
        } else if y < x {
            crate::canonical::lemma_codes_ascending(lens, w, y as nat, x as nat);
            let cy = canon_code(lens, y as nat);
            let sy = share(w, len_at(lens, y));
            assert((cy + 1) * sy == cy * sy + sy) by (nonlinear_arith);
        }
    }
}

/// A code of one symbol: the table is one bit wide and either bit value
/// decodes to that symbol (which then consumes its one bit).
pub proof fn lemma_single_symbol(dec: &HuffmanDecoder, symbol: int, b: int)
    requires
        dec.wf(),
        0 <= symbol < dec.lens().len(),
        dec.lens()[symbol] == 1,
        forall|t: int| 0 <= t < dec.lens().len() && t != symbol ==> #[trigger] dec.lens()[t] == 0,
        0 <= b < 2,
    ensures
        dec.max_len() == 1,
        dec.table()[b] == symbol,
{
    let lens = dec.lens();
    let w = dec.max_len();
    let s = choose|s: int| 0 <= s < lens.len() && lens[s] as nat == w;
    assert(lens[symbol] as nat <= w);
    assert(w == 1);
    lemma_order(lens);
    let o = canonical_order(lens);
    assert(o.contains(symbol as nat));
    assert forall|k: int| 0 <= k < o.len() implies #[trigger] o[k] == symbol as nat by {
        assert(1 <= lens[o[k] as int]);
    }
    if o.len() >= 2 {
        assert(before(lens, o[0], o[1]));
    }
    assert(o.len() == 1);
    assert(len_at(lens, 0) == 1);
    assert(canon_code(lens, 0) == 0);
    lemma_exp2_values();
    assert(share(1, 1) == 1);
    assert(decodes_to(lens, w, dec.table(), b));
    assert(crate::canonical::code_prefix(lens, 1, 1) == 1) by {
        assert(crate::canonical::code_prefix(lens, 1, 0) == 0);
    }
    if b == 0 {
        assert(is_code_prefix(0, 1, 1, 0));
    }
}

/// A symbol's code fits in the symbol's length.
pub proof fn lemma_code_below_len(lens: Seq<u8>, codes: Seq<u16>, s: int)
    requires
        lens_valid(lens),
        codes_of(lens, codes),
        0 <= s < lens.len(),
        lens[s] >= 1,
    ensures
        codes[s] < exp2(lens[s] as nat),
        lens[s] <= MAX_CODE_LEN,
{
    lemma_order(lens);
    let o = canonical_order(lens);
    assert(o.contains(s as nat));
    let k = choose|k: int| 0 <= k < o.len() && o[k] == s as nat;
    lemma_code_fits(lens, k as nat);
}

/// A table built for weights can be turned into canonical codes.
proof fn lemma_weights_lens_valid(w: Seq<u32>, max_len: nat, lens: Seq<u8>)
    requires
        lens_for_weights(w, max_len, lens),
        max_len <= MAX_CODE_LEN,
        w.len() <= MAX_SYMBOLS,
    ensures
        lens_valid(lens),
        lens.len() <= MAX_SYMBOLS,
{
    let m = MAX_CODE_LEN as nat;
    assert(lens_bounded(lens, m));
    lemma_exp2_values();
    if active_count(w) < 2 {
        let ind = |x: int| if 0 <= x < w.len() && w[x] > 0 { 1int } else { 0int };
        let kt = |x: int| kraft_term(lens, m, x);
        assert forall|x: int| 0 <= x < w.len() implies #[trigger] kt(x) == ind(x) * exp2(15) by {
            if w[x] > 0 {
                assert(lens[x] == 1);
                assert(share(m, 1) == exp2(15));
            }
        }
        lemma_sum_scale(ind, kt, exp2(15) as int, w.len() as int);
        lemma_sum_zero_tail(kt, w.len() as int, lens.len() as int);
        assert(kraft_sum(lens, m) == active_count(w) * exp2(15));
    }
    assert(lens.len() <= MAX_SYMBOLS) by {
        assert(MAX_SYMBOLS % 2 == 0);
    }
}

} // verus!
