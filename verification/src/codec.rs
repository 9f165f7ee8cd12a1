//! Frozen content-to-symbol transforms and the monic coefficient framing.
use vstd::arithmetic::div_mod::*;
use vstd::arithmetic::power::*;
use vstd::arithmetic::power2::*;
use vstd::prelude::*;

verus! {

/// Frozen content-to-symbol transform used by a cooked scheme.
#[derive(Clone, Copy, Debug, PartialEq, Eq, Structural)]
pub enum ContentCodecDescriptor {
    /// Canonical binary source alphabet: bytes are emitted MSB-first.
    BinaryMsb0,
    /// Canonical CTM-B9 checkpoint: affine byte map then three base-9 digits.
    CtmB9,
}

#[derive(Clone, Debug, PartialEq, Eq, Structural)]
pub enum CodecError {
    InvalidPrime(u32),
    InvalidSymbolCardinality(u32),
    SymbolOutOfRange { symbol: u32, cardinality: u32 },
    CardinalityOverflow,
}

/// The affine byte map of the CTM-B9 codec, a value below 729 = 9^3.
pub open spec fn ctm_value(b: u8) -> int {
    (17 * b + 17) % 729
}

/// Bit `j` (0 = most significant) of byte `b`.
pub open spec fn msb_bit(b: u8, j: int) -> u32 {
    ((b >> ((7 - j) as u8)) & 1u8) as u32
}

/// Source symbols of `bytes` under `codec`.
pub open spec fn codec_symbols(codec: ContentCodecDescriptor, bytes: Seq<u8>) -> Seq<u32> {
    match codec {
        ContentCodecDescriptor::BinaryMsb0 => Seq::new(
            (8 * bytes.len()) as nat,
            |k: int| msb_bit(bytes[k / 8], k % 8),
        ),
        ContentCodecDescriptor::CtmB9 => Seq::new(
            (3 * bytes.len()) as nat,
            |k: int|
                {
                    let v = ctm_value(bytes[k / 3]);
                    if k % 3 == 0 {
                        (v / 81) as u32
                    } else if k % 3 == 1 {
                        ((v / 9) % 9) as u32
                    } else {
                        (v % 9) as u32
                    }
                },
        ),
    }
}

/// Symbol alphabet size of each codec.
pub open spec fn codec_cardinality(codec: ContentCodecDescriptor) -> u32 {
    match codec {
        ContentCodecDescriptor::BinaryMsb0 => 2,
        ContentCodecDescriptor::CtmB9 => 9,
    }
}

/// Big-endian base-`p` digits of `s`, exactly `w` of them (higher digits dropped).
pub open spec fn be_digits(s: nat, p: nat, w: nat) -> Seq<u32> {
    Seq::new(w, |j: int| ((s / (pow(p as int, (w - 1 - j) as nat) as nat)) % p) as u32)
}

/// Concatenation of the `w`-digit encodings of every symbol.
pub open spec fn symbols_digits(symbols: Seq<u32>, p: nat, w: nat) -> Seq<u32>
    decreases symbols.len(),
{
    if symbols.len() == 0 {
        Seq::empty()
    } else {
        symbols_digits(symbols.drop_last(), p, w) + be_digits(symbols.last() as nat, p, w)
    }
}

/// `w` is the least positive width with `p^w >= m`.
pub open spec fn is_min_width(m: nat, p: nat, w: nat) -> bool {
    &&& w >= 1
    &&& pow(p as int, w) >= m
    &&& (w == 1 || pow(p as int, (w - 1) as nat) < m)
}

/// First index holding a symbol outside `0..m`, if any.
pub open spec fn first_out_of_range(symbols: Seq<u32>, m: u32, i: int) -> bool {
    &&& 0 <= i < symbols.len()
    &&& symbols[i] >= m
    &&& forall|j: int| 0 <= j < i ==> symbols[j] < m
}

pub open spec fn all_in_range(symbols: Seq<u32>, m: u32) -> bool {
    forall|j: int| 0 <= j < symbols.len() ==> symbols[j] < m
}

/// The framed coefficients of the CTM-B9 runtime codec: digits shifted by one,
/// then the length frame 10.
pub open spec fn ctm_framed(bytes: Seq<u8>) -> Seq<u32> {
    Seq::new(
        (3 * bytes.len()) as nat,
        |k: int|
            {
                let v = ctm_value(bytes[k / 3]);
                if k % 3 == 0 {
                    (v / 81 + 1) as u32
                } else if k % 3 == 1 {
                    ((v / 9) % 9 + 1) as u32
                } else {
                    (v % 9 + 1) as u32
                }
            },
    ).push(10u32)
}

proof fn lemma_ctm_byte_digits(v: int)
    requires
        0 <= v < 729,
    ensures
        0 <= v / 81 < 9,
        0 <= (v / 9) % 9 < 9,
        0 <= v % 9 < 9,
        (v / 81) * 81 + ((v / 9) % 9) * 9 + v % 9 == v,
{
    assert((v / 81) * 81 + ((v / 9) % 9) * 9 + v % 9 == v) by (nonlinear_arith)
        requires
            0 <= v < 729,
    {
        lemma_fundamental_div_mod(v, 9);
        lemma_fundamental_div_mod(v / 9, 9);
        lemma_div_denominator(v, 9, 9);
    }
    assert(v / 81 < 9) by (nonlinear_arith)
        requires
            0 <= v < 729,
    ;
}

/// Each byte of a CTM-B9 payload becomes three framed coefficients, each the
/// matching source symbol plus one and so in `1..=9`; as base-9 digits (less
/// one) they spell `(17 * b + 17) % 729`. The frame `10` closes the payload.
pub proof fn lemma_ctm_framed_digits(bytes: Seq<u8>)
    ensures
        ctm_framed(bytes).len() == 3 * bytes.len() + 1,
        ctm_framed(bytes)[3 * bytes.len() as int] == 10,
        forall|k: int|
            0 <= k < 3 * bytes.len() ==> #[trigger] ctm_framed(bytes)[k] == codec_symbols(
                ContentCodecDescriptor::CtmB9,
                bytes,
            )[k] + 1 && 1 <= ctm_framed(bytes)[k] <= 9,
        forall|i: int|
            0 <= i < bytes.len() ==> (ctm_framed(bytes)[3 * i] - 1) * 81 + (ctm_framed(bytes)[3 * i
                + 1] - 1) * 9 + (ctm_framed(bytes)[3 * i + 2] - 1) == (17 * #[trigger] bytes[i] + 17)
                % 729,
{
    let f = ctm_framed(bytes);
    let s = codec_symbols(ContentCodecDescriptor::CtmB9, bytes);
    assert forall|k: int| 0 <= k < 3 * bytes.len() implies #[trigger] f[k] == s[k] + 1 && 1 <= f[k]
        <= 9 by {
        lemma_ctm_byte_digits(ctm_value(bytes[k / 3]));
    }
    assert forall|i: int| 0 <= i < bytes.len() implies (f[3 * i] - 1) * 81 + (f[3 * i + 1] - 1) * 9
        + (f[3 * i + 2] - 1) == (17 * #[trigger] bytes[i] + 17) % 729 by {
        assert((3 * i) / 3 == i && (3 * i) % 3 == 0);
        assert((3 * i + 1) / 3 == i && (3 * i + 1) % 3 == 1);
        assert((3 * i + 2) / 3 == i && (3 * i + 2) % 3 == 2);
        lemma_ctm_byte_digits(ctm_value(bytes[i]));
    }
}

proof fn lemma_be_digits_len(s: nat, p: nat, w: nat)
    ensures
        be_digits(s, p, w).len() == w,
{
}

/// Digit `k` from the end of `be_digits(s, p, w)` is `(s / p^k) % p`.
proof fn lemma_be_digits_index(s: nat, p: nat, w: nat, k: nat)
    requires
        p >= 2,
        k < w,
    ensures
        be_digits(s, p, w).len() == w,
        be_digits(s, p, w)[w - 1 - k] == ((s / (pow(p as int, k) as nat)) % p) as u32,
{
    assert((w - 1 - (w - 1 - k)) as nat == k);
}

proof fn lemma_symbols_digits_len(symbols: Seq<u32>, p: nat, w: nat)
    ensures
        symbols_digits(symbols, p, w).len() == symbols.len() * w,
    decreases symbols.len(),
{
    if symbols.len() > 0 {
        lemma_symbols_digits_len(symbols.drop_last(), p, w);
        lemma_be_digits_len(symbols.last() as nat, p, w);
        assert((symbols.len() - 1) * w + w == symbols.len() * w) by (nonlinear_arith);
    }
}

/// Coefficients (low degree first) of the monic polynomial of `bytes` over
/// F_p under `codec`.
pub open spec fn monic_prime_spec(codec: ContentCodecDescriptor, bytes: Seq<u8>, p: nat) -> Seq<u32> {
    match codec {
        ContentCodecDescriptor::CtmB9 => ctm_framed(bytes),
        ContentCodecDescriptor::BinaryMsb0 => symbols_digits(
            codec_symbols(codec, bytes),
            p,
            min_width(2, p),
        ) + seq![1u32],
    }
}

/// Coefficients of the monic polynomial of an abstract symbol string over
/// `m` symbols, over F_p.
pub open spec fn symbol_coefficients_spec(symbols: Seq<u32>, m: nat, p: nat) -> Seq<u32> {
    symbols_digits(symbols, p, min_width(m, p)) + seq![1u32]
}

impl ContentCodecDescriptor {
    pub fn symbol_cardinality(self) -> (r: u32)
        ensures
            r == codec_cardinality(self),
    {
        match self {
            ContentCodecDescriptor::BinaryMsb0 => 2,
            ContentCodecDescriptor::CtmB9 => 9,
        }
    }

    pub fn symbols(self, bytes: &[u8]) -> (out: Vec<u32>)
        requires
            bytes@.len() * 8 <= usize::MAX,
        ensures
            out@ == codec_symbols(self, bytes@),
    {
        match self {
            ContentCodecDescriptor::BinaryMsb0 => {
                let mut out: Vec<u32> = Vec::new();
                let mut i: usize = 0;
                while i < bytes.len()
                    invariant
                        i <= bytes@.len(),
                        bytes@.len() * 8 <= usize::MAX,
                        out@.len() == 8 * i,
                        forall|k: int|
                            0 <= k < 8 * i ==> out@[k] == msb_bit(bytes@[k / 8], k % 8),
                    decreases bytes@.len() - i,
                {
                    let byte = bytes[i];
                    let mut j: u8 = 0;
                    while j < 8
                        invariant
                            j <= 8,
                            i < bytes@.len(),
                            byte == bytes@[i as int],
                            out@.len() == 8 * i + j,
                            forall|k: int|
                                0 <= k < 8 * i + j ==> out@[k] == msb_bit(bytes@[k / 8], k % 8),
                        decreases 8 - j,
                    {
                        let shift: u8 = 7 - j;
                        out.push(((byte >> shift) & 1) as u32);
                        proof {
                            let k = 8 * i + j;
                            assert(k / 8 == i as int && k % 8 == j as int) by (nonlinear_arith)
                                requires
                                    k == 8 * i + j,
                                    0 <= j < 8,
                            ;
                        }
                        j = j + 1;
                    }
                    i = i + 1;
                }
                proof {
                    assert(out@ =~= codec_symbols(self, bytes@));
                }
                out
            },
            ContentCodecDescriptor::CtmB9 => {
                let mut out: Vec<u32> = Vec::new();
                let mut i: usize = 0;
                while i < bytes.len()
                    invariant
                        i <= bytes@.len(),
                        bytes@.len() * 8 <= usize::MAX,
                        out@.len() == 3 * i,
                        forall|k: int|
                            0 <= k < 3 * i ==> out@[k] == codec_symbols(
                                ContentCodecDescriptor::CtmB9,
                                bytes@,
                            )[k],
                    decreases bytes@.len() - i,
                {
                    let byte = bytes[i];
                    let v: u32 = (17u32 * byte as u32 + 17) % 729;
                    out.push(v / 81);
                    out.push((v / 9) % 9);
                    out.push(v % 9);
                    proof {
                        let k0 = 3 * i;
                        assert(k0 / 3 == i && k0 % 3 == 0) by (nonlinear_arith)
                            requires
                                k0 == 3 * i,
                        ;
                        assert((k0 + 1) / 3 == i && (k0 + 1) % 3 == 1) by (nonlinear_arith)
                            requires
                                k0 == 3 * i,
                        ;
                        assert((k0 + 2) / 3 == i && (k0 + 2) % 3 == 2) by (nonlinear_arith)
                            requires
                                k0 == 3 * i,
                        ;
                    }
                    i = i + 1;
                }
                proof {
                    assert(out@ =~= codec_symbols(self, bytes@));
                }
                out
            },
        }
    }

    /// Convert the content to fixed-width positional base-p coefficients and
    /// append the monic length frame, low degree first.
    #[verifier::spinoff_prover]
    pub fn monic_prime_coefficients(self, bytes: &[u8], p: u32) -> (r: Result<Vec<u32>, CodecError>)
        requires
            bytes@.len() * 8 < usize::MAX,
        ensures
            p < 2 ==> r == Err::<Vec<u32>, CodecError>(CodecError::InvalidPrime(p)),
            p >= 2 && self == ContentCodecDescriptor::CtmB9 ==> (r matches Ok(v) && v@
                == ctm_framed(bytes@)),
            p >= 2 && self == ContentCodecDescriptor::BinaryMsb0 ==> (r matches Ok(v) && v@
                == symbols_digits(codec_symbols(self, bytes@), p as nat, min_width(2, p as nat))
                + seq![1u32]),
    {
        if p < 2 {
            return Err(CodecError::InvalidPrime(p));
        }
        match self {
            ContentCodecDescriptor::CtmB9 => {
                let mut out: Vec<u32> = Vec::new();
                let mut i: usize = 0;
                while i < bytes.len()
                    invariant
                        i <= bytes@.len(),
                        bytes@.len() * 8 <= usize::MAX,
                        out@.len() == 3 * i,
                        forall|k: int| 0 <= k < 3 * i ==> out@[k] == ctm_framed(bytes@)[k],
                    decreases bytes@.len() - i,
                {
                    let byte = bytes[i];
                    let v: u32 = (17u32 * byte as u32 + 17) % 729;
                    out.push(v / 81 + 1);
                    out.push((v / 9) % 9 + 1);
                    out.push(v % 9 + 1);
                    proof {
                        let k0 = 3 * i;
                        assert(k0 / 3 == i && k0 % 3 == 0) by (nonlinear_arith)
                            requires
                                k0 == 3 * i,
                        ;
                        assert((k0 + 1) / 3 == i && (k0 + 1) % 3 == 1) by (nonlinear_arith)
                            requires
                                k0 == 3 * i,
                        ;
                        assert((k0 + 2) / 3 == i && (k0 + 2) % 3 == 2) by (nonlinear_arith)
                            requires
                                k0 == 3 * i,
                        ;
                    }
                    i = i + 1;
                }
                out.push(10);
                proof {
                    assert(out@ =~= ctm_framed(bytes@));
                    assert(self != ContentCodecDescriptor::BinaryMsb0);
                }
                Ok(out)
            },
            ContentCodecDescriptor::BinaryMsb0 => {
                let symbols = self.symbols(bytes);
                proof {
                    assert(min_width(2, p as nat) == 1);
                    assert(symbols@.len() == 8 * bytes@.len());
                    assert(symbols@.len() * min_width(2, p as nat) + 1 <= usize::MAX);
                }
                let r = monic_symbol_coefficients(&symbols, 2, p);
                proof {
                    assert(all_in_range(symbols@, 2)) by {
                        assert forall|j: int| 0 <= j < symbols@.len() implies symbols@[j] < 2 by {
                            let b = bytes@[j / 8];
                            let s = (7 - j % 8) as u8;
                            assert(((b >> s) & 1u8) < 2u8) by (bit_vector);
                        }
                    }
                }
                r
            },
        }
    }
}

/// The least positive `w` with `p^w >= m` (defined for `p >= 2`, `m >= 2`).
pub open spec fn min_width(m: nat, p: nat) -> nat
    decreases m,
{
    if p < 2 || m <= p {
        1
    } else {
        proof {
            lemma_div_is_ordered((m + p - 1) as int, (2 * m - 1) as int, p as int);
            lemma_div_is_ordered_by_denominator((2 * m - 1) as int, 2, p as int);
        }
        1 + min_width(((m + p - 1) as int / p as int) as nat, p)
    }
}

pub proof fn lemma_min_width_unique(m: nat, p: nat, w: nat)
    requires
        p >= 2,
        m >= 1,
        is_min_width(m, p, w),
    ensures
        min_width(m, p) == w,
    decreases m,
{
    lemma_pow1(p as int);
    if m <= p {
        if w > 1 {
            lemma_pow_increases(p, 1, (w - 1) as nat);
        }
    } else {
        // w >= 2 because p^1 < m
        let c = ((m + p - 1) as int / p as int) as nat;
        assert(w >= 2);
        let w1 = (w - 1) as nat;
        assert(pow(p as int, w) == p * pow(p as int, w1)) by {
            reveal(pow);
        }
        lemma_pow_positive(p as int, w1);
        // p^w >= m  <==>  p^(w-1) >= ceil(m/p)
        assert(pow(p as int, w1) >= c) by {
            let q = pow(p as int, w1);
            assert(p * q >= m);
            assert((m + p - 1) / (p as int) <= q) by {
                lemma_div_is_ordered((m + p - 1) as int, (p * q + p - 1) as int, p as int);
                lemma_div_multiples_vanish_fancy(q, (p - 1) as int, p as int);
                assert(p * q + p - 1 == q * p + (p - 1)) by (nonlinear_arith);
            }
        }
        assert(c >= 1) by {
            lemma_div_is_ordered(p as int, (m + p - 1) as int, p as int);
            lemma_div_by_self(p as int);
        }
        assert(c < m) by {
            lemma_div_is_strictly_smaller((m + p - 1) as int, p as int);
            assert((m + p - 1) / (p as int) < m) by {
                lemma_div_is_ordered((m + p - 1) as int, (2 * m - 1) as int, p as int);
                lemma_div_is_ordered_by_denominator((2 * m - 1) as int, 2, p as int);
                assert((2 * m - 1) / 2 < m as int);
            }
        }
        if w1 > 1 {
            let w2 = (w1 - 1) as nat;
            assert(pow(p as int, w1) == p * pow(p as int, w2)) by {
                reveal(pow);
            }
            // p^(w-1) < m  ==>  p^(w-2) < ceil(m/p)
            assert(pow(p as int, w2) < c) by {
                let q = pow(p as int, w2);
                assert(p * q < m);
                assert(p * q <= m - 1);
                assert(q * p + (p - 1) <= m + p - 2) by (nonlinear_arith)
                    requires
                        p * q <= m - 1,
                ;
                lemma_div_multiples_vanish_fancy(q, (p - 1) as int, p as int);
                lemma_div_is_ordered((q * p + (p - 1)) as int, (m + p - 1) as int, p as int);
                assert((m + p - 1) as int / (p as int) >= q);
                // strictness: (m+p-1)/p > q because m > p*q
                assert((m + p - 1) as int >= (q + 1) * p) by (nonlinear_arith)
                    requires
                        p * q < m,
                ;
                lemma_div_is_ordered(((q + 1) * p) as int, (m + p - 1) as int, p as int);
                lemma_div_multiples_vanish(q + 1, p as int);
                assert((q + 1) * p == p * (q + 1)) by (nonlinear_arith);
            }
        }
        lemma_min_width_unique(c, p, w1);
    }
}

/// The minimal width never exceeds the alphabet size.
pub proof fn lemma_min_width_le(m: nat, p: nat)
    requires
        m >= 1,
    ensures
        min_width(m, p) <= m,
    decreases m,
{
    if !(p < 2 || m <= p) {
        let c = ((m + p - 1) as int / p as int) as nat;
        lemma_div_is_ordered((m + p - 1) as int, (2 * m - 1) as int, p as int);
        lemma_div_is_ordered_by_denominator((2 * m - 1) as int, 2, p as int);
        lemma_div_is_ordered(p as int, (m + p - 1) as int, p as int);
        lemma_div_by_self(p as int);
        lemma_min_width_le(c, p);
    }
}

/// Every symbol of a codec lies in its alphabet.
pub proof fn lemma_codec_symbols_in_range(codec: ContentCodecDescriptor, bytes: Seq<u8>)
    ensures
        all_in_range(codec_symbols(codec, bytes), codec_cardinality(codec)),
{
    let s = codec_symbols(codec, bytes);
    assert forall|j: int| 0 <= j < s.len() implies s[j] < codec_cardinality(codec) by {
        match codec {
            ContentCodecDescriptor::BinaryMsb0 => {
                let b = bytes[j / 8];
                let sh = (7 - j % 8) as u8;
                assert(((b >> sh) & 1u8) < 2u8) by (bit_vector);
            },
            ContentCodecDescriptor::CtmB9 => {
                let v = ctm_value(bytes[j / 3]);
                assert(0 <= v < 729);
            },
        }
    }
}

fn digits_needed(cardinality: u32, base: u32) -> (r: Result<usize, CodecError>)
    requires
        base >= 2,
    ensures
        cardinality < 2 ==> r == Err::<usize, CodecError>(
            CodecError::InvalidSymbolCardinality(cardinality),
        ),
        cardinality >= 2 ==> (r matches Ok(w) && is_min_width(cardinality as nat, base as nat, w as nat)
            && w == min_width(cardinality as nat, base as nat) && w <= 32),
{
    if cardinality < 2 {
        return Err(CodecError::InvalidSymbolCardinality(cardinality));
    }
    let mut width: usize = 1;
    let mut capacity: u128 = base as u128;
    proof {
        lemma_pow1(base as int);
        lemma_pow1(2);
    }
    while capacity < cardinality as u128
        invariant
            base >= 2,
            cardinality >= 2,
            1 <= width <= 32,
            capacity == pow(base as int, width as nat),
            capacity <= 0xffff_ffff * 0xffff_ffffu128,
            width == 1 || pow(base as int, (width - 1) as nat) < cardinality,
            pow(2, width as nat) <= capacity,
        decreases 32 - width,
    {
        let ghost old_cap = capacity;
        proof {
            assert(capacity < cardinality);
            assert(capacity * base <= 0xffff_ffff * 0xffff_ffffu128) by (nonlinear_arith)
                requires
                    capacity < 0x1_0000_0000,
                    base < 0x1_0000_0000,
            ;
            assert(capacity * base >= capacity * 2) by (nonlinear_arith)
                requires
                    base >= 2,
                    capacity >= 0,
            ;
            assert(pow(base as int, (width + 1) as nat) == base * pow(base as int, width as nat)) by {
                reveal(pow);
            }
            assert(pow(2, (width + 1) as nat) == 2 * pow(2, width as nat)) by {
                reveal(pow);
            }
            if width >= 32 {
                lemma2_to64();
                lemma_pow2(32);
                lemma_pow_increases(2, 32, width as nat);
            }
        }
        capacity = capacity * base as u128;
        width = width + 1;
        proof {
            assert(capacity == base * old_cap) by (nonlinear_arith)
                requires
                    capacity == old_cap * base,
            ;
        }
    }
    proof {
        lemma_min_width_unique(cardinality as nat, base as nat, width as nat);
    }
    Ok(width)
}

/// Convert an abstract source-symbol string to fixed-width positional base-p
/// coefficients and append the monic length frame (low degree first).
pub fn monic_symbol_coefficients(symbols: &[u32], symbol_cardinality: u32, p: u32) -> (r: Result<
    Vec<u32>,
    CodecError,
>)
    ensures
        p < 2 ==> r == Err::<Vec<u32>, CodecError>(CodecError::InvalidPrime(p)),
        p >= 2 && symbol_cardinality < 2 ==> r == Err::<Vec<u32>, CodecError>(
            CodecError::InvalidSymbolCardinality(symbol_cardinality),
        ),
        p >= 2 && symbol_cardinality >= 2 && symbols@.len() * min_width(
            symbol_cardinality as nat,
            p as nat,
        ) + 1 > usize::MAX ==> r == Err::<Vec<u32>, CodecError>(CodecError::CardinalityOverflow),
        p >= 2 && symbol_cardinality >= 2 && symbols@.len() * min_width(
            symbol_cardinality as nat,
            p as nat,
        ) + 1 <= usize::MAX ==> {
            &&& (forall|i: int|
                first_out_of_range(symbols@, symbol_cardinality, i) ==> r == Err::<
                    Vec<u32>,
                    CodecError,
                >(
                    CodecError::SymbolOutOfRange {
                        symbol: symbols@[i],
                        cardinality: symbol_cardinality,
                    },
                ))
            &&& all_in_range(symbols@, symbol_cardinality) ==> (r matches Ok(v) && v@
                == symbols_digits(
                symbols@,
                p as nat,
                min_width(symbol_cardinality as nat, p as nat),
            ) + seq![1u32])
        },
        r matches Ok(v) ==> all_in_range(symbols@, symbol_cardinality) && v@
            == symbol_coefficients_spec(symbols@, symbol_cardinality as nat, p as nat),
{
    if p < 2 {
        return Err(CodecError::InvalidPrime(p));
    }
    if symbol_cardinality < 2 {
        return Err(CodecError::InvalidSymbolCardinality(symbol_cardinality));
    }
    let width = match digits_needed(symbol_cardinality, p) {
        Ok(w) => w,
        Err(e) => {
            return Err(e);
        },
    };
    let ghost w = width as nat;
    let n = symbols.len();
    if n > (usize::MAX - 1) / width {
        proof {
            assert(n * w + 1 > usize::MAX) by (nonlinear_arith)
                requires
                    n > (usize::MAX - 1) / (w as int),
                    w >= 1,
            ;
        }
        return Err(CodecError::CardinalityOverflow);
    }
    proof {
        assert(n * w + 1 <= usize::MAX) by (nonlinear_arith)
            requires
                n <= (usize::MAX - 1) / (w as int),
                w >= 1,
        ;
    }
    let mut out: Vec<u32> = Vec::new();
    let mut i: usize = 0;
    while i < n
        invariant
            n == symbols@.len(),
            p >= 2,
            symbol_cardinality >= 2,
            w == min_width(symbol_cardinality as nat, p as nat),
            n * w + 1 <= usize::MAX,
            1 <= width <= 32,
            w == width,
            i <= n,
            out@ == symbols_digits(symbols@.take(i as int), p as nat, w),
            forall|j: int| 0 <= j < i ==> symbols@[j] < symbol_cardinality,
        decreases n - i,
    {
        let symbol = symbols[i];
        if symbol >= symbol_cardinality {
            proof {
                assert forall|k: int|
                    first_out_of_range(symbols@, symbol_cardinality, k) implies k == i by {
                    if k < i {
                    } else if k > i {
                        assert(symbols@[i as int] < symbol_cardinality);
                    }
                }
            }
            return Err(CodecError::SymbolOutOfRange { symbol, cardinality: symbol_cardinality });
        }
        let mut digits: Vec<u32> = Vec::new();
        let mut d: usize = 0;
        while d < width
            invariant
                d <= width,
                digits@.len() == d,
            decreases width - d,
        {
            digits.push(0);
            d = d + 1;
        }
        let mut value: u32 = symbol;
        let mut k: usize = 0;
        proof {
            lemma_be_digits_len(symbol as nat, p as nat, w);
            lemma_pow0(p as int);
            lemma_div_basics(symbol as int);
            assert(value as nat == (symbol as nat) / (pow(p as int, 0) as nat));
        }
        while k < width
            invariant
                p >= 2,
                k <= width,
                w == width,
                digits@.len() == width,
                value as nat == (symbol as nat) / (pow(p as int, k as nat) as nat),
                be_digits(symbol as nat, p as nat, w).len() == w,
                forall|t: int|
                    width - k <= t < width ==> digits@[t] == be_digits(symbol as nat, p as nat, w)[t],
            decreases width - k,
        {
            let slot = width - 1 - k;
            proof {
                lemma_be_digits_index(symbol as nat, p as nat, w, k as nat);
                lemma_pow_positive(p as int, k as nat);
                assert(pow(p as int, (k + 1) as nat) == p * pow(p as int, k as nat)) by {
                    reveal(pow);
                }
                lemma_div_denominator(symbol as int, pow(p as int, k as nat), p as int);
                assert(pow(p as int, k as nat) * p == p * pow(p as int, k as nat)) by (nonlinear_arith);
            }
            digits.set(slot, value % p);
            value = value / p;
            k = k + 1;
        }
        proof {
            lemma_be_digits_len(symbol as nat, p as nat, w);
            assert(digits@ =~= be_digits(symbol as nat, p as nat, w));
            let s = symbols@.take((i + 1) as int);
            assert(s.drop_last() =~= symbols@.take(i as int));
            assert(s.last() == symbol);
        }
        out.append(&mut digits);
        i = i + 1;
    }
    out.push(1);
    proof {
        assert(symbols@.take(n as int) =~= symbols@);
    }
    Ok(out)
}

} // verus!
