//! Fixed-width bit vectors (held in `bitvec`'s `BitVec<u32>`) and their
//! display formatting.

use bitvec::order::Lsb0;
use bitvec::vec::BitVec;
use vstd::prelude::*;

verus! {

/// A fixed-width bit vector. Its storage is `bitvec`'s `BitVec<u32>`, which
/// Verus cannot declare (its type parameters are bounded by outside traits);
/// what it holds is `bits_of`.
#[verifier::external_body]
pub struct Bits {
    inner: BitVec<u32, Lsb0>,
}

impl Clone for Bits {
    fn clone(&self) -> (r: Self)
        ensures
            bits_of(r) == bits_of(*self),
    {
        bv_clone(self)
    }
}

/// The bits held by a bit vector, index 0 first (the least significant bit).
pub uninterp spec fn bits_of(v: Bits) -> Seq<bool>;

/// The largest length that a `BitVec` can encode.
pub const MAX_BITS: usize = usize::MAX / 8;

/// Relies on `BitVec::new`: an empty bit vector.
#[verifier::external_body]
pub(crate) fn bv_new() -> (r: Bits)
    ensures
        bits_of(r) == Seq::<bool>::empty(),
{
    Bits { inner: BitVec::new() }
}

/// Relies on `BitVec::len`: the number of live bits, which a bit span never
/// lets grow past `MAX_BITS`.
#[verifier::external_body]
pub(crate) fn bv_len(v: &Bits) -> (r: usize)
    ensures
        r == bits_of(*v).len(),
        r <= MAX_BITS,
{
    v.inner.len()
}

/// Relies on `BitSlice`'s `Index<usize>`: the bit at `i`.
#[verifier::external_body]
pub(crate) fn bv_get(v: &Bits, i: usize) -> (r: bool)
    requires
        i < bits_of(*v).len(),
    ensures
        r == bits_of(*v)[i as int],
{
    v.inner[i]
}

/// Relies on `BitVec::push`: appends one bit at the high end; it panics past
/// `MAX_BITS`.
#[verifier::external_body]
pub(crate) fn bv_push(v: &mut Bits, b: bool)
    requires
        bits_of(*old(v)).len() < MAX_BITS,
    ensures
        bits_of(*final(v)) == bits_of(*old(v)).push(b),
{
    v.inner.push(b)
}

/// Relies on `BitVec::resize`: truncates to `n` bits, or appends copies of
/// `fill` up to `n`; it panics past `MAX_BITS`.
#[verifier::external_body]
pub(crate) fn bv_resize(v: &mut Bits, n: usize, fill: bool)
    requires
        n <= MAX_BITS,
    ensures
        bits_of(*final(v)) == resized(bits_of(*old(v)), n as nat, fill),
{
    v.inner.resize(n, fill)
}

/// Relies on `BitVec`'s `Clone`: a copy of the same bits.
#[verifier::external_body]
pub(crate) fn bv_clone(v: &Bits) -> (r: Bits)
    ensures
        bits_of(r) == bits_of(*v),
{
    Bits { inner: v.inner.clone() }
}

/// Bit `i` of the words `w`, least significant bit of each word first.
pub open spec fn word_bit(w: Seq<u32>, i: int) -> bool {
    (w[i / 32] >> ((i % 32) as u32)) & 1u32 == 1u32
}

/// Every bit of the words `w`, in storage order.
pub open spec fn word_bits(w: Seq<u32>) -> Seq<bool> {
    Seq::new(w.len() * 32, |i: int| word_bit(w, i))
}

/// Relies on `BitVec::<u32, Lsb0>::from_slice`: covers every bit of the
/// words, least significant first in each; it panics past `MAX_BITS`.
#[verifier::external_body]
pub(crate) fn bv_from_words(words: &Vec<u32>) -> (r: Bits)
    requires
        words@.len() * 32 <= MAX_BITS,
    ensures
        bits_of(r) == word_bits(words@),
{
    Bits { inner: BitVec::from_slice(words.as_slice()) }
}

/// Relies on `BitVec::as_raw_slice`: the words that store the bits, which
/// agree with them on every live bit. Every `Bits` starts at the first bit of
/// its first word: `new` and `from_slice` start there, and `push`, `resize`
/// and `clone` keep the start.
#[verifier::external_body]
pub(crate) fn bv_words(v: &Bits) -> (r: Vec<u32>)
    ensures
        bits_of(*v).len() <= r@.len() * 32,
        forall|i: int| 0 <= i < bits_of(*v).len() ==> #[trigger] word_bit(r@, i) == bits_of(*v)[i],
{
    v.inner.as_raw_slice().to_vec()
}

/// `s` cut down or padded with `fill` at the high end to exactly `n` bits.
pub open spec fn resized(s: Seq<bool>, n: nat, fill: bool) -> Seq<bool> {
    if n <= s.len() {
        s.subrange(0, n as int)
    } else {
        s + Seq::new((n - s.len()) as nat, |i: int| fill)
    }
}

/// The bit that pads a vector on extension: its most significant bit under
/// two's complement (false for an empty vector), else zero.
pub open spec fn fill_bit(s: Seq<bool>, twos_complement: bool) -> bool {
    twos_complement && s.len() > 0 && s.last()
}

/// `s` brought to width `n` under the chosen sign convention.
pub open spec fn extended(s: Seq<bool>, n: nat, twos_complement: bool) -> Seq<bool> {
    resized(s, n, fill_bit(s, twos_complement))
}

/// One `'1'` or `'0'` per bit, most significant bit first.
pub open spec fn binary_text(s: Seq<bool>) -> Seq<char> {
    Seq::new(s.len(), |i: int| if s[s.len() - 1 - i] { '1' } else { '0' })
}

impl Bits {
    /// An empty bit vector.
    pub fn new() -> (r: Bits)
        ensures
            bits_of(r) == Seq::<bool>::empty(),
    {
        bv_new()
    }

    /// The number of bits.
    pub fn len(&self) -> (r: usize)
        ensures
            r == bits_of(*self).len(),
            r <= MAX_BITS,
    {
        bv_len(self)
    }

    /// The bit at index `i` (index 0 is the least significant).
    pub fn get(&self, i: usize) -> (r: bool)
        requires
            i < bits_of(*self).len(),
        ensures
            r == bits_of(*self)[i as int],
    {
        bv_get(self, i)
    }

    /// Appends `b` above the current most significant bit.
    pub fn push(&mut self, b: bool)
        requires
            bits_of(*old(self)).len() < MAX_BITS,
        ensures
            bits_of(*final(self)) == bits_of(*old(self)).push(b),
    {
        bv_push(self, b)
    }

    /// The words that store the bits, least significant bit of each first;
    /// bits past the length are left unspecified.
    pub fn to_words(&self) -> (r: Vec<u32>)
        ensures
            bits_of(*self).len() <= r@.len() * 32,
            forall|i: int| 0 <= i < bits_of(*self).len() ==> #[trigger] word_bit(r@, i) == bits_of(*self)[i],
    {
        bv_words(self)
    }

    /// The vector holding `bools`, index 0 first.
    pub fn from_bools(bools: &Vec<bool>) -> (r: Bits)
        requires
            bools@.len() <= MAX_BITS,
        ensures
            bits_of(r) == bools@,
    {
        let mut r = bv_new();
        let mut i: usize = 0;
        while i < bools.len()
            invariant
                i <= bools@.len() <= MAX_BITS,
                bits_of(r) == bools@.subrange(0, i as int),
            decreases bools@.len() - i,
        {
            bv_push(&mut r, bools[i]);
            i = i + 1;
        }
        assert(bools@.subrange(0, bools@.len() as int) =~= bools@);
        r
    }
}

/// The numeric convention of a rendering.
#[derive(Clone, Copy, Debug, PartialEq, Eq, Structural)]
pub enum Format {
    Binary,
}

/// How a bit vector is displayed: the convention, the width it is brought
/// to, and whether extension repeats the sign bit.
#[derive(Clone, Copy, Debug, PartialEq, Eq, Structural)]
pub struct Option {
    pub format: Format,
    pub width: usize,
    pub twos_complement: bool,
}

impl Default for Option {
    fn default() -> (r: Self)
        ensures
            r == (Option { format: Format::Binary, width: 0, twos_complement: false }),
    {
        Option { format: Format::Binary, width: 0, twos_complement: false }
    }
}

/// The text that `from` renders for bits `s` under `option`.
pub open spec fn display_text(s: Seq<bool>, option: Option) -> Seq<char> {
    match option.format {
        Format::Binary => binary_text(extended(s, option.width as nat, option.twos_complement)),
    }
}

/// Bringing a vector to its own width leaves it as it is, under either sign
/// convention, so its rendering at that width is just its bits.
pub proof fn lemma_resize_idempotent(s: Seq<bool>, option: Option)
    requires
        option.width == s.len(),
    ensures
        extended(s, s.len(), option.twos_complement) == s,
        display_text(s, option) == binary_text(s),
{
    assert(s.subrange(0, s.len() as int) =~= s);
}

/// Renders `bit_vec` as text under `option`.
pub fn from(bit_vec: &Bits, option: &Option) -> (r: String)
    requires
        option.width <= MAX_BITS,
    ensures
        r@ == display_text(bits_of(*bit_vec), *option),
{
    match option.format {
        Format::Binary => binary(bit_vec, option.width, option.twos_complement),
    }
}

/// The binary rendering of `bit_vec` brought to `width` bits.
pub fn binary(bit_vec: &Bits, width: usize, twos_complement: bool) -> (r: String)
    requires
        width <= MAX_BITS,
    ensures
        r@ == binary_text(extended(bits_of(*bit_vec), width as nat, twos_complement)),
{
    let v = get_resized_bitvec(bit_vec, width, twos_complement);
    let ghost s = bits_of(v);
    let mut r = String::new();
    let mut k: usize = 0;
    while k < width
        invariant
            k <= width == s.len(),
            s == bits_of(v),
            r@ =~= Seq::new(k as nat, |j: int| if s[s.len() - 1 - j] { '1' } else { '0' }),
        decreases width - k,
    {
        proof {
            reveal_strlit("1");
            reveal_strlit("0");
        }
        if bv_get(&v, width - 1 - k) {
            r.append("1");
        } else {
            r.append("0");
        }
        assert(r@ =~= Seq::new((k + 1) as nat, |j: int| if s[s.len() - 1 - j] { '1' } else { '0' }));
        k = k + 1;
    }
    assert(r@ =~= binary_text(s));
    r
}

/// A copy of `bit_vec` brought to exactly `width` bits: cut at the high end,
/// or extended with its sign bit (two's complement) or with zeros.
pub fn get_resized_bitvec(bit_vec: &Bits, width: usize, twos_complement: bool) -> (r: Bits)
    requires
        width <= MAX_BITS,
    ensures
        bits_of(r) == extended(bits_of(*bit_vec), width as nat, twos_complement),
{
    let mut v = bv_clone(bit_vec);
    let n = bv_len(&v);
    let fill = if twos_complement && n > 0 {
        bv_get(&v, n - 1)
    } else {
        false
    };
    bv_resize(&mut v, width, fill);
    v
}

} // verus!
