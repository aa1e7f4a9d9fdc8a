//! Big-endian integer framing on byte sequences, the primitive layer under
//! every packet format of the game network.
use vstd::prelude::*;
use vstd::utf8::*;

verus! {

// ---------------------------------------------------------------------------
// Encodings
// ---------------------------------------------------------------------------

/// Big-endian bytes of a `u16`.
pub open spec fn be_u16(v: u16) -> Seq<u8> {
    seq![(v >> 8u16) as u8, v as u8]
}

/// Big-endian bytes of a `u32`: high half first.
pub open spec fn be_u32(v: u32) -> Seq<u8> {
    be_u16((v >> 16u32) as u16) + be_u16(v as u16)
}

/// Big-endian bytes of a `u64`: high half first.
pub open spec fn be_u64(v: u64) -> Seq<u8> {
    be_u32((v >> 32u64) as u32) + be_u32(v as u32)
}

/// Big-endian bytes of a `u128`: high half first.
pub open spec fn be_u128(v: u128) -> Seq<u8> {
    be_u64((v >> 64u128) as u64) + be_u64(v as u64)
}

/// Big-endian two's-complement bytes of an `i32`.
pub open spec fn be_i32(v: i32) -> Seq<u8> {
    be_u32(v as u32)
}

/// Reads a big-endian `u16` from the first two bytes of `b`.
pub open spec fn read_u16(b: Seq<u8>) -> u16 {
    (((b[0] as u16) << 8u16) | (b[1] as u16)) as u16
}

/// Reads a big-endian `u32` from the first four bytes of `b`.
pub open spec fn read_u32(b: Seq<u8>) -> u32 {
    (((read_u16(b) as u32) << 16u32) | (read_u16(b.subrange(2, 4)) as u32)) as u32
}

/// Reads a big-endian `u64` from the first eight bytes of `b`.
pub open spec fn read_u64(b: Seq<u8>) -> u64 {
    (((read_u32(b) as u64) << 32u64) | (read_u32(b.subrange(4, 8)) as u64)) as u64
}

/// Reads a big-endian `u128` from the first sixteen bytes of `b`.
pub open spec fn read_u128(b: Seq<u8>) -> u128 {
    (((read_u64(b) as u128) << 64u128) | (read_u64(b.subrange(8, 16)) as u128)) as u128
}

/// Reads a big-endian `i32` from the first four bytes of `b`.
pub open spec fn read_i32(b: Seq<u8>) -> i32 {
    read_u32(b) as i32
}

/// `n` zero bytes.
pub open spec fn zeros(n: nat) -> Seq<u8> {
    Seq::new(n, |i: int| 0u8)
}

/// `s` cut or zero-padded to length `n` (what `Vec::resize(n, 0)` leaves).
pub open spec fn resized(s: Seq<u8>, n: nat) -> Seq<u8> {
    if s.len() >= n {
        s.take(n as int)
    } else {
        s + zeros((n - s.len()) as nat)
    }
}

// ---------------------------------------------------------------------------
// Round-trip facts
// ---------------------------------------------------------------------------

pub proof fn lemma_u16_roundtrip(v: u16)
    ensures
        be_u16(v).len() == 2,
        read_u16(be_u16(v)) == v,
{
    let hi = (v >> 8u16) as u8;
    let lo = v as u8;
    assert((((hi as u16) << 8u16) | (lo as u16)) == v) by (bit_vector)
        requires
            hi == (v >> 8u16) as u8,
            lo == v as u8,
    ;
}

pub proof fn lemma_u32_roundtrip(v: u32)
    ensures
        be_u32(v).len() == 4,
        read_u32(be_u32(v)) == v,
{
    let hi = (v >> 16u32) as u16;
    let lo = v as u16;
    lemma_u16_roundtrip(hi);
    lemma_u16_roundtrip(lo);
    let b = be_u32(v);
    assert(b.subrange(0, 2) =~= be_u16(hi));
    assert(b.subrange(2, 4) =~= be_u16(lo));
    assert(read_u16(b) == read_u16(b.subrange(0, 2)));
    assert((((hi as u32) << 16u32) | (lo as u32)) == v) by (bit_vector)
        requires
            hi == (v >> 16u32) as u16,
            lo == v as u16,
    ;
}

pub proof fn lemma_u64_roundtrip(v: u64)
    ensures
        be_u64(v).len() == 8,
        read_u64(be_u64(v)) == v,
{
    let hi = (v >> 32u64) as u32;
    let lo = v as u32;
    lemma_u32_roundtrip(hi);
    lemma_u32_roundtrip(lo);
    let b = be_u64(v);
    assert(b.subrange(0, 4) =~= be_u32(hi));
    assert(b.subrange(4, 8) =~= be_u32(lo));
    lemma_read_u32_prefix(b, 4);
    assert((((hi as u64) << 32u64) | (lo as u64)) == v) by (bit_vector)
        requires
            hi == (v >> 32u64) as u32,
            lo == v as u32,
    ;
}

pub proof fn lemma_u128_roundtrip(v: u128)
    ensures
        be_u128(v).len() == 16,
        read_u128(be_u128(v)) == v,
{
    let hi = (v >> 64u128) as u64;
    let lo = v as u64;
    lemma_u64_roundtrip(hi);
    lemma_u64_roundtrip(lo);
    let b = be_u128(v);
    assert(b.subrange(0, 8) =~= be_u64(hi));
    assert(b.subrange(8, 16) =~= be_u64(lo));
    lemma_read_u64_prefix(b, 8);
    assert((((hi as u128) << 64u128) | (lo as u128)) == v) by (bit_vector)
        requires
            hi == (v >> 64u128) as u64,
            lo == v as u64,
    ;
}

pub proof fn lemma_i32_roundtrip(v: i32)
    ensures
        be_i32(v).len() == 4,
        read_i32(be_i32(v)) == v,
{
    lemma_u32_roundtrip(v as u32);
    assert(((v as u32) as i32) == v) by (bit_vector);
}

/// A read only looks at the bytes it decodes.
pub proof fn lemma_read_u16_prefix(b: Seq<u8>, n: int)
    requires
        2 <= n <= b.len(),
    ensures
        read_u16(b.subrange(0, n)) == read_u16(b),
{
}

pub proof fn lemma_read_u32_prefix(b: Seq<u8>, n: int)
    requires
        4 <= n <= b.len(),
    ensures
        read_u32(b.subrange(0, n)) == read_u32(b),
{
    assert(b.subrange(0, n).subrange(2, 4) =~= b.subrange(2, 4));
}

pub proof fn lemma_read_u64_prefix(b: Seq<u8>, n: int)
    requires
        8 <= n <= b.len(),
    ensures
        read_u64(b.subrange(0, n)) == read_u64(b),
{
    lemma_read_u32_prefix(b, n);
    assert(b.subrange(0, n).subrange(4, 8) =~= b.subrange(4, 8));
}

pub proof fn lemma_read_u128_prefix(b: Seq<u8>, n: int)
    requires
        16 <= n <= b.len(),
    ensures
        read_u128(b.subrange(0, n)) == read_u128(b),
{
    lemma_read_u64_prefix(b, n);
    assert(b.subrange(0, n).subrange(8, 16) =~= b.subrange(8, 16));
}

/// Reading from the front of a concatenation reads from its first part.
pub proof fn lemma_read_append(x: Seq<u8>, y: Seq<u8>)
    ensures
        x.len() >= 2 ==> read_u16(x + y) == read_u16(x),
        x.len() >= 4 ==> read_u32(x + y) == read_u32(x),
        x.len() >= 8 ==> read_u64(x + y) == read_u64(x),
        x.len() >= 16 ==> read_u128(x + y) == read_u128(x),
{
    let b = x + y;
    assert(b.subrange(0, x.len() as int) =~= x);
    if x.len() >= 2 {
        lemma_read_u16_prefix(b, x.len() as int);
    }
    if x.len() >= 4 {
        lemma_read_u32_prefix(b, x.len() as int);
    }
    if x.len() >= 8 {
        lemma_read_u64_prefix(b, x.len() as int);
    }
    if x.len() >= 16 {
        lemma_read_u128_prefix(b, x.len() as int);
    }
}

// ---------------------------------------------------------------------------
// Writers
// ---------------------------------------------------------------------------

pub fn put_u8(out: &mut Vec<u8>, v: u8)
    ensures
        final(out)@ == old(out)@.push(v),
{
    out.push(v);
}

pub fn put_u16(out: &mut Vec<u8>, v: u16)
    ensures
        final(out)@ == old(out)@ + be_u16(v),
{
    out.push((v >> 8u16) as u8);
    out.push(v as u8);
    assert(out@ =~= old(out)@ + be_u16(v));
}

pub fn put_u32(out: &mut Vec<u8>, v: u32)
    ensures
        final(out)@ == old(out)@ + be_u32(v),
{
    put_u16(out, (v >> 16u32) as u16);
    put_u16(out, v as u16);
    assert(out@ =~= old(out)@ + be_u32(v));
}

pub fn put_u64(out: &mut Vec<u8>, v: u64)
    ensures
        final(out)@ == old(out)@ + be_u64(v),
{
    put_u32(out, (v >> 32u64) as u32);
    put_u32(out, v as u32);
    assert(out@ =~= old(out)@ + be_u64(v));
}

pub fn put_u128(out: &mut Vec<u8>, v: u128)
    ensures
        final(out)@ == old(out)@ + be_u128(v),
{
    put_u64(out, (v >> 64u128) as u64);
    put_u64(out, v as u64);
    assert(out@ =~= old(out)@ + be_u128(v));
}

pub fn put_i32(out: &mut Vec<u8>, v: i32)
    ensures
        final(out)@ == old(out)@ + be_i32(v),
{
    put_u32(out, v as u32);
}

pub fn put_slice(out: &mut Vec<u8>, bytes: &[u8])
    ensures
        final(out)@ == old(out)@ + bytes@,
{
    let mut i: usize = 0;
    while i < bytes.len()
        invariant
            i <= bytes@.len(),
            out@ == old(out)@ + bytes@.take(i as int),
        decreases bytes@.len() - i,
    {
        out.push(bytes[i]);
        i = i + 1;
        assert(out@ =~= old(out)@ + bytes@.take(i as int));
    }
    assert(bytes@.take(i as int) =~= bytes@);
}

/// Cuts or zero-pads `out` to `n` bytes, as `BytesMut::resize(n, 0)` does.
pub fn resize_zero(out: &mut Vec<u8>, n: usize)
    ensures
        final(out)@ == resized(old(out)@, n as nat),
{
    if out.len() >= n {
        out.truncate(n);
        assert(out@ =~= resized(old(out)@, n as nat));
    } else {
        while out.len() < n
            invariant
                old(out)@.len() < n,
                old(out)@.len() <= out@.len() <= n,
                out@ =~= old(out)@ + zeros((out@.len() - old(out)@.len()) as nat),
            decreases n - out@.len(),
        {
            out.push(0u8);
        }
        assert(out@ =~= resized(old(out)@, n as nat));
    }
}

// ---------------------------------------------------------------------------
// Readers
// ---------------------------------------------------------------------------

/// A cursor over received bytes: the bytes not read yet are its view.
pub struct ByteReader<'a> {
    pub data: &'a [u8],
    pub pos: usize,
}

impl<'a> View for ByteReader<'a> {
    type V = Seq<u8>;

    open spec fn view(&self) -> Seq<u8> {
        self.data@.subrange(self.pos as int, self.data@.len() as int)
    }
}

impl<'a> ByteReader<'a> {
    pub open spec fn wf(&self) -> bool {
        self.pos <= self.data@.len()
    }

    pub fn new(data: &'a [u8]) -> (r: Self)
        ensures
            r.wf(),
            r@ == data@,
            r.data@ == data@,
    {
        let r = ByteReader { data, pos: 0 };
        assert(r@ =~= data@);
        r
    }

    pub fn remaining(&self) -> (n: usize)
        requires
            self.wf(),
        ensures
            n == self@.len(),
    {
        self.data.len() - self.pos
    }

    pub fn get_u8(&mut self) -> (v: u8)
        requires
            old(self).wf(),
            old(self)@.len() >= 1,
        ensures
            final(self).wf(),
            final(self).data == old(self).data,
            v == old(self)@[0],
            final(self)@ == old(self)@.skip(1),
    {
        let v = self.data[self.pos];
        self.pos = self.pos + 1;
        assert(self@ =~= old(self)@.skip(1));
        v
    }

    pub fn get_u16(&mut self) -> (v: u16)
        requires
            old(self).wf(),
            old(self)@.len() >= 2,
        ensures
            final(self).wf(),
            final(self).data == old(self).data,
            v == read_u16(old(self)@),
            final(self)@ == old(self)@.skip(2),
    {
        let hi = self.get_u8();
        let lo = self.get_u8();
        assert(self@ =~= old(self)@.skip(2));
        (((hi as u16) << 8u16) | (lo as u16)) as u16
    }

    pub fn get_u32(&mut self) -> (v: u32)
        requires
            old(self).wf(),
            old(self)@.len() >= 4,
        ensures
            final(self).wf(),
            final(self).data == old(self).data,
            v == read_u32(old(self)@),
            final(self)@ == old(self)@.skip(4),
    {
        let hi = self.get_u16();
        let lo = self.get_u16();
        assert(old(self)@.skip(2) =~= old(self)@.subrange(2, old(self)@.len() as int));
        assert(read_u16(old(self)@.skip(2)) == read_u16(old(self)@.subrange(2, 4)));
        assert(self@ =~= old(self)@.skip(4));
        (((hi as u32) << 16u32) | (lo as u32)) as u32
    }

    pub fn get_u64(&mut self) -> (v: u64)
        requires
            old(self).wf(),
            old(self)@.len() >= 8,
        ensures
            final(self).wf(),
            final(self).data == old(self).data,
            v == read_u64(old(self)@),
            final(self)@ == old(self)@.skip(8),
    {
        let hi = self.get_u32();
        let lo = self.get_u32();
        let ghost s = old(self)@;
        assert(s.skip(4).subrange(0, 4) =~= s.subrange(4, 8));
        proof { lemma_read_u32_prefix(s.skip(4), 4); }
        assert(s.skip(4).subrange(2, 4) =~= s.subrange(4, 8).subrange(2, 4));
        assert(read_u32(s.skip(4)) == read_u32(s.subrange(4, 8)));
        assert(self@ =~= s.skip(8));
        (((hi as u64) << 32u64) | (lo as u64)) as u64
    }

    pub fn get_u128(&mut self) -> (v: u128)
        requires
            old(self).wf(),
            old(self)@.len() >= 16,
        ensures
            final(self).wf(),
            final(self).data == old(self).data,
            v == read_u128(old(self)@),
            final(self)@ == old(self)@.skip(16),
    {
        let hi = self.get_u64();
        let lo = self.get_u64();
        let ghost s = old(self)@;
        proof { lemma_read_u64_prefix(s.skip(8), 8); }
        assert(s.skip(8).subrange(0, 8) =~= s.subrange(8, 16));
        assert(self@ =~= s.skip(16));
        (((hi as u128) << 64u128) | (lo as u128)) as u128
    }

    pub fn get_i32(&mut self) -> (v: i32)
        requires
            old(self).wf(),
            old(self)@.len() >= 4,
        ensures
            final(self).wf(),
            final(self).data == old(self).data,
            v == read_i32(old(self)@),
            final(self)@ == old(self)@.skip(4),
    {
        let u = self.get_u32();
        u as i32
    }

    /// Copies the next `n` bytes out, as `Buf::copy_to_slice` does.
    pub fn get_bytes(&mut self, n: usize) -> (v: Vec<u8>)
        requires
            old(self).wf(),
            old(self)@.len() >= n,
        ensures
            final(self).wf(),
            final(self).data == old(self).data,
            v@ == old(self)@.take(n as int),
            final(self)@ == old(self)@.skip(n as int),
    {
        let mut v: Vec<u8> = Vec::new();
        let start = self.pos;
        while self.pos < start + n
            invariant
                self.wf(),
                self.data == old(self).data,
                start == old(self).pos,
                start + n <= self.data@.len(),
                start <= self.pos <= start + n,
                v@ =~= self.data@.subrange(start as int, self.pos as int),
            decreases start + n - self.pos,
        {
            v.push(self.data[self.pos]);
            self.pos = self.pos + 1;
        }
        assert(v@ =~= old(self)@.take(n as int));
        assert(self@ =~= old(self)@.skip(n as int));
        v
    }
}

// ---------------------------------------------------------------------------
// Byte and text helpers
// ---------------------------------------------------------------------------

/// Compares two byte slices element by element.
pub fn bytes_eq(a: &[u8], b: &[u8]) -> (r: bool)
    ensures
        r == (a@ == b@),
{
    if a.len() != b.len() {
        return false;
    }
    let mut i: usize = 0;
    while i < a.len()
        invariant
            a@.len() == b@.len(),
            i <= a@.len(),
            forall|j: int| 0 <= j < i ==> a@[j] == b@[j],
        decreases a@.len() - i,
    {
        if a[i] != b[i] {
            return false;
        }
        i = i + 1;
    }
    assert(a@ =~= b@);
    true
}

/// Compares two strings by their characters, through their UTF-8 bytes.
pub fn str_eq(a: &str, b: &str) -> (r: bool)
    ensures
        r == (a@ == b@),
{
    let r = bytes_eq(a.as_bytes(), b.as_bytes());
    proof {
        encode_utf8_decode_utf8(a@);
        encode_utf8_decode_utf8(b@);
    }
    r
}

/// `std::string::String::from_utf8`: the bytes become a string exactly when
/// they are valid UTF-8, and the string then holds the characters they encode.
#[verifier::external_body]
pub(crate) fn string_from_utf8(bytes: Vec<u8>) -> (r: Option<String>)
    ensures
        r is Some <==> valid_utf8(bytes@),
        r matches Some(s) ==> s@ == decode_utf8(bytes@),
{
    String::from_utf8(bytes).ok()
}

/// `String::from_iter` over characters: the string holds those characters.
#[verifier::external_body]
pub(crate) fn string_from_chars(chars: Vec<char>) -> (r: String)
    ensures
        r@ == chars@,
{
    String::from_iter(chars)
}

} // verus!
