//! Reading H.264 syntax elements, bit by bit, from an RBSP.

use vstd::prelude::*;
use vstd::arithmetic::power2::{lemma_pow2_unfold, pow2};
use vstd::bits::{lemma_u32_pow2_no_overflow, lemma_u32_shl_is_mul};
use bitstream_io::read::BitRead as _;

verus! {

/// std's I/O error, carried opaque in [`BitReaderError`].
#[verifier::external_type_specification]
#[verifier::external_body]
pub struct ExIoError(std::io::Error);

/// bitstream_io's bit reader, most significant bit first, over bytes in
/// memory. Verus refuses a declaration of that type (its parameters are
/// bound by outside traits), so it is held here out of Verus's sight.
#[verifier::external_body]
pub struct Bits {
    reader: bitstream_io::read::BitReader<std::io::Cursor<Vec<u8>>, bitstream_io::BigEndian>,
}

/// The bits that the reader `r` has not handed out yet.
pub uninterp spec fn unread_bits(r: Bits) -> Seq<bool>;

/// The bits of `bytes`, most significant bit of each byte first.
pub open spec fn bits_of(bytes: Seq<u8>) -> Seq<bool> {
    Seq::new(8 * bytes.len(), |k: int| (bytes[k / 8] as int / pow2((7 - k % 8) as nat) as int) % 2 == 1)
}

/// The number that the bits `s` write, most significant bit first.
pub open spec fn bits_value(s: Seq<bool>) -> nat
    decreases s.len(),
{
    if s.len() == 0 {
        0
    } else {
        2 * bits_value(s.drop_last()) + if s.last() { 1nat } else { 0nat }
    }
}

/// How many `0` bits come before the first `1` bit of `s` (all of `s` when
/// it holds none).
pub open spec fn leading_zeros(s: Seq<bool>) -> nat
    decreases s.len(),
{
    if s.len() == 0 || s[0] {
        0
    } else {
        1 + leading_zeros(s.drop_first())
    }
}

/// Why a read from the outside reader failed.
enum ReadFault {
    /// The bits ran out.
    Eof(std::io::Error),
    Other(std::io::Error),
}

/// Relies on bitstream_io's `BitReader::new` over a `std::io::Cursor`: the
/// reader hands out the bits of `data`, most significant bit first.
#[verifier::external_body]
fn open_bits(data: Vec<u8>) -> (r: Bits)
    ensures
        unread_bits(r) == bits_of(data@),
{
    Bits { reader: bitstream_io::read::BitReader::new(std::io::Cursor::new(data)) }
}

/// Relies on bitstream_io's `BitReader` being `Clone`: the copy reads on
/// from the same position, and reading it leaves `r` where it was.
#[verifier::external_body]
fn copy_bits(r: &Bits) -> (c: Bits)
    ensures
        unread_bits(c) == unread_bits(*r),
{
    Bits { reader: r.reader.clone() }
}

/// Relies on bitstream_io's `BitRead::read_bit`: the next bit, or an
/// end-of-data error from the cursor when none is left.
#[verifier::external_body]
fn next_bit(r: &mut Bits) -> (res: Result<bool, ReadFault>)
    ensures
        unread_bits(*final(r)).len() <= unread_bits(*old(r)).len(),
        unread_bits(*old(r)).len() > 0 ==> (res matches Ok(b) && b == unread_bits(*old(r))[0]
            && unread_bits(*final(r)) == unread_bits(*old(r)).drop_first()),
        unread_bits(*old(r)).len() == 0 ==> res matches Err(ReadFault::Eof(_)),
{
    match r.reader.read_bit() {
        Ok(b) => Ok(b),
        Err(e) if e.kind() == std::io::ErrorKind::UnexpectedEof => Err(ReadFault::Eof(e)),
        Err(e) => Err(ReadFault::Other(e)),
    }
}

/// Relies on bitstream_io's `BitRead::read::<u32>`: the number that the next
/// `n` bits write, or an end-of-data error from the cursor when fewer are
/// left.
#[verifier::external_body]
fn next_u32(r: &mut Bits, n: u32) -> (res: Result<u32, ReadFault>)
    requires
        n <= 32,
    ensures
        unread_bits(*final(r)).len() <= unread_bits(*old(r)).len(),
        unread_bits(*old(r)).len() >= n ==> (res matches Ok(v) && v as nat == bits_value(
            unread_bits(*old(r)).take(n as int),
        ) && unread_bits(*final(r)) == unread_bits(*old(r)).skip(n as int)),
        unread_bits(*old(r)).len() < n ==> res matches Err(ReadFault::Eof(_)),
{
    match r.reader.read::<u32>(n) {
        Ok(v) => Ok(v),
        Err(e) if e.kind() == std::io::ErrorKind::UnexpectedEof => Err(ReadFault::Eof(e)),
        Err(e) => Err(ReadFault::Other(e)),
    }
}

/// Relies on bitstream_io's `BitRead::read_unary1`: counts the `0` bits up
/// to the next `1` bit and consumes them with it, or fails with an
/// end-of-data error from the cursor when no `1` bit is left. Its counter is
/// a `u32`.
#[verifier::external_body]
fn next_unary1(r: &mut Bits) -> (res: Result<u32, ReadFault>)
    requires
        unread_bits(*old(r)).len() <= u32::MAX,
    ensures
        unread_bits(*final(r)).len() <= unread_bits(*old(r)).len(),
        leading_zeros(unread_bits(*old(r))) < unread_bits(*old(r)).len() ==> (res matches Ok(v)
            && v == leading_zeros(unread_bits(*old(r))) && unread_bits(*final(r))
            == unread_bits(*old(r)).skip(leading_zeros(unread_bits(*old(r))) + 1int)),
        leading_zeros(unread_bits(*old(r))) >= unread_bits(*old(r)).len() ==> res matches Err(
            ReadFault::Eof(_),
        ),
{
    match r.reader.read_unary1() {
        Ok(v) => Ok(v),
        Err(e) if e.kind() == std::io::ErrorKind::UnexpectedEof => Err(ReadFault::Eof(e)),
        Err(e) => Err(ReadFault::Other(e)),
    }
}

/// The number that the first `z + 1 .. 2z + 1` bits of `s` complete, after
/// a prefix of `z` zeros and a `1`: the unsigned Exp-Golomb value coded at
/// the front of `s`.
pub open spec fn ue_value(s: Seq<bool>) -> nat {
    let z = leading_zeros(s);
    (pow2(z) - 1 + bits_value(s.subrange(z + 1int, 2 * z + 1int))) as nat
}

/// How many bits the Exp-Golomb code at the front of `s` takes.
pub open spec fn ue_len(s: Seq<bool>) -> int {
    2 * leading_zeros(s) + 1int
}

/// The code at the front of `s` has a prefix of more than 31 zeros.
pub open spec fn ue_too_large(s: Seq<bool>) -> bool {
    leading_zeros(s) < s.len() && leading_zeros(s) > 31
}

/// The code at the front of `s` is complete and fits 32 bits.
pub open spec fn ue_complete(s: Seq<bool>) -> bool {
    leading_zeros(s) <= 31 && ue_len(s) <= s.len()
}

/// The signed value of an Exp-Golomb `codeNum`: 0, 1, -1, 2, -2, ...
pub open spec fn signed_of(k: nat) -> int {
    if k % 2 == 1 {
        (k + 1int) / 2
    } else {
        -(k / 2)
    }
}

/// Whether a `1` bit follows the first bit of `s`: more RBSP data comes
/// before the stop bit.
pub open spec fn more_data(s: Seq<bool>) -> bool {
    s.len() > 0 && leading_zeros(s.drop_first()) < s.len() - 1
}

/// `bits_value` of `n` bits stays below `2^n`.
pub proof fn lemma_bits_value_bound(s: Seq<bool>)
    ensures
        bits_value(s) < pow2(s.len()),
    decreases s.len(),
{
    if s.len() > 0 {
        lemma_bits_value_bound(s.drop_last());
        lemma_pow2_unfold(s.len());
    } else {
        vstd::arithmetic::power2::lemma2_to64();
    }
}

#[derive(Debug)]
pub enum BitReaderError {
    ReaderError(std::io::Error),
    ReaderErrorFor(&'static str, std::io::Error),
    /// An Exp-Golomb-coded syntax element's value has more than 32 bits.
    ExpGolombTooLarge(&'static str),
}

/// A failed read, tagged with the name of what was being read.
fn error_for(name: &'static str, f: ReadFault) -> (e: BitReaderError)
    ensures
        e matches BitReaderError::ReaderErrorFor(n, _) && n == name,
{
    match f {
        ReadFault::Eof(e) => BitReaderError::ReaderErrorFor(name, e),
        ReadFault::Other(e) => BitReaderError::ReaderErrorFor(name, e),
    }
}

/// Reading H.264 syntax elements. `name` says what is read, and only tags
/// errors.
pub trait BitRead {
    /// The bits not read yet.
    spec fn bits_left(&self) -> Seq<bool>;

    fn read_ue(&mut self, name: &'static str) -> (r: Result<u32, BitReaderError>)
        requires
            old(self).bits_left().len() <= u32::MAX,
        ensures
            final(self).bits_left().len() <= old(self).bits_left().len(),
            ue_too_large(old(self).bits_left()) ==> (r matches Err(
                BitReaderError::ExpGolombTooLarge(n),
            ) && n == name),
            ue_complete(old(self).bits_left()) ==> (r matches Ok(v) && v == ue_value(
                old(self).bits_left(),
            ) && final(self).bits_left() == old(self).bits_left().skip(
                ue_len(old(self).bits_left()),
            )),
            !ue_too_large(old(self).bits_left()) && !ue_complete(old(self).bits_left()) ==> (
            r matches Err(BitReaderError::ReaderErrorFor(n, _)) && n == name),
    ;

    fn read_se(&mut self, name: &'static str) -> (r: Result<i32, BitReaderError>)
        requires
            old(self).bits_left().len() <= u32::MAX,
        ensures
            final(self).bits_left().len() <= old(self).bits_left().len(),
            ue_too_large(old(self).bits_left()) ==> (r matches Err(
                BitReaderError::ExpGolombTooLarge(n),
            ) && n == name),
            ue_complete(old(self).bits_left()) ==> (r matches Ok(v) && v == signed_of(
                ue_value(old(self).bits_left()),
            ) && final(self).bits_left() == old(self).bits_left().skip(
                ue_len(old(self).bits_left()),
            )),
            !ue_too_large(old(self).bits_left()) && !ue_complete(old(self).bits_left()) ==> (
            r matches Err(BitReaderError::ReaderErrorFor(n, _)) && n == name),
    ;

    fn read_bool(&mut self, name: &'static str) -> (r: Result<bool, BitReaderError>)
        ensures
            final(self).bits_left().len() <= old(self).bits_left().len(),
            old(self).bits_left().len() > 0 ==> (r matches Ok(b) && b == old(self).bits_left()[0]
                && final(self).bits_left() == old(self).bits_left().drop_first()),
            old(self).bits_left().len() == 0 ==> (r matches Err(
                BitReaderError::ReaderErrorFor(n, _),
            ) && n == name),
    ;

    fn read_u8(&mut self, bit_count: u32, name: &'static str) -> (r: Result<u8, BitReaderError>)
        requires
            bit_count <= 8,
        ensures
            final(self).bits_left().len() <= old(self).bits_left().len(),
            old(self).bits_left().len() >= bit_count ==> (r matches Ok(v) && v == bits_value(
                old(self).bits_left().take(bit_count as int),
            ) && final(self).bits_left() == old(self).bits_left().skip(bit_count as int)),
            old(self).bits_left().len() < bit_count ==> (r matches Err(
                BitReaderError::ReaderErrorFor(n, _),
            ) && n == name),
    ;

    fn read_u16(&mut self, bit_count: u32, name: &'static str) -> (r: Result<u16, BitReaderError>)
        requires
            bit_count <= 16,
        ensures
            final(self).bits_left().len() <= old(self).bits_left().len(),
            old(self).bits_left().len() >= bit_count ==> (r matches Ok(v) && v == bits_value(
                old(self).bits_left().take(bit_count as int),
            ) && final(self).bits_left() == old(self).bits_left().skip(bit_count as int)),
            old(self).bits_left().len() < bit_count ==> (r matches Err(
                BitReaderError::ReaderErrorFor(n, _),
            ) && n == name),
    ;

    fn read_u32(&mut self, bit_count: u32, name: &'static str) -> (r: Result<u32, BitReaderError>)
        requires
            bit_count <= 32,
        ensures
            final(self).bits_left().len() <= old(self).bits_left().len(),
            old(self).bits_left().len() >= bit_count ==> (r matches Ok(v) && v == bits_value(
                old(self).bits_left().take(bit_count as int),
            ) && final(self).bits_left() == old(self).bits_left().skip(bit_count as int)),
            old(self).bits_left().len() < bit_count ==> (r matches Err(
                BitReaderError::ReaderErrorFor(n, _),
            ) && n == name),
    ;

    /// Reads the field's bits as a number, without sign extension: a
    /// 32-bit field whose top bit is set comes back as the `i32` with the
    /// same bits.
    fn read_i32(&mut self, bit_count: u32, name: &'static str) -> (r: Result<i32, BitReaderError>)
        requires
            bit_count <= 32,
        ensures
            final(self).bits_left().len() <= old(self).bits_left().len(),
            old(self).bits_left().len() >= bit_count ==> (r matches Ok(v) && v == bits_value(
                old(self).bits_left().take(bit_count as int),
            ) as i32 && final(self).bits_left() == old(self).bits_left().skip(bit_count as int)),
            old(self).bits_left().len() < bit_count ==> (r matches Err(
                BitReaderError::ReaderErrorFor(n, _),
            ) && n == name),
    ;

    /// Returns true if positioned before the RBSP trailing bits, as
    /// `more_rbsp_data()` of Rec. ITU-T H.264 section 7.2 defines it. Reads
    /// nothing.
    fn has_more_rbsp_data(&mut self, name: &'static str) -> (r: Result<bool, BitReaderError>)
        requires
            old(self).bits_left().len() <= u32::MAX,
        ensures
            final(self).bits_left() == old(self).bits_left(),
            r matches Ok(b) && b == more_data(old(self).bits_left()),
    ;
}

/// Reads H.264 bitstream syntax elements from an RBSP (no NAL header byte
/// and no emulation-prevention bytes), held in memory.
pub struct BitReader {
    reader: Bits,
}

impl BitReader {
    /// A reader over the bits of `inner`. The bit counters of the outside
    /// reader are 32 bits wide, which bounds the length.
    pub fn new(inner: &[u8]) -> (r: Self)
        requires
            inner@.len() <= 0x1fff_ffff,
        ensures
            r.bits_left() == bits_of(inner@),
    {
        let data = vstd::slice::slice_to_vec(inner);
        BitReader { reader: open_bits(data) }
    }
}

impl BitRead for BitReader {
    closed spec fn bits_left(&self) -> Seq<bool> {
        unread_bits(self.reader)
    }

    fn read_ue(&mut self, name: &'static str) -> (r: Result<u32, BitReaderError>) {
        let ghost s = unread_bits(self.reader);
        let count = match next_unary1(&mut self.reader) {
            Ok(c) => c,
            Err(f) => {
                return Err(error_for(name, f));
            },
        };
        if count > 31 {
            Err(BitReaderError::ExpGolombTooLarge(name))
        } else if count > 0 {
            let ghost rest = unread_bits(self.reader);
            let val = match self.read_u32(count, name) {
                Ok(v) => v,
                Err(e) => {
                    return Err(e);
                },
            };
            proof {
                let z = count as int;
                assert(rest.take(z as int) =~= s.subrange(z + 1, 2 * z + 1));
                assert(unread_bits(self.reader) =~= s.skip(2 * z + 1));
                lemma_bits_value_bound(rest.take(z as int));
                lemma_u32_pow2_no_overflow(z as nat);
                lemma_u32_shl_is_mul(1, count);
                lemma_pow2_unfold(32);
                vstd::arithmetic::power2::lemma_pow2_strictly_increases(z as nat, 32);
                vstd::arithmetic::power2::lemma2_to64();
            }
            Ok((1 << count) - 1 + val)
        } else {
            proof {
                assert(s.subrange(1, 1) =~= Seq::<bool>::empty());
                vstd::arithmetic::power2::lemma2_to64();
            }
            Ok(0)
        }
    }

    fn read_se(&mut self, name: &'static str) -> (r: Result<i32, BitReaderError>) {
        match self.read_ue(name) {
            Ok(v) => {
                proof {
                    let s = old(self).bits_left();
                    if ue_complete(s) {
                        lemma_bits_value_bound(s.subrange(leading_zeros(s) + 1int, ue_len(s)));
                        vstd::arithmetic::power2::lemma_pow2_strictly_increases(leading_zeros(s), 32);
                        vstd::arithmetic::power2::lemma2_to64();
                    }
                }
                Ok(golomb_to_signed(v))
            },
            Err(e) => Err(e),
        }
    }

    fn read_bool(&mut self, name: &'static str) -> (r: Result<bool, BitReaderError>) {
        match next_bit(&mut self.reader) {
            Ok(b) => Ok(b),
            Err(f) => Err(error_for(name, f)),
        }
    }

    fn read_u8(&mut self, bit_count: u32, name: &'static str) -> (r: Result<u8, BitReaderError>) {
        let ghost s = unread_bits(self.reader);
        match next_u32(&mut self.reader, bit_count) {
            Ok(v) => {
                proof {
                    lemma_bits_value_bound(s.take(bit_count as int));
                    vstd::arithmetic::power2::lemma2_to64();
                    if bit_count < 8 {
                        vstd::arithmetic::power2::lemma_pow2_strictly_increases(bit_count as nat, 8);
                    }
                }
                Ok(v as u8)
            },
            Err(f) => Err(error_for(name, f)),
        }
    }

    fn read_u16(&mut self, bit_count: u32, name: &'static str) -> (r: Result<u16, BitReaderError>) {
        let ghost s = unread_bits(self.reader);
        match next_u32(&mut self.reader, bit_count) {
            Ok(v) => {
                proof {
                    lemma_bits_value_bound(s.take(bit_count as int));
                    vstd::arithmetic::power2::lemma2_to64();
                    if bit_count < 16 {
                        vstd::arithmetic::power2::lemma_pow2_strictly_increases(bit_count as nat, 16);
                    }
                }
                Ok(v as u16)
            },
            Err(f) => Err(error_for(name, f)),
        }
    }

    fn read_u32(&mut self, bit_count: u32, name: &'static str) -> (r: Result<u32, BitReaderError>) {
        match next_u32(&mut self.reader, bit_count) {
            Ok(v) => Ok(v),
            Err(f) => Err(error_for(name, f)),
        }
    }

    fn read_i32(&mut self, bit_count: u32, name: &'static str) -> (r: Result<i32, BitReaderError>) {
        match next_u32(&mut self.reader, bit_count) {
            Ok(v) => Ok(v as i32),
            Err(f) => Err(error_for(name, f)),
        }
    }

    fn has_more_rbsp_data(&mut self, name: &'static str) -> (r: Result<bool, BitReaderError>) {
        let mut throwaway = copy_bits(&self.reader);
        let probe = match next_bit(&mut throwaway) {
            Ok(_) => match next_unary1(&mut throwaway) {
                Ok(_) => Ok(()),
                Err(f) => Err(f),
            },
            Err(f) => Err(f),
        };
        match probe {
            Err(ReadFault::Eof(_)) => Ok(false),
            Err(ReadFault::Other(e)) => Err(BitReaderError::ReaderErrorFor(name, e)),
            Ok(_) => Ok(true),
        }
    }
}

/// The signed value of an Exp-Golomb `codeNum`.
pub fn golomb_to_signed(val: u32) -> (r: i32)
    requires
        val < u32::MAX,
    ensures
        r == signed_of(val as nat),
{
    let bit = val & 1;
    let half = val >> 1;
    assert(bit == val % 2) by (bit_vector)
        requires
            bit == val & 1,
    ;
    assert(half == val / 2) by (bit_vector)
        requires
            half == val >> 1,
    ;
    let sign: i32 = if bit == 1 {
        1
    } else {
        -1
    };
    (half as i32 + bit as i32) * sign
}

/// The `n` bits that write `v`, most significant bit first.
pub open spec fn bits_msb(v: nat, n: nat) -> Seq<bool>
    decreases n,
{
    if n == 0 {
        Seq::empty()
    } else {
        bits_msb(v / 2, (n - 1) as nat).push(v % 2 == 1)
    }
}

/// The largest `z` with `2^z <= v` (0 for `v <= 1`).
pub open spec fn log2(v: nat) -> nat
    decreases v,
{
    if v <= 1 {
        0
    } else {
        1 + log2(v / 2)
    }
}

/// The unsigned Exp-Golomb code of `k`: `z` zeros, a one, then `z` bits
/// that write `k + 1 - 2^z`, where `2^z <= k + 1 < 2^(z + 1)`.
pub open spec fn ue_code(k: nat) -> Seq<bool> {
    let z = log2(k + 1);
    Seq::new(z, |i: int| false) + seq![true] + bits_msb((k + 1 - pow2(z)) as nat, z)
}

proof fn lemma_leading_zeros_of(z: nat, tail: Seq<bool>)
    ensures
        leading_zeros(Seq::new(z, |i: int| false) + seq![true] + tail) == z,
    decreases z,
{
    let s = Seq::new(z, |i: int| false) + seq![true] + tail;
    if z > 0 {
        lemma_leading_zeros_of((z - 1) as nat, tail);
        assert(s.drop_first() =~= Seq::new((z - 1) as nat, |i: int| false) + seq![true] + tail);
        assert(!s[0]);
    } else {
        assert(s[0]);
    }
}

proof fn lemma_bits_msb(v: nat, n: nat)
    requires
        v < pow2(n),
    ensures
        bits_msb(v, n).len() == n,
        bits_value(bits_msb(v, n)) == v,
    decreases n,
{
    if n == 0 {
        vstd::arithmetic::power2::lemma2_to64();
    } else {
        lemma_pow2_unfold(n);
        lemma_bits_msb(v / 2, (n - 1) as nat);
        assert(bits_msb(v, n).drop_last() =~= bits_msb(v / 2, (n - 1) as nat));
    }
}

proof fn lemma_log2(v: nat)
    requires
        v >= 1,
    ensures
        pow2(log2(v)) <= v < pow2(log2(v) + 1),
    decreases v,
{
    if v <= 1 {
        vstd::arithmetic::power2::lemma2_to64();
    } else {
        lemma_log2(v / 2);
        lemma_pow2_unfold(log2(v));
        lemma_pow2_unfold(log2(v) + 1);
    }
}

/// Decoding the unsigned Exp-Golomb code of any `k` that fits a `u32` (the
/// largest code's value, `2^32 - 1`, excepted), whatever follows it, gives
/// `k` back and takes exactly the code's bits.
pub proof fn lemma_ue_round_trip(k: nat, rest: Seq<bool>)
    requires
        k < u32::MAX,
    ensures
        ue_complete(ue_code(k) + rest),
        !ue_too_large(ue_code(k) + rest),
        ue_value(ue_code(k) + rest) == k,
        ue_len(ue_code(k) + rest) == ue_code(k).len(),
{
    let z = log2(k + 1);
    lemma_log2(k + 1);
    if z > 32 {
        vstd::arithmetic::power2::lemma_pow2_strictly_increases(32, z);
    }
    vstd::arithmetic::power2::lemma2_to64();
    lemma_pow2_unfold(z + 1);
    let low = (k + 1 - pow2(z)) as nat;
    lemma_bits_msb(low, z);
    let code = ue_code(k);
    let s = code + rest;
    let tail = bits_msb(low, z) + rest;
    assert(s =~= Seq::new(z, |i: int| false) + seq![true] + tail);
    lemma_leading_zeros_of(z, tail);
    assert(s.subrange(z + 1int, 2 * z + 1int) =~= bits_msb(low, z));
}

/// A code whose prefix has more than 31 zeros, followed by its `1` bit,
/// is too large, whatever follows.
pub proof fn lemma_ue_prefix_too_large(z: nat, tail: Seq<bool>)
    requires
        z > 31,
    ensures
        ue_too_large(Seq::new(z, |i: int| false) + seq![true] + tail),
{
    lemma_leading_zeros_of(z, tail);
}

} // verus!
