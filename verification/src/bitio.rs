//! The payload as a stream of bits, the most significant bit of each byte
//! first: cut into symbols of a fixed width, and put together again.

use crate::utils::get_max_value;
use crate::utils::lemma_two_to_monotonic;
use crate::utils::two_to;
use bitstream_io::BigEndian;
use bitstream_io::BitReader;
use bitstream_io::BitWriter;
use std::io::Cursor;
use vstd::prelude::*;

verus! {

/// The number that a sequence of bits stands for, the most significant bit
/// first.
pub open spec fn bits_value(bits: Seq<bool>) -> nat
    decreases bits.len(),
{
    if bits.len() == 0 {
        0
    } else {
        2 * bits_value(bits.drop_last()) + if bits.last() {
            1nat
        } else {
            0nat
        }
    }
}

/// The `count` low bits of `value`, the most significant of them first.
pub open spec fn value_bits(value: nat, count: nat) -> Seq<bool>
    decreases count,
{
    if count == 0 {
        Seq::<bool>::empty()
    } else {
        value_bits(value / 2, (count - 1) as nat).push(value % 2 == 1)
    }
}

/// The bits of a sequence of bytes: byte after byte, the most significant bit
/// of each first.
pub open spec fn bits_of(bytes: Seq<u8>) -> Seq<bool> {
    Seq::new(8 * bytes.len(), |j: int| value_bits(bytes[j / 8] as nat, 8)[j % 8])
}

/// The bytes that a sequence of bits fills: eight bits each, the most
/// significant first. Bits that do not fill a byte are left out.
pub open spec fn bytes_of(bits: Seq<bool>) -> Seq<u8> {
    Seq::new(bits.len() / 8, |i: int| bits_value(bits.subrange(8 * i, 8 * i + 8)) as u8)
}

/// The symbols of a bit stream for symbols of `width` bits: each is the number
/// that the next `width` bits stand for; the last is made of the bits that are
/// left, which may be fewer.
pub open spec fn symbols_of(bits: Seq<bool>, width: nat) -> Seq<u8>
    decreases bits.len(),
{
    if bits.len() == 0 || width == 0 {
        Seq::<u8>::empty()
    } else if bits.len() <= width {
        seq![bits_value(bits) as u8]
    } else {
        seq![bits_value(bits.take(width as int)) as u8] + symbols_of(bits.skip(width as int), width)
    }
}

/// The smaller of two numbers.
pub open spec fn smaller(a: nat, b: nat) -> nat {
    if a < b {
        a
    } else {
        b
    }
}

/// The bits that the values give when each is written with `width` bits
/// while the budget lasts: a value is written with as many bits as the budget
/// still has, at most `width`, and reduced to that many low bits.
pub open spec fn packed_bits(values: Seq<usize>, width: nat, budget: nat) -> Seq<bool>
    decreases values.len(),
{
    if values.len() == 0 {
        Seq::<bool>::empty()
    } else {
        let count = smaller(width, budget);
        value_bits(values[0] as nat % two_to(count), count) + packed_bits(
            values.skip(1),
            width,
            (budget - count) as nat,
        )
    }
}

/// A reader of bits over a sequence of bytes.
#[verifier::external_body]
pub struct BitSource {
    reader: BitReader<Cursor<Vec<u8>>, BigEndian>,
}

/// A writer of bits that collects whole bytes.
#[verifier::external_body]
pub struct BitSink {
    writer: BitWriter<Vec<u8>, BigEndian>,
}

/// The bits that were not yet read from a source, the next one first.
pub uninterp spec fn unread_bits(source: BitSource) -> Seq<bool>;

/// The bits that were written to a sink, the first one first.
pub uninterp spec fn written_bits(sink: BitSink) -> Seq<bool>;

/// Calls `BitReader::endian` on a cursor over `bytes`, with `BigEndian`. Nothing
/// is read yet: the unread bits are those of the bytes, the most significant
/// bit of each byte first.
#[verifier::external_body]
pub(crate) fn open_source(bytes: Vec<u8>) -> (source: BitSource)
    ensures
        unread_bits(source) == bits_of(bytes@),
{
    BitSource { reader: BitReader::endian(Cursor::new(bytes), BigEndian) }
}

/// Calls `BitReader::read` for a `u8` of `count` bits. It fails where more than
/// eight bits are asked for or the bytes run out, which `requires` excludes. The
/// value is the number that the next `count` unread bits stand for, and they
/// leave the unread bits.
#[verifier::external_body]
pub(crate) fn take_bits(source: &mut BitSource, count: u32) -> (value: u8)
    requires
        1 <= count <= 8,
        count <= unread_bits(*old(source)).len(),
    ensures
        value == bits_value(unread_bits(*old(source)).take(count as int)),
        unread_bits(*final(source)) == unread_bits(*old(source)).skip(count as int),
{
    source.reader.read::<u8>(count).unwrap()
}

/// Calls `BitWriter::endian` on an empty vector, with `BigEndian`: nothing is
/// written yet.
#[verifier::external_body]
pub(crate) fn new_sink() -> (sink: BitSink)
    ensures
        written_bits(sink) == Seq::<bool>::empty(),
{
    BitSink { writer: BitWriter::endian(Vec::new(), BigEndian) }
}

/// Calls `BitWriter::write` with a `u8`. It fails where more than eight bits are
/// asked for or the value does not fit in `count` bits, which `requires`
/// excludes; writing to a vector does not fail. The `count` low bits of the value
/// are added to the written bits, the most significant first.
#[verifier::external_body]
pub(crate) fn put_bits(sink: &mut BitSink, count: u32, value: u8)
    requires
        count <= 8,
        value < two_to(count as nat),
    ensures
        written_bits(*final(sink)) == written_bits(*old(sink)) + value_bits(
            value as nat,
            count as nat,
        ),
{
    sink.writer.write(count, value).unwrap()
}

/// Calls `BitWriter::into_writer`: the bytes that the written bits fill. Bits
/// that do not fill a byte are lost.
#[verifier::external_body]
pub(crate) fn into_bytes(sink: BitSink) -> (bytes: Vec<u8>)
    ensures
        bytes@ == bytes_of(written_bits(sink)),
{
    sink.writer.into_writer()
}

/// The number that bits stand for is below two to the power of their count.
pub proof fn lemma_bits_value_bound(bits: Seq<bool>)
    ensures
        bits_value(bits) < two_to(bits.len()),
    decreases bits.len(),
{
    if bits.len() > 0 {
        lemma_bits_value_bound(bits.drop_last());
    }
}

/// Writing the number that bits stand for, with as many bits, gives the bits
/// back.
pub proof fn lemma_value_bits_of_bits_value(bits: Seq<bool>)
    ensures
        value_bits(bits_value(bits), bits.len()) == bits,
    decreases bits.len(),
{
    if bits.len() > 0 {
        lemma_value_bits_of_bits_value(bits.drop_last());
        let v = bits_value(bits);
        assert(v / 2 == bits_value(bits.drop_last()));
        assert((v % 2 == 1) == bits.last());
        assert(bits.drop_last().push(bits.last()) == bits);
    }
}

/// The bits of a number stand for the number, reduced to as many low bits.
pub proof fn lemma_bits_value_of_value_bits(value: nat, count: nat)
    ensures
        value_bits(value, count).len() == count,
        bits_value(value_bits(value, count)) == value % two_to(count),
    decreases count,
{
    if count > 0 {
        lemma_bits_value_of_value_bits(value / 2, (count - 1) as nat);
        let rest = value_bits(value / 2, (count - 1) as nat);
        assert(value_bits(value, count).drop_last() == rest);
        let m = two_to((count - 1) as nat) as int;
        lemma_two_to_monotonic(0, (count - 1) as nat);
        let v = value as int;
        let q = v / 2;
        let a = q / m;
        let b = q % m;
        vstd::arithmetic::div_mod::lemma_fundamental_div_mod(q, m);
        assert(v == a * (2 * m) + (2 * b + v % 2)) by (nonlinear_arith)
            requires
                v == 2 * q + v % 2,
                q == m * a + b,
        ;
        vstd::arithmetic::div_mod::lemma_fundamental_div_mod_converse(
            v,
            2 * m,
            a,
            2 * b + v % 2,
        );
    }
}

/// A bit stream is cut into as many symbols as hold its bits, with fewer
/// bits than a symbol has to spare.
pub proof fn lemma_symbols_len(bits: Seq<bool>, width: nat)
    requires
        width > 0,
    ensures
        bits.len() <= width * symbols_of(bits, width).len() < bits.len() + width,
    decreases bits.len(),
{
    if bits.len() == 0 {
        assert(symbols_of(bits, width).len() == 0);
        assert(width * 0 == 0);
    } else if bits.len() <= width {
        assert(symbols_of(bits, width).len() == 1);
        assert(width * 1 == width);
    } else {
        lemma_symbols_len(bits.skip(width as int), width);
        let n = symbols_of(bits.skip(width as int), width).len();
        assert(symbols_of(bits, width).len() == n + 1);
        assert(width * (n + 1) == width * n + width) by (nonlinear_arith);
    }
}

/// The symbols of `width` bits into which the bytes are cut, in order.
pub fn get_value_vec_from_char_value_mode(file_contents: &Vec<u8>, num_bits: usize) -> (values:
    Vec<u8>)
    requires
        1 <= num_bits <= 8,
    ensures
        values@ == symbols_of(bits_of(file_contents@), num_bits as nat),
        8 * file_contents.len() <= num_bits * values.len() < 8 * file_contents.len() + num_bits,
        values.len() == (8 * file_contents.len() + num_bits - 1) / (num_bits as int),
        forall|j: int| 0 <= j < values.len() ==> (#[trigger] values@[j]) < two_to(num_bits as nat),
{
    let mut source = open_source(file_contents.clone());
    let mut num_bits_remain: u128 = file_contents.len() as u128 * 8;
    let mut values: Vec<u8> = Vec::new();
    while num_bits_remain > 0
        invariant
            1 <= num_bits <= 8,
            unread_bits(source).len() == num_bits_remain,
            values@ + symbols_of(unread_bits(source), num_bits as nat) == symbols_of(
                bits_of(file_contents@),
                num_bits as nat,
            ),
        decreases num_bits_remain,
    {
        let num_bits_to_read: usize = if num_bits_remain < num_bits as u128 {
            num_bits_remain as usize
        } else {
            num_bits
        };
        let ghost unread = unread_bits(source);
        let value = take_bits(&mut source, num_bits_to_read as u32);
        proof {
            if unread.len() <= num_bits {
                assert(unread.take(num_bits_to_read as int) == unread);
            }
        }
        values.push(value);
        num_bits_remain -= num_bits_to_read as u128;
    }
    proof {
        lemma_symbols_len(bits_of(file_contents@), num_bits as nat);
        lemma_symbols_below(bits_of(file_contents@), num_bits as nat);
        let n = values.len() as int;
        let b = num_bits as int;
        let l = file_contents.len() as int;
        assert(b * n == num_bits * values.len());
        assert(n == (8 * l + b - 1) / b) by (nonlinear_arith)
            requires
                8 * l <= b * n < 8 * l + b,
                b >= 1,
        ;
    }
    values
}

/// Every symbol of `width` bits is below two to the power `width`.
pub proof fn lemma_symbols_below(bits: Seq<bool>, width: nat)
    requires
        1 <= width <= 8,
    ensures
        forall|i: int|
            0 <= i < symbols_of(bits, width).len() ==> (#[trigger] symbols_of(bits, width)[i])
                < two_to(width),
    decreases bits.len(),
{
    lemma_two_to_8();
    lemma_two_to_monotonic(width, 8);
    if bits.len() == 0 {
    } else if bits.len() <= width {
        lemma_bits_value_bound(bits);
        lemma_two_to_monotonic(bits.len(), width);
    } else {
        let first = bits.take(width as int);
        let rest = symbols_of(bits.skip(width as int), width);
        lemma_bits_value_bound(first);
        lemma_symbols_below(bits.skip(width as int), width);
        let all = symbols_of(bits, width);
        assert forall|i: int| 0 <= i < all.len() implies (#[trigger] all[i]) < two_to(width) by {
            if i > 0 {
                assert(all[i] == rest[i - 1]);
            }
        }
    }
}

/// The powers of two up to the eighth.
pub proof fn lemma_two_to_8()
    ensures
        two_to(0) == 1,
        two_to(1) == 2,
        two_to(2) == 4,
        two_to(3) == 8,
        two_to(4) == 16,
        two_to(5) == 32,
        two_to(6) == 64,
        two_to(7) == 128,
        two_to(8) == 256,
{
    reveal_with_fuel(two_to, 9);
}

/// The bytes that the values give when each is written with `num_bits` bits
/// while `total_bits` last.
pub fn pack_values(values: &Vec<usize>, num_bits: usize, total_bits: u128) -> (bytes: Vec<u8>)
    requires
        num_bits <= 8,
    ensures
        bytes@ == bytes_of(packed_bits(values@, num_bits as nat, total_bits as nat)),
{
    let mut sink = new_sink();
    let mut budget = total_bits;
    let mut i: usize = 0;
    assert(values@.skip(0) == values@);
    while i < values.len()
        invariant
            i <= values.len(),
            num_bits <= 8,
            written_bits(sink) + packed_bits(values@.skip(i as int), num_bits as nat, budget as nat)
                == packed_bits(values@, num_bits as nat, total_bits as nat),
        decreases values.len() - i,
    {
        let write_bits: usize = if budget > num_bits as u128 {
            num_bits
        } else {
            budget as usize
        };
        proof {
            lemma_two_to_monotonic(write_bits as nat, 8);
            lemma_two_to_8();
        }
        let limit = get_max_value(write_bits) + 1;
        let value = (values[i] % limit) as u8;
        let ghost written = written_bits(sink);
        let ghost rest = values@.skip(i as int);
        put_bits(&mut sink, write_bits as u32, value);
        proof {
            assert(rest[0] == values@[i as int]);
            assert(rest.skip(1) == values@.skip(i + 1));
            let piece = value_bits(value as nat, write_bits as nat);
            let tail = packed_bits(rest.skip(1), num_bits as nat, (budget - write_bits) as nat);
            assert((written + piece) + tail == written + (piece + tail));
        }
        budget -= write_bits as u128;
        i += 1;
    }
    assert(written_bits(sink) + Seq::<bool>::empty() == written_bits(sink));
    into_bytes(sink)
}

} // verus!
