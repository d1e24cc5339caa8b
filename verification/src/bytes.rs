//! Code units as pairs of bytes, in either byte order.

use vstd::prelude::*;

verus! {

/// The two bytes of a code unit: the more significant one first when
/// `big_endian`, last otherwise.
pub open spec fn unit_bytes(big_endian: bool, unit: u16) -> Seq<u8> {
    if big_endian {
        seq![(unit / 256) as u8, (unit % 256) as u8]
    } else {
        seq![(unit % 256) as u8, (unit / 256) as u8]
    }
}

/// The code unit that two bytes stand for.
pub open spec fn unit_of(big_endian: bool, first: u8, second: u8) -> u16 {
    if big_endian {
        (first * 256 + second) as u16
    } else {
        (second * 256 + first) as u16
    }
}

/// A sequence of code units as bytes: two for each unit, in order.
#[verifier::opaque]
pub open spec fn units_bytes(big_endian: bool, units: Seq<u16>) -> Seq<u8> {
    Seq::new((2 * units.len()) as nat, |i: int| unit_bytes(big_endian, units[i / 2])[i % 2])
}

/// The code units that a sequence of bytes holds, pair by pair. A byte left
/// over at the end belongs to no unit.
#[verifier::opaque]
pub open spec fn bytes_units(big_endian: bool, bytes: Seq<u8>) -> Seq<u16> {
    Seq::new(
        (bytes.len() / 2) as nat,
        |i: int| unit_of(big_endian, bytes[2 * i], bytes[2 * i + 1]),
    )
}

/// A code unit is read back from its two bytes.
pub proof fn lemma_unit_round_trip(big_endian: bool, unit: u16)
    ensures
        unit_bytes(big_endian, unit).len() == 2,
        unit_of(big_endian, unit_bytes(big_endian, unit)[0], unit_bytes(big_endian, unit)[1])
            == unit,
{
}

/// Two bytes are the bytes of the code unit they stand for.
pub proof fn lemma_pair_round_trip(big_endian: bool, first: u8, second: u8)
    ensures
        unit_bytes(big_endian, unit_of(big_endian, first, second)) == seq![first, second],
{
    assert(unit_bytes(big_endian, unit_of(big_endian, first, second)) =~= seq![first, second]);
}

/// How many bytes a sequence of units takes, and which byte stands where.
pub proof fn lemma_units_bytes_index(big_endian: bool, units: Seq<u16>)
    ensures
        units_bytes(big_endian, units).len() == 2 * units.len(),
        forall|i: int|
            0 <= i < 2 * units.len() ==> #[trigger] units_bytes(big_endian, units)[i]
                == unit_bytes(big_endian, units[i / 2])[i % 2],
{
    reveal(units_bytes);
}

/// How many units a sequence of bytes holds, and which unit stands where.
pub proof fn lemma_bytes_units_index(big_endian: bool, bytes: Seq<u8>)
    ensures
        bytes_units(big_endian, bytes).len() == bytes.len() / 2,
        forall|i: int|
            0 <= i < bytes.len() / 2 ==> #[trigger] bytes_units(big_endian, bytes)[i] == unit_of(
                big_endian,
                bytes[2 * i],
                bytes[2 * i + 1],
            ),
{
    reveal(bytes_units);
}

/// The bytes of one unit alone.
pub proof fn lemma_units_bytes_one(big_endian: bool, unit: u16)
    ensures
        units_bytes(big_endian, seq![unit]) == unit_bytes(big_endian, unit),
{
    reveal(units_bytes);
    assert(units_bytes(big_endian, seq![unit]) =~= unit_bytes(big_endian, unit));
}

/// The bytes of two sequences of units joined are their bytes, joined.
pub proof fn lemma_units_bytes_concat(big_endian: bool, a: Seq<u16>, b: Seq<u16>)
    ensures
        units_bytes(big_endian, a + b) == units_bytes(big_endian, a) + units_bytes(big_endian, b),
{
    reveal(units_bytes);
    assert(units_bytes(big_endian, a + b) =~= units_bytes(big_endian, a) + units_bytes(
        big_endian,
        b,
    ));
}

/// Bytes joined after a whole number of pairs hold the units of both parts.
pub proof fn lemma_bytes_units_concat(big_endian: bool, a: Seq<u8>, b: Seq<u8>)
    requires
        a.len() % 2 == 0,
    ensures
        bytes_units(big_endian, a + b) == bytes_units(big_endian, a) + bytes_units(big_endian, b),
{
    reveal(bytes_units);
    assert(bytes_units(big_endian, a + b) =~= bytes_units(big_endian, a) + bytes_units(
        big_endian,
        b,
    ));
}

/// Code units are read back from their bytes.
pub proof fn lemma_units_bytes_units(big_endian: bool, units: Seq<u16>)
    ensures
        units_bytes(big_endian, units).len() == 2 * units.len(),
        bytes_units(big_endian, units_bytes(big_endian, units)) == units,
{
    reveal(units_bytes);
    reveal(bytes_units);
    assert(bytes_units(big_endian, units_bytes(big_endian, units)) =~= units);
}

/// An even number of bytes are the bytes of the units they hold.
pub proof fn lemma_bytes_units_bytes(big_endian: bool, bytes: Seq<u8>)
    requires
        bytes.len() % 2 == 0,
    ensures
        units_bytes(big_endian, bytes_units(big_endian, bytes)) == bytes,
{
    reveal(units_bytes);
    reveal(bytes_units);
    assert(units_bytes(big_endian, bytes_units(big_endian, bytes)) =~= bytes);
}

/// Appends the two bytes of `unit` to `out`.
pub fn push_unit(big_endian: bool, unit: u16, out: &mut Vec<u8>)
    ensures
        final(out)@ == old(out)@ + unit_bytes(big_endian, unit),
{
    let high: u8 = (unit / 256) as u8;
    let low: u8 = (unit % 256) as u8;
    if big_endian {
        out.push(high);
        out.push(low);
    } else {
        out.push(low);
        out.push(high);
    }
    assert(out@ =~= old(out)@ + unit_bytes(big_endian, unit));
}

/// Appends the bytes of every unit of `units` to `out`.
pub fn push_units(big_endian: bool, units: &[u16], out: &mut Vec<u8>)
    ensures
        final(out)@ == old(out)@ + units_bytes(big_endian, units@),
{
    let ghost before = out@;
    let mut i: usize = 0;
    proof {
        lemma_units_bytes_index(big_endian, units@.take(0));
    }
    assert(units_bytes(big_endian, units@.take(0)) =~= Seq::<u8>::empty());
    while i < units.len()
        invariant
            i <= units.len(),
            out@ == before + units_bytes(big_endian, units@.take(i as int)),
        decreases units.len() - i,
    {
        proof {
            lemma_units_bytes_concat(big_endian, units@.take(i as int), seq![units@[i as int]]);
            lemma_units_bytes_one(big_endian, units@[i as int]);
            assert(units@.take(i + 1) =~= units@.take(i as int) + seq![units@[i as int]]);
        }
        push_unit(big_endian, units[i], out);
        i += 1;
    }
    assert(units@.take(i as int) =~= units@);
}

/// The code unit that two bytes stand for.
pub fn read_unit(big_endian: bool, first: u8, second: u8) -> (unit: u16)
    ensures
        unit == unit_of(big_endian, first, second),
{
    if big_endian {
        (first as u16) * 256 + (second as u16)
    } else {
        (second as u16) * 256 + (first as u16)
    }
}

/// Appends to `out` the code units that `bytes` holds, pair by pair. A byte
/// left over at the end is passed over.
pub fn push_bytes_units(big_endian: bool, bytes: &[u8], out: &mut Vec<u16>)
    ensures
        final(out)@ == old(out)@ + bytes_units(big_endian, bytes@),
{
    let ghost before = out@;
    let pairs: usize = bytes.len() / 2;
    let mut i: usize = 0;
    proof {
        lemma_bytes_units_index(big_endian, bytes@);
    }
    while i < pairs
        invariant
            i <= pairs,
            pairs == bytes.len() / 2,
            out@ == before + bytes_units(big_endian, bytes@).take(i as int),
            bytes_units(big_endian, bytes@).len() == pairs,
            forall|k: int|
                0 <= k < pairs ==> #[trigger] bytes_units(big_endian, bytes@)[k] == unit_of(
                    big_endian,
                    bytes@[2 * k],
                    bytes@[2 * k + 1],
                ),
        decreases pairs - i,
    {
        let unit = read_unit(big_endian, bytes[2 * i], bytes[2 * i + 1]);
        out.push(unit);
        i += 1;
        assert(out@ =~= before + bytes_units(big_endian, bytes@).take(i as int));
    }
    assert(bytes_units(big_endian, bytes@).take(i as int) =~= bytes_units(big_endian, bytes@));
}

/// Appends every byte of `bytes` to `out`.
pub fn push_all(bytes: &[u8], out: &mut Vec<u8>)
    ensures
        final(out)@ == old(out)@ + bytes@,
{
    let ghost before = out@;
    let mut i: usize = 0;
    while i < bytes.len()
        invariant
            i <= bytes.len(),
            out@ == before + bytes@.take(i as int),
        decreases bytes.len() - i,
    {
        out.push(bytes[i]);
        i += 1;
        assert(out@ =~= before + bytes@.take(i as int));
    }
    assert(bytes@.take(i as int) =~= bytes@);
}

} // verus!
