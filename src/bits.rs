use vstd::prelude::*;

verus! {

/// Whether bit `i` of the byte buffer `s` is one: bit `i` is bit `i % 8`
/// (least significant first) of byte `i / 8`.
pub open spec fn bit_on(s: Seq<u8>, i: int) -> bool {
    s[i / 8] & (1u8 << ((i % 8) as u8)) != 0
}

proof fn lemma_or_bit(b: u8, x: u8, y: u8)
    requires
        x < 8,
        y < 8,
    ensures
        ((b | (1u8 << x)) & (1u8 << y)) != 0 <==> (x == y || (b & (1u8 << y)) != 0),
{
    assert(((b | (1u8 << x)) & (1u8 << y)) != 0 <==> (x == y || (b & (1u8 << y)) != 0))
        by (bit_vector)
        requires
            x < 8,
            y < 8,
    ;
}

/// Sets bit `bit` of `buf` to one and leaves every other bit as it was.
pub fn set_bit(bit: usize, buf: &mut Vec<u8>)
    requires
        bit / 8 < old(buf)@.len(),
    ensures
        final(buf)@ == old(buf)@.update(
            bit as int / 8,
            old(buf)@[bit as int / 8] | (1u8 << ((bit % 8) as u8)),
        ),
        forall|i: int|
            0 <= i < 8 * final(buf)@.len() ==> #[trigger] bit_on(final(buf)@, i) == (i == bit
                || bit_on(old(buf)@, i)),
{
    let byte = bit / 8;
    let bit_in_byte = (bit % 8) as u8;
    let v = buf[byte] | (1u8 << bit_in_byte);
    buf.set(byte, v);
    proof {
        assert forall|i: int| 0 <= i < 8 * buf@.len() implies #[trigger] bit_on(buf@, i) == (i
            == bit || bit_on(old(buf)@, i)) by {
            lemma_or_bit(old(buf)@[byte as int], bit_in_byte, (i % 8) as u8);
            if i / 8 == byte as int && i % 8 == bit_in_byte as int {
                assert(i == bit);
            }
        }
    }
}

/// Whether bit `bit` of `buf` is one.
pub fn check_bit(bit: usize, buf: &[u8]) -> (r: bool)
    requires
        bit / 8 < buf@.len(),
    ensures
        r == bit_on(buf@, bit as int),
{
    let byte = bit / 8;
    let bit_in_byte = (bit % 8) as u8;
    (buf[byte] & (1u8 << bit_in_byte)) != 0
}

} // verus!
