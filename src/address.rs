use vstd::prelude::*;

verus! {

/// A 20-byte account or contract address.
#[derive(Clone, Copy, Debug)]
pub struct Address {
    pub bytes: [u8; 20],
}

impl PartialEq for Address {
    fn eq(&self, other: &Address) -> (r: bool) {
        let mut i: usize = 0;
        while i < 20
            invariant
                0 <= i <= 20,
                forall|j: int| 0 <= j < i ==> self.bytes@[j] == other.bytes@[j],
            decreases 20 - i,
        {
            if self.bytes[i] != other.bytes[i] {
                return false;
            }
            i = i + 1;
        }
        assert(self.bytes =~= other.bytes);
        true
    }
}

impl vstd::std_specs::cmp::PartialEqSpecImpl for Address {
    open spec fn obeys_eq_spec() -> bool {
        true
    }

    open spec fn eq_spec(&self, o: &Address) -> bool {
        *self == *o
    }
}

/// Lower-case hexadecimal digit of `d` (below 16).
pub open spec fn hex_digit(d: int) -> char {
    seq!['0', '1', '2', '3', '4', '5', '6', '7', '8', '9', 'a', 'b', 'c', 'd', 'e', 'f'][d]
}

/// Two lower-case hexadecimal digits of a byte.
pub open spec fn hex_byte(b: u8) -> Seq<char> {
    seq![hex_digit(b as int / 16), hex_digit(b as int % 16)]
}

/// Every byte of `b`, in order, as two lower-case hexadecimal digits.
pub open spec fn hex_bytes(b: Seq<u8>) -> Seq<char>
    decreases b.len(),
{
    if b.len() == 0 {
        Seq::empty()
    } else {
        hex_bytes(b.drop_last()) + hex_byte(b.last())
    }
}

/// The text form of an address: `0x` followed by all its bytes in lower-case
/// hexadecimal.
pub open spec fn address_display(b: Seq<u8>) -> Seq<char> {
    seq!['0', 'x'] + hex_bytes(b)
}

proof fn lemma_hex_byte_injective(x: u8, y: u8)
    requires
        hex_byte(x) == hex_byte(y),
    ensures
        x == y,
{
    let d = seq!['0', '1', '2', '3', '4', '5', '6', '7', '8', '9', 'a', 'b', 'c', 'd', 'e', 'f'];
    assert(d[0] == '0' && d[1] == '1' && d[2] == '2' && d[3] == '3' && d[4] == '4' && d[5] == '5'
        && d[6] == '6' && d[7] == '7' && d[8] == '8' && d[9] == '9' && d[10] == 'a' && d[11] == 'b'
        && d[12] == 'c' && d[13] == 'd' && d[14] == 'e' && d[15] == 'f');
    assert(hex_byte(x)[0] == hex_byte(y)[0] && hex_byte(x)[1] == hex_byte(y)[1]);
    assert(x as int / 16 == y as int / 16);
    assert(x as int % 16 == y as int % 16);
}

proof fn lemma_hex_bytes_len(b: Seq<u8>)
    ensures
        hex_bytes(b).len() == 2 * b.len(),
    decreases b.len(),
{
    if b.len() > 0 {
        lemma_hex_bytes_len(b.drop_last());
    }
}

proof fn lemma_hex_bytes_injective(a: Seq<u8>, b: Seq<u8>)
    requires
        a.len() == b.len(),
        hex_bytes(a) == hex_bytes(b),
    ensures
        a == b,
    decreases a.len(),
{
    if a.len() > 0 {
        let ha = hex_bytes(a.drop_last());
        let hb = hex_bytes(b.drop_last());
        lemma_hex_bytes_len(a.drop_last());
        lemma_hex_bytes_len(b.drop_last());
        let n = ha.len() as int;
        assert((ha + hex_byte(a.last())).subrange(n, n + 2) =~= hex_byte(a.last()));
        assert((hb + hex_byte(b.last())).subrange(n, n + 2) =~= hex_byte(b.last()));
        assert((ha + hex_byte(a.last())).subrange(0, n) =~= ha);
        assert((hb + hex_byte(b.last())).subrange(0, n) =~= hb);
        lemma_hex_byte_injective(a.last(), b.last());
        lemma_hex_bytes_injective(a.drop_last(), b.drop_last());
        assert(a =~= a.drop_last().push(a.last()));
        assert(b =~= b.drop_last().push(b.last()));
    }
}

/// Distinct addresses have distinct text forms, so a report line names its
/// pool unambiguously.
pub proof fn lemma_address_display_injective(a: Address, b: Address)
    ensures
        address_display(a.bytes@) == address_display(b.bytes@) ==> a == b,
{
    if address_display(a.bytes@) == address_display(b.bytes@) {
        let p = seq!['0', 'x'];
        assert((p + hex_bytes(a.bytes@)).subrange(2, (p + hex_bytes(a.bytes@)).len() as int)
            =~= hex_bytes(a.bytes@));
        assert((p + hex_bytes(b.bytes@)).subrange(2, (p + hex_bytes(b.bytes@)).len() as int)
            =~= hex_bytes(b.bytes@));
        lemma_hex_bytes_injective(a.bytes@, b.bytes@);
        assert(a.bytes =~= b.bytes);
    }
}

/// Relies on the `LowerHex` impl of ethers-core's `H160` (fixed-hash), in its
/// alternate form: it writes `0x`, then each byte as two lower-case hex digits.
#[verifier::external_body]
pub(crate) fn address_text(a: &Address) -> (r: String)
    ensures
        r@ == address_display(a.bytes@),
{
    format!("{:#x}", ethers_core::types::H160(a.bytes))
}

} // verus!
