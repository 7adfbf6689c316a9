use crate::text::{hex_encode, hex_lower, nibble};
use ethers_core::types::H160;
use vstd::prelude::*;

verus! {

/// The 20-byte address of a contract.
#[derive(Clone, Copy, Debug, PartialEq, Eq, Hash)]
pub struct Address {
    pub bytes: [u8; 20],
}

impl View for Address {
    type V = Seq<u8>;

    open spec fn view(&self) -> Seq<u8> {
        self.bytes@
    }
}

/// Whether the address parser passes over `c`.
pub open spec fn is_hex_space(c: char) -> bool {
    c == ' ' || c == '\r' || c == '\n' || c == '\t'
}

/// The value of a hexadecimal digit, in either case.
pub open spec fn hex_value(c: char) -> Option<int> {
    if '0' <= c <= '9' {
        Some(c as int - '0' as int)
    } else if 'a' <= c <= 'f' {
        Some(c as int - 'a' as int + 10)
    } else if 'A' <= c <= 'F' {
        Some(c as int - 'A' as int + 10)
    } else {
        None
    }
}

/// The text without a leading `0x`.
pub open spec fn strip_0x(s: Seq<char>) -> Seq<char> {
    if s.len() >= 2 && s[0] == '0' && s[1] == 'x' {
        s.skip(2)
    } else {
        s
    }
}

/// The hexadecimal digits of an address text: what follows a leading
/// `0x`, without blanks, tabs and line ends.
pub open spec fn address_digits(s: Seq<char>) -> Seq<char> {
    strip_0x(s).filter(|c: char| !is_hex_space(c))
}

/// The address that a text spells: exactly 40 hexadecimal digits, two for
/// each byte, the first byte first.
pub open spec fn parse_address(s: Seq<char>) -> Option<Seq<u8>> {
    let digits = address_digits(s);
    if digits.len() == 40 && forall|i: int| 0 <= i < 40 ==> hex_value(#[trigger] digits[i]) is Some {
        Some(
            Seq::new(
                20,
                |i: int| (hex_value(digits[2 * i])->0 * 16 + hex_value(digits[2 * i + 1])->0) as u8,
            ),
        )
    } else {
        None
    }
}

/// `<H160 as FromStr>::from_str`, reached through `str::parse`: reads an
/// address from 40 hexadecimal digits in either case, after an optional
/// `0x`; blanks, tabs and line ends between the digits are passed over,
/// and any other text fails.
#[verifier::external_body]
fn h160_from_str(s: &str) -> (parsed: Option<Address>)
    ensures
        parsed is Some == parse_address(s@) is Some,
        parsed is Some ==> parsed->0@ == parse_address(s@)->0,
{
    s.parse::<H160>().ok().map(|h| Address { bytes: h.0 })
}

proof fn lemma_filter_keeps_all(s: Seq<char>, pred: spec_fn(char) -> bool)
    requires
        forall|i: int| 0 <= i < s.len() ==> pred(#[trigger] s[i]),
    ensures
        s.filter(pred) == s,
    decreases s.len(),
{
    reveal(Seq::filter);
    if s.len() > 0 {
        lemma_filter_keeps_all(s.drop_last(), pred);
        assert(s.drop_last().push(s.last()) =~= s);
    }
}

/// The text `0x` followed by the hexadecimal digits of `bytes` spells the
/// address `bytes` if these are 20 bytes, and no address otherwise.
pub proof fn lemma_parse_of_hex(bytes: Seq<u8>)
    ensures
        parse_address(seq!['0', 'x'] + hex_lower(bytes)) == if bytes.len() == 20 {
            Some(bytes)
        } else {
            None
        },
{
    let hex = hex_lower(bytes);
    let s = seq!['0', 'x'] + hex;
    assert(strip_0x(s) =~= hex);
    let pred = |c: char| !is_hex_space(c);
    assert forall|i: int| 0 <= i < hex.len() implies pred(#[trigger] hex[i]) && hex_value(
        hex[i],
    ) == Some(nibble(bytes, i)) by {
        let d = nibble(bytes, i);
        assert(0 <= d < 16);
    }
    lemma_filter_keeps_all(hex, pred);
    assert(address_digits(s) == hex);
    if bytes.len() == 20 {
        assert(parse_address(s)->0 =~= bytes);
    }
}

impl Address {
    /// The address of 20 zero bytes.
    pub fn zero() -> (a: Address)
        ensures
            a@ == Seq::new(20, |i: int| 0u8),
    {
        let a = Address { bytes: [0u8; 20] };
        assert(a@ =~= Seq::new(20, |i: int| 0u8));
        a
    }

    /// Whether the two addresses hold the same bytes.
    pub fn same(&self, other: &Address) -> (equal: bool)
        ensures
            equal == (self@ == other@),
    {
        let mut i: usize = 0;
        while i < 20
            invariant
                i <= 20,
                forall|k: int| 0 <= k < i ==> self.bytes[k] == other.bytes[k],
            decreases 20 - i,
        {
            if self.bytes[i] != other.bytes[i] {
                return false;
            }
            i = i + 1;
        }
        assert(self@ =~= other@);
        true
    }

    /// The bytes of the address.
    pub fn to_bytes(&self) -> (bytes: Vec<u8>)
        ensures
            bytes@ == self@,
    {
        let mut bytes: Vec<u8> = Vec::new();
        let mut i: usize = 0;
        while i < 20
            invariant
                i <= 20,
                bytes@ == self@.take(i as int),
            decreases 20 - i,
        {
            bytes.push(self.bytes[i]);
            i = i + 1;
            assert(self@.take(i as int) =~= self@.take(i - 1).push(self.bytes[i - 1]));
        }
        assert(self@.take(20) =~= self@);
        bytes
    }

    /// The address in text: `0x` and 40 lower-case hexadecimal digits.
    pub fn to_hex(&self) -> (s: String)
        ensures
            s@ == seq!['0', 'x'] + hex_lower(self@),
    {
        proof {
            reveal_strlit("0x");
        }
        let mut s = String::from_str("0x");
        assert(s@ =~= seq!['0', 'x']);
        let digits = hex_encode(&self.to_bytes());
        s.append(digits.as_str());
        s
    }

    /// Reads an address from text: 40 hexadecimal digits after an
    /// optional `0x`.
    pub fn parse(s: &str) -> (parsed: Option<Address>)
        ensures
            parsed is Some == parse_address(s@) is Some,
            parsed is Some ==> parsed->0@ == parse_address(s@)->0,
    {
        h160_from_str(s)
    }
}

} // verus!
