//! Lowercase hexadecimal text for binary data.

use vstd::prelude::*;
use vstd::string::StringExecFns;

verus! {

/// The ASCII code of the lowercase hexadecimal digit for a value below sixteen.
pub open spec fn digit_of(n: u8) -> u8 {
    if n < 10 {
        (n + 48) as u8
    } else {
        (n + 87) as u8
    }
}

/// Whether an ASCII code is one of `0-9a-f`.
pub open spec fn is_digit(c: u8) -> bool {
    (48 <= c && c <= 57) || (97 <= c && c <= 102)
}

/// The value that a hexadecimal digit stands for.
pub open spec fn value_of(c: u8) -> u8 {
    if c <= 57 {
        (c - 48) as u8
    } else {
        (c - 87) as u8
    }
}

/// The hexadecimal text of a byte string: two digits per byte, high half first.
pub open spec fn encode(bytes: Seq<u8>) -> Seq<u8> {
    Seq::new(
        2 * bytes.len(),
        |i: int|
            if i % 2 == 0 {
                digit_of(bytes[i / 2] / 16)
            } else {
                digit_of(bytes[i / 2] % 16)
            },
    )
}

/// Text of even length that holds hexadecimal digits only.
pub open spec fn well_formed(text: Seq<u8>) -> bool {
    &&& text.len() % 2 == 0
    &&& forall|i: int| 0 <= i < text.len() ==> is_digit(#[trigger] text[i])
}

/// The byte string that well-formed hexadecimal text stands for.
pub open spec fn decode(text: Seq<u8>) -> Seq<u8> {
    Seq::new(
        text.len() / 2,
        |i: int| (value_of(text[2 * i]) * 16 + value_of(text[2 * i + 1])) as u8,
    )
}

/// The characters of ASCII text.
pub open spec fn as_chars(text: Seq<u8>) -> Seq<char> {
    Seq::new(text.len(), |i: int| text[i] as char)
}

/// Encoding yields well-formed text, and decoding it gives the bytes back.
pub proof fn lemma_decode_encode(bytes: Seq<u8>)
    ensures
        well_formed(encode(bytes)),
        decode(encode(bytes)) == bytes,
{
    let text = encode(bytes);
    assert forall|i: int| 0 <= i < text.len() implies is_digit(#[trigger] text[i]) by {
        let b = bytes[i / 2];
        assert(b / 16 < 16 && b % 16 < 16);
    }
    assert forall|i: int| 0 <= i < bytes.len() implies decode(text)[i] == bytes[i] by {
        let b = bytes[i];
        assert((2 * i) / 2 == i && (2 * i + 1) / 2 == i);
        assert(text[2 * i] == digit_of(b / 16));
        assert(text[2 * i + 1] == digit_of(b % 16));
        assert(value_of(digit_of(b / 16)) == b / 16);
        assert(value_of(digit_of(b % 16)) == b % 16);
    }
    assert(decode(text) =~= bytes);
}

/// Decoding well-formed text and encoding the bytes gives the text back.
pub proof fn lemma_encode_decode(text: Seq<u8>)
    requires
        well_formed(text),
    ensures
        encode(decode(text)) == text,
{
    let bytes = decode(text);
    assert forall|i: int| 0 <= i < text.len() implies encode(bytes)[i] == text[i] by {
        let k = i / 2;
        let hi = value_of(text[2 * k]);
        let lo = value_of(text[2 * k + 1]);
        assert(is_digit(text[2 * k]) && is_digit(text[2 * k + 1]));
        assert(hi < 16 && lo < 16);
        assert(bytes[k] == hi * 16 + lo);
        assert((hi * 16 + lo) / 16 == hi && (hi * 16 + lo) % 16 == lo);
        assert(digit_of(hi) == text[2 * k]);
        assert(digit_of(lo) == text[2 * k + 1]);
    }
    assert(encode(bytes) =~= text);
}

/// The digit for a value below sixteen.
pub fn digit(n: u8) -> (c: u8)
    requires
        n < 16,
    ensures
        c == digit_of(n),
        is_digit(c),
{
    if n <= 9 {
        n + 48
    } else {
        n + 87
    }
}

/// The value of a hexadecimal digit, or `None` for any other byte.
pub fn digit_value(c: u8) -> (v: Option<u8>)
    ensures
        is_digit(c) <==> v is Some,
        v matches Some(n) ==> n == value_of(c) && n < 16,
{
    if c >= 48 && c <= 57 {
        Some(c - 48)
    } else if c >= 97 && c <= 102 {
        Some(c - 87)
    } else {
        None
    }
}

/// The one-character text of the digit for a value below sixteen.
pub fn digit_text(n: u8) -> (s: &'static str)
    requires
        n < 16,
    ensures
        s@ == seq![digit_of(n) as char],
{
    proof {
        reveal_strlit("0");
        reveal_strlit("1");
        reveal_strlit("2");
        reveal_strlit("3");
        reveal_strlit("4");
        reveal_strlit("5");
        reveal_strlit("6");
        reveal_strlit("7");
        reveal_strlit("8");
        reveal_strlit("9");
        reveal_strlit("a");
        reveal_strlit("b");
        reveal_strlit("c");
        reveal_strlit("d");
        reveal_strlit("e");
        reveal_strlit("f");
    }
    let s = match n {
        0 => "0",
        1 => "1",
        2 => "2",
        3 => "3",
        4 => "4",
        5 => "5",
        6 => "6",
        7 => "7",
        8 => "8",
        9 => "9",
        10 => "a",
        11 => "b",
        12 => "c",
        13 => "d",
        14 => "e",
        _ => "f",
    };
    assert(s@ =~= seq![digit_of(n) as char]);
    s
}

/// Hexadecimal text that is known to be well formed.
#[derive(Debug)]
pub struct Hex(Vec<u8>);

impl View for Hex {
    type V = Seq<u8>;

    closed spec fn view(&self) -> Seq<u8> {
        self.0@
    }
}

impl Hex {
    #[verifier::type_invariant]
    spec fn inv(self) -> bool {
        well_formed(self.0@)
    }

    /// Takes text as it is if it is well formed.
    pub fn from_text(text: Vec<u8>) -> (r: Option<Hex>)
        ensures
            well_formed(text@) <==> r is Some,
            r matches Some(h) ==> h@ == text@,
    {
        if text.len() % 2 != 0 {
            return None;
        }
        let mut i: usize = 0;
        while i < text.len()
            invariant
                i <= text.len(),
                forall|j: int| 0 <= j < i ==> is_digit(#[trigger] text@[j]),
            decreases text.len() - i,
        {
            if digit_value(text[i]).is_none() {
                return None;
            }
            i += 1;
        }
        Some(Hex(text))
    }

    /// The encoded bytes.
    pub fn to_bytes(&self) -> (r: Vec<u8>)
        ensures
            r@ == decode(self@),
    {
        proof {
            use_type_invariant(self);
        }
        let n = self.0.len();
        let mut out: Vec<u8> = Vec::new();
        let mut i: usize = 0;
        while i < n / 2
            invariant
                n == self.0@.len(),
                well_formed(self.0@),
                i <= n / 2,
                out@ == decode(self.0@).take(i as int),
            decreases n / 2 - i,
        {
            let hi = digit_value(self.0[2 * i]).unwrap();
            let lo = digit_value(self.0[2 * i + 1]).unwrap();
            out.push(hi << 4 | lo);
            proof {
                assert((hi << 4 | lo) == hi * 16 + lo) by (bit_vector)
                    requires
                        hi < 16,
                        lo < 16,
                ;
                assert(out@ =~= decode(self.0@).take(i + 1));
            }
            i += 1;
        }
        proof {
            assert(out@ =~= decode(self.0@));
        }
        out
    }

    /// The text as a string.
    pub fn to_string(&self) -> (s: String)
        ensures
            s@ == as_chars(self@),
    {
        proof {
            use_type_invariant(self);
        }
        let n = self.0.len();
        let mut s = String::new();
        let mut i: usize = 0;
        while i < n
            invariant
                n == self.0@.len(),
                well_formed(self.0@),
                i <= n,
                s@ == as_chars(self.0@).take(i as int),
            decreases n - i,
        {
            let c = self.0[i];
            let v = digit_value(c).unwrap();
            s.append(digit_text(v));
            proof {
                assert(digit_of(v) == c);
                assert(s@ =~= as_chars(self.0@).take(i + 1));
            }
            i += 1;
        }
        proof {
            assert(s@ =~= as_chars(self.0@));
        }
        s
    }

    /// The text itself, as ASCII bytes.
    pub fn as_text(&self) -> (r: &Vec<u8>)
        ensures
            r@ == self@,
            well_formed(r@),
    {
        proof {
            use_type_invariant(self);
        }
        &self.0
    }
}

impl Clone for Hex {
    fn clone(&self) -> (r: Self)
        ensures
            r@ == self@,
    {
        proof {
            use_type_invariant(self);
        }
        Hex(self.0.clone())
    }
}

impl PartialEq for Hex {
    fn eq(&self, other: &Self) -> (r: bool) {
        let n = self.0.len();
        if n != other.0.len() {
            return false;
        }
        let mut i: usize = 0;
        while i < n
            invariant
                n == self.0@.len(),
                n == other.0@.len(),
                i <= n,
                self.0@.take(i as int) == other.0@.take(i as int),
            decreases n - i,
        {
            if self.0[i] != other.0[i] {
                return false;
            }
            proof {
                assert(self.0@.take(i + 1) == self.0@.take(i as int).push(self.0@[i as int]));
                assert(other.0@.take(i + 1) == other.0@.take(i as int).push(other.0@[i as int]));
            }
            i += 1;
        }
        proof {
            assert(self.0@.take(n as int) == self.0@);
            assert(other.0@.take(n as int) == other.0@);
        }
        true
    }
}

impl vstd::std_specs::cmp::PartialEqSpecImpl for Hex {
    open spec fn obeys_eq_spec() -> bool {
        true
    }

    open spec fn eq_spec(&self, other: &Self) -> bool {
        self@ == other@
    }
}

impl Eq for Hex {

}

impl From<&[u8]> for Hex {
    /// Encodes a byte string.
    fn from(bytes: &[u8]) -> (r: Hex)
        ensures
            r@ == encode(bytes@),
    {
        let mut out: Vec<u8> = Vec::new();
        let mut i: usize = 0;
        while i < bytes.len()
            invariant
                i <= bytes.len(),
                out@ == encode(bytes@).take(2 * i),
            decreases bytes.len() - i,
        {
            let b = bytes[i];
            let hi = (b & 0xf0) >> 4;
            let lo = b & 0x0f;
            proof {
                assert((b & 0xf0) >> 4 == b / 16) by (bit_vector);
                assert(b & 0x0f == b % 16) by (bit_vector);
            }
            out.push(digit(hi));
            out.push(digit(lo));
            proof {
                assert((2 * i) / 2 == i && (2 * i + 1) / 2 == i);
                assert(out@ =~= encode(bytes@).take(2 * (i + 1)));
            }
            i += 1;
        }
        proof {
            assert(out@ =~= encode(bytes@));
            lemma_decode_encode(bytes@);
        }
        Hex(out)
    }
}

impl vstd::std_specs::convert::FromSpecImpl<&[u8]> for Hex {
    open spec fn obeys_from_spec() -> bool {
        false
    }

    open spec fn from_spec(bytes: &[u8]) -> Self {
        arbitrary()
    }
}

impl vstd::std_specs::convert::FromSpecImpl<Hex> for Vec<u8> {
    open spec fn obeys_from_spec() -> bool {
        false
    }

    open spec fn from_spec(value: Hex) -> Self {
        arbitrary()
    }
}

impl From<Hex> for Vec<u8> {
    /// Decodes the text.
    fn from(value: Hex) -> (r: Vec<u8>)
        ensures
            r@ == decode(value@),
    {
        value.to_bytes()
    }
}

} // verus!
