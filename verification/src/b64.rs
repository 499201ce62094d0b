//! Bytes as base64 text: how binary fields cross the wire.

use base64::Engine;
use vstd::prelude::*;

verus! {

/// The base64 character of a number below 64.
pub open spec fn symbol(n: int) -> char {
    if n < 26 {
        (n + 65) as char
    } else if n < 52 {
        (n + 71) as char
    } else if n < 62 {
        (n - 4) as char
    } else if n == 62 {
        '+'
    } else {
        '/'
    }
}

/// The four characters of a group of one byte to three. What is missing of the
/// group is padding.
pub open spec fn quad(group: Seq<u8>) -> Seq<char> {
    let a = group[0] as int;
    if group.len() == 1 {
        seq![symbol(a / 4), symbol(a % 4 * 16), '=', '=']
    } else {
        let b = group[1] as int;
        if group.len() == 2 {
            seq![symbol(a / 4), symbol(a % 4 * 16 + b / 16), symbol(b % 16 * 4), '=']
        } else {
            let c = group[2] as int;
            seq![
                symbol(a / 4),
                symbol(a % 4 * 16 + b / 16),
                symbol(b % 16 * 4 + c / 64),
                symbol(c % 64),
            ]
        }
    }
}

/// The base64 text of bytes, with the standard alphabet and padding.
pub open spec fn base64_text(bytes: Seq<u8>) -> Seq<char>
    decreases bytes.len(),
{
    if bytes.len() == 0 {
        Seq::empty()
    } else if bytes.len() <= 3 {
        quad(bytes)
    } else {
        quad(bytes.take(3)) + base64_text(bytes.skip(3))
    }
}

/// Why a text is not base64.
#[derive(Clone, Copy, Debug, PartialEq, Eq, Structural)]
pub enum Base64Error {
    /// A byte, by its position, that does not belong there.
    InvalidByte(usize, u8),
    /// The number of symbols cannot be.
    InvalidLength(usize),
    /// The last symbol, by its position, has bits that stand for nothing.
    InvalidLastSymbol(usize, u8),
    /// The padding is missing or wrong.
    InvalidPadding,
}

/// Why the standard base64 engine does not decode a text.
pub uninterp spec fn base64_fault(text: Seq<char>) -> Base64Error;

/// Encodes by `base64`'s `Engine::encode` of the engine `STANDARD`, which uses
/// the standard alphabet and pads. It panics where the length of the text
/// overflows.
#[verifier::external_body]
fn encode(bytes: &[u8]) -> (text: String)
    requires
        4 * ((bytes@.len() + 2) / 3) <= isize::MAX,
    ensures
        text@ == base64_text(bytes@),
{
    base64::engine::general_purpose::STANDARD.encode(bytes)
}

/// Decodes by `base64`'s `Engine::decode` of the engine `STANDARD`. It decodes
/// what the engine encodes and nothing else: padding must be there as it should
/// be, and no bits may be left over. The error says what is wrong first; which
/// of the errors comes is not stated beyond being a function of the text.
#[verifier::external_body]
fn decode(text: &str) -> (bytes: Result<Vec<u8>, Base64Error>)
    ensures
        bytes matches Ok(b) ==> base64_text(b@) == text@,
        bytes matches Err(e) ==> e == base64_fault(text@) && forall|b: Seq<u8>|
            #[trigger] base64_text(b) != text@,
{
    base64::engine::general_purpose::STANDARD.decode(text).map_err(
        |e|
            match e {
                base64::DecodeError::InvalidByte(at, byte) => Base64Error::InvalidByte(at, byte),
                base64::DecodeError::InvalidLength(n) => Base64Error::InvalidLength(n),
                base64::DecodeError::InvalidLastSymbol(at, byte) => Base64Error::InvalidLastSymbol(
                    at,
                    byte,
                ),
                base64::DecodeError::InvalidPadding => Base64Error::InvalidPadding,
            },
    )
}

/// The text that bytes cross the wire as.
pub fn serialize(bytes: &[u8]) -> (text: String)
    requires
        4 * ((bytes@.len() + 2) / 3) <= isize::MAX,
    ensures
        text@ == base64_text(bytes@),
{
    encode(bytes)
}

/// The bytes that a text stands for.
pub fn deserialize(text: &str) -> (bytes: Result<Vec<u8>, Base64Error>)
    ensures
        bytes is Ok <==> exists|b: Seq<u8>| #[trigger] base64_text(b) == text@,
        bytes matches Ok(b) ==> base64_text(b@) == text@,
        bytes matches Err(e) ==> e == base64_fault(text@),
{
    decode(text)
}

proof fn lemma_symbol(a: int, b: int)
    requires
        0 <= a < 64,
        0 <= b < 64,
    ensures
        symbol(a) == symbol(b) ==> a == b,
        symbol(a) != '=',
{
}

proof fn lemma_quad(a: Seq<u8>, b: Seq<u8>)
    requires
        1 <= a.len() <= 3,
        1 <= b.len() <= 3,
        quad(a) == quad(b),
    ensures
        a == b,
{
    let s = quad(a);
    let t = quad(b);
    assert(s[0] == t[0] && s[1] == t[1] && s[2] == t[2] && s[3] == t[3]);
    let (a0, b0) = (a[0] as int, b[0] as int);
    lemma_symbol(a0 / 4, b0 / 4);
    if a.len() == 1 {
        lemma_symbol(a0 % 4 * 16, a0 % 4 * 16);
        if b.len() == 1 {
            lemma_symbol(a0 % 4 * 16, b0 % 4 * 16);
        } else {
            let b1 = b[1] as int;
            if b.len() == 2 {
                lemma_symbol(b1 % 16 * 4, 0);
            } else {
                lemma_symbol(b1 % 16 * 4 + b[2] as int / 64, 0);
            }
        }
    } else {
        let a1 = a[1] as int;
        if b.len() == 1 {
            if a.len() == 2 {
                lemma_symbol(a1 % 16 * 4, 0);
            } else {
                lemma_symbol(a1 % 16 * 4 + a[2] as int / 64, 0);
            }
        } else {
            let b1 = b[1] as int;
            lemma_symbol(a0 % 4 * 16 + a1 / 16, b0 % 4 * 16 + b1 / 16);
            if a.len() == 2 && b.len() == 2 {
                lemma_symbol(a1 % 16 * 4, b1 % 16 * 4);
            } else if a.len() == 2 {
                lemma_symbol(b[2] as int % 64, 0);
            } else if b.len() == 2 {
                lemma_symbol(a[2] as int % 64, 0);
            } else {
                let (a2, b2) = (a[2] as int, b[2] as int);
                lemma_symbol(a1 % 16 * 4 + a2 / 64, b1 % 16 * 4 + b2 / 64);
                lemma_symbol(a2 % 64, b2 % 64);
            }
        }
    }
    assert(a =~= b);
}

proof fn lemma_text_starts(bytes: Seq<u8>)
    requires
        bytes.len() > 0,
    ensures
        base64_text(bytes).len() >= 4,
        base64_text(bytes).take(4) == quad(
            if bytes.len() <= 3 {
                bytes
            } else {
                bytes.take(3)
            },
        ),
        bytes.len() <= 3 ==> base64_text(bytes).skip(4) == Seq::<char>::empty(),
        bytes.len() > 3 ==> base64_text(bytes).skip(4) == base64_text(bytes.skip(3)),
{
    let head = if bytes.len() <= 3 {
        bytes
    } else {
        bytes.take(3)
    };
    assert(quad(head).len() == 4);
    assert(base64_text(bytes).take(4) =~= quad(head));
    if bytes.len() > 3 {
        assert(base64_text(bytes).skip(4) =~= base64_text(bytes.skip(3)));
    } else {
        assert(base64_text(bytes).skip(4) =~= Seq::empty());
    }
}

/// No two byte strings have the same base64 text.
pub proof fn lemma_base64_injective(a: Seq<u8>, b: Seq<u8>)
    requires
        base64_text(a) == base64_text(b),
    ensures
        a == b,
    decreases a.len(),
{
    if a.len() > 0 {
        lemma_text_starts(a);
    }
    if b.len() > 0 {
        lemma_text_starts(b);
    }
    if a.len() == 0 || b.len() == 0 {
        assert(a =~= b);
    } else {
        let ha = if a.len() <= 3 {
            a
        } else {
            a.take(3)
        };
        let hb = if b.len() <= 3 {
            b
        } else {
            b.take(3)
        };
        lemma_quad(ha, hb);
        if a.len() > 3 {
            lemma_text_starts(a.skip(3));
        }
        if b.len() > 3 {
            lemma_text_starts(b.skip(3));
        }
        if a.len() > 3 && b.len() > 3 {
            lemma_base64_injective(a.skip(3), b.skip(3));
            assert(a =~= a.take(3) + a.skip(3));
            assert(b =~= b.take(3) + b.skip(3));
        }
    }
}

/// What was serialized is deserialized to the same bytes.
pub proof fn lemma_base64_reads_back(bytes: Seq<u8>, read: Result<Vec<u8>, Base64Error>)
    requires
        read is Ok <==> exists|b: Seq<u8>| #[trigger] base64_text(b) == base64_text(bytes),
        read matches Ok(b) ==> base64_text(b@) == base64_text(bytes),
    ensures
        read matches Ok(b) && b@ == bytes,
{
    assert(base64_text(bytes) == base64_text(bytes));
    lemma_base64_injective(read->Ok_0@, bytes);
}

}
