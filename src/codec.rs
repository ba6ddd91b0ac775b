//! Order-preserving text encodings of timestamps.
use vstd::prelude::*;

use crate::radix::{
    ascending_from, be_bytes, be_value, digits, first_less_at, lemma_ascending, lemma_be_bytes,
    lemma_be_value_bound, lemma_be_value_injective, lemma_digits_injective, lemma_digits_order,
    lemma_digits_shape, lemma_power_128, lemma_power_adds, lemma_power_le, lemma_power_multiplies,
    lemma_lex_asymmetric, lemma_power_positive, lemma_radix_text_shape, lex_lt, pad_bits, power, radix_text,
    strictly_ascending, text_len,
};
use crate::time::{Error, Geotime};

verus! {

/// Hexadecimal digits, in code-point order.
pub const HEX_SYMBOLS: &'static str = "0123456789abcdef";

/// The extended-hex base-32 symbols of RFC 4648.
pub const BASE32HEX_SYMBOLS: &'static str = "0123456789ABCDEFGHIJKLMNOPQRSTUV";

/// Digits, then lowercase letters without `a`, `i`, `l` and `o`.
pub const GEOHASH_SYMBOLS: &'static str = "0123456789bcdefghjkmnpqrstuvwxyz";

/// Digits, `=`, uppercase letters, `_`, lowercase letters: code-point order.
pub const LEXICAL64_SYMBOLS: &'static str = "0123456789=ABCDEFGHIJKLMNOPQRSTUVWXYZ_abcdefghijklmnopqrstuvwxyz";


/// `2^127`: the sign bit of a 128-bit integer.
pub open spec fn sign_bit() -> nat {
    0x8000_0000_0000_0000_0000_0000_0000_0000
}

/// The order-preserving unsigned image of a timestamp: its sign bit flipped,
/// which moves the signed range onto `0 .. 2^128` in the same order.
pub open spec fn sign_flipped(ms: int) -> nat {
    (ms + sign_bit()) as nat
}

/// The textual alphabets. Each writes the 16 big-endian bytes of the
/// sign-flipped value, most significant bit first, without padding.
#[derive(Clone, Copy, Debug, PartialEq, Eq, Structural)]
pub enum Alphabet {
    /// Lowercase hexadecimal, 32 symbols long.
    Hex,
    /// Unpadded RFC 4648 extended-hex base 32, 26 symbols long.
    Base32Hex,
    /// Base 32 over the geohash symbols, 26 symbols long.
    Geohash,
    /// Base 64 over symbols in code-point order, 22 symbols long.
    Lexical64,
}

impl Alphabet {
    pub open spec fn symbols(self) -> Seq<char> {
        match self {
            Alphabet::Hex => HEX_SYMBOLS@,
            Alphabet::Base32Hex => BASE32HEX_SYMBOLS@,
            Alphabet::Geohash => GEOHASH_SYMBOLS@,
            Alphabet::Lexical64 => LEXICAL64_SYMBOLS@,
        }
    }

    /// Bits carried by one symbol.
    pub open spec fn bits(self) -> nat {
        match self {
            Alphabet::Hex => 4,
            Alphabet::Base32Hex => 5,
            Alphabet::Geohash => 5,
            Alphabet::Lexical64 => 6,
        }
    }

    /// The number of symbols in the text of one timestamp.
    pub open spec fn width(self) -> nat {
        text_len(16, self.bits())
    }

    /// Whether `c` may stand in a text to decode: one of the symbols, or for
    /// hexadecimal also the uppercase form of a letter.
    pub open spec fn accepts(self, c: char) -> bool {
        ||| self.symbols().contains(c)
        ||| (self is Hex && exists|j: int|
            0 <= j < self.symbols().len() && is_upper_of(c, #[trigger] self.symbols()[j]))
    }

    fn symbol_table(self) -> (r: &'static str)
        ensures
            r@ == self.symbols(),
    {
        match self {
            Alphabet::Hex => HEX_SYMBOLS,
            Alphabet::Base32Hex => BASE32HEX_SYMBOLS,
            Alphabet::Geohash => GEOHASH_SYMBOLS,
            Alphabet::Lexical64 => LEXICAL64_SYMBOLS,
        }
    }
}

/// `u` is the ASCII uppercase form of the lowercase letter `l`.
pub open spec fn is_upper_of(u: char, l: char) -> bool {
    97 <= (l as u32) <= 122 && (u as u32) + 32 == (l as u32)
}

/// `s` is `text` with any of its ASCII lowercase letters possibly in uppercase.
pub open spec fn same_up_to_case(text: Seq<char>, s: Seq<char>) -> bool {
    &&& text.len() == s.len()
    &&& forall|i: int|
        0 <= i < s.len() ==> text[i] == #[trigger] s[i] || is_upper_of(s[i], text[i])
}

/// The text of the timestamp `ms` in the alphabet `a`.
pub open spec fn encoding_of(a: Alphabet, ms: int) -> Seq<char> {
    radix_text(a.symbols(), a.bits(), be_bytes(sign_flipped(ms), 16))
}

/// `s` reads as `text` under the rules of `a`: exactly, except that
/// hexadecimal digits may be in either case.
pub open spec fn reads_as(a: Alphabet, text: Seq<char>, s: Seq<char>) -> bool {
    if a is Hex {
        same_up_to_case(text, s)
    } else {
        text == s
    }
}

/// What `s` decodes to in the alphabet `a`: the timestamp whose text it
/// reads as, or a decode error where there is none.
pub open spec fn decoding_of(a: Alphabet, s: Seq<char>) -> Result<i128, Error> {
    if exists|t: i128| reads_as(a, #[trigger] encoding_of(a, t as int), s) {
        Ok(choose|t: i128| reads_as(a, #[trigger] encoding_of(a, t as int), s))
    } else {
        Err(Error::Decode)
    }
}

proof fn lemma_alphabet(a: Alphabet)
    ensures
        a.symbols().len() == power(2, a.bits()),
        a.bits() > 0,
        a is Hex ==> a.symbols().len() == 16,
        strictly_ascending(a.symbols()),
        forall|i: int| 0 <= i < a.symbols().len() ==> (#[trigger] a.symbols()[i] as u32) < 128,
        a is Hex ==> a.width() == 32 && pad_bits(16, a.bits()) == 0,
        !(a is Hex) ==> valid_table(a.symbols()) && table_bits(a.symbols()) == a.bits(),
        a is Base32Hex || a is Geohash ==> a.width() == 26 && pad_bits(16, a.bits()) == 2,
        a is Lexical64 ==> a.width() == 22 && pad_bits(16, a.bits()) == 4,
        a is Hex ==> (a.symbols()[0] as u32) == 48 && (a.symbols()[9] as u32) == 57
            && (a.symbols()[10] as u32) == 97 && (a.symbols()[15] as u32) == 102,
        power(power(2, a.bits()), a.width()) == power(2, 128) * power(2, pad_bits(16, a.bits())),
{
    reveal_with_fuel(ascending_from, 64);
    reveal_with_fuel(power, 7);
    let s = a.symbols();
    match a {
        Alphabet::Hex => {
            reveal_strlit("0123456789abcdef");
            assert(ascending_from(s, 0));
        },
        Alphabet::Base32Hex => {
            reveal_strlit("0123456789ABCDEFGHIJKLMNOPQRSTUV");
            assert(ascending_from(s, 0));
        },
        Alphabet::Geohash => {
            reveal_strlit("0123456789bcdefghjkmnpqrstuvwxyz");
            assert(ascending_from(s, 0));
        },
        Alphabet::Lexical64 => {
            reveal_strlit("0123456789=ABCDEFGHIJKLMNOPQRSTUVWXYZ_abcdefghijklmnopqrstuvwxyz");
            assert(ascending_from(s, 0));
        },
    }
    lemma_ascending(s, 0);
    assert((s[s.len() - 1] as u32) < 128);
    assert(text_len(16, 4) == 32 && text_len(16, 5) == 26 && text_len(16, 6) == 22);
    assert(pad_bits(16, 4) == 0 && pad_bits(16, 5) == 2 && pad_bits(16, 6) == 4);
    let k = a.bits();
    let w = a.width();
    let p = pad_bits(16, k);
    lemma_power_multiplies(2, k, w);
    assert(k * w == 128 + p) by (nonlinear_arith)
        requires
            (k == 4 && w == 32 && p == 0) || (k == 5 && w == 26 && p == 2) || (k == 6 && w == 22
                && p == 4),
    ;
    lemma_power_adds(2, 128, p);
}


/// The scaled value whose digits make up the text of `ms`.
spec fn scaled(a: Alphabet, ms: int) -> nat {
    sign_flipped(ms) * power(2, pad_bits(16, a.bits()))
}

proof fn lemma_encoding_digits(a: Alphabet, ms: i128)
    ensures
        sign_flipped(ms as int) < power(2, 128),
        be_bytes(sign_flipped(ms as int), 16).len() == 16,
        be_value(be_bytes(sign_flipped(ms as int), 16)) == sign_flipped(ms as int),
        scaled(a, ms as int) < power(power(2, a.bits()), a.width()),
        encoding_of(a, ms as int) == digits(scaled(a, ms as int), power(2, a.bits()), a.width()).map_values(
            |d: nat| a.symbols()[d as int],
        ),
{
    lemma_alphabet(a);
    lemma_power_128();
    let v = sign_flipped(ms as int);
    lemma_be_bytes(v, 16);
    let p = power(2, pad_bits(16, a.bits()));
    lemma_power_positive(2, pad_bits(16, a.bits()));
    assert(v * p < power(2, 128) * p) by (nonlinear_arith)
        requires
            v < power(2, 128),
            p > 0,
    ;
}

/// Distinct timestamps have distinct texts.
proof fn lemma_encoding_injective(a: Alphabet, x: i128, y: i128)
    requires
        encoding_of(a, x as int) == encoding_of(a, y as int),
    ensures
        x == y,
{
    lemma_alphabet(a);
    lemma_encoding_digits(a, x);
    lemma_encoding_digits(a, y);
    let base = power(2, a.bits());
    let sym = a.symbols();
    let dx = digits(scaled(a, x as int), base, a.width());
    let dy = digits(scaled(a, y as int), base, a.width());
    lemma_digits_shape(scaled(a, x as int), base, a.width());
    lemma_digits_shape(scaled(a, y as int), base, a.width());
    assert forall|i: int| 0 <= i < a.width() implies dx[i] == dy[i] by {
        assert(encoding_of(a, x as int)[i] == sym[dx[i] as int]);
        assert(encoding_of(a, y as int)[i] == sym[dy[i] as int]);
        if dx[i] < dy[i] {
            assert((sym[dx[i] as int] as u32) < (sym[dy[i] as int] as u32));
        } else if dy[i] < dx[i] {
            assert((sym[dy[i] as int] as u32) < (sym[dx[i] as int] as u32));
        }
    }
    assert(dx =~= dy);
    lemma_digits_injective(scaled(a, x as int), scaled(a, y as int), base, a.width());
    let p = power(2, pad_bits(16, a.bits()));
    lemma_power_positive(2, pad_bits(16, a.bits()));
    assert(sign_flipped(x as int) == sign_flipped(y as int)) by (nonlinear_arith)
        requires
            sign_flipped(x as int) * p == sign_flipped(y as int) * p,
            p > 0,
    ;
}

/// A smaller timestamp has a lexicographically smaller text.
proof fn lemma_encoding_order(a: Alphabet, x: i128, y: i128)
    requires
        x < y,
    ensures
        lex_lt(encoding_of(a, x as int), encoding_of(a, y as int)),
{
    lemma_alphabet(a);
    lemma_encoding_digits(a, x);
    lemma_encoding_digits(a, y);
    let base = power(2, a.bits());
    let sym = a.symbols();
    let p = power(2, pad_bits(16, a.bits()));
    lemma_power_positive(2, pad_bits(16, a.bits()));
    assert(scaled(a, x as int) < scaled(a, y as int)) by (nonlinear_arith)
        requires
            sign_flipped(x as int) < sign_flipped(y as int),
            p > 0,
            scaled(a, x as int) == sign_flipped(x as int) * p,
            scaled(a, y as int) == sign_flipped(y as int) * p,
    ;
    let i = lemma_digits_order(scaled(a, x as int), scaled(a, y as int), base, a.width());
    let dx = digits(scaled(a, x as int), base, a.width());
    let dy = digits(scaled(a, y as int), base, a.width());
    lemma_digits_shape(scaled(a, x as int), base, a.width());
    lemma_digits_shape(scaled(a, y as int), base, a.width());
    let ex = encoding_of(a, x as int);
    let ey = encoding_of(a, y as int);
    assert(ex.take(i) =~= ey.take(i)) by {
        assert forall|j: int| 0 <= j < i implies ex.take(i)[j] == ey.take(i)[j] by {
            assert(dx.take(i)[j] == dy.take(i)[j]);
        }
    }
    assert((ex[i] as u32) < (ey[i] as u32));
    assert(first_less_at(ex, ey, i));
}

/// Every text in the alphabet has its width and only its symbols.
proof fn lemma_encoding_shape(a: Alphabet, ms: i128)
    ensures
        encoding_of(a, ms as int).len() == a.width(),
        forall|i: int|
            0 <= i < a.width() ==> a.symbols().contains(#[trigger] encoding_of(a, ms as int)[i]),
{
    lemma_alphabet(a);
    lemma_encoding_digits(a, ms);
    lemma_radix_text_shape(a.symbols(), a.bits(), be_bytes(sign_flipped(ms as int), 16));
}

/// Hexadecimal symbols are the digits and the letters `a` to `f`.
proof fn lemma_hex_symbol_code(c: char)
    requires
        Alphabet::Hex.symbols().contains(c),
    ensures
        48 <= (c as u32) <= 57 || 97 <= (c as u32) <= 102,
{
    let sym = Alphabet::Hex.symbols();
    lemma_alphabet(Alphabet::Hex);
    let j = choose|j: int| 0 <= j < sym.len() && sym[j] == c;
    assert(strictly_ascending(sym));
    if 0 < j < 9 {
        assert((sym[0] as u32) < (sym[j] as u32));
        assert((sym[j] as u32) < (sym[9] as u32));
    } else if 10 < j < 15 {
        assert((sym[10] as u32) < (sym[j] as u32));
        assert((sym[j] as u32) < (sym[15] as u32));
    }
}

/// Two timestamps whose texts one input reads as are the same.
proof fn lemma_reading_unique(a: Alphabet, s: Seq<char>, x: i128, y: i128)
    requires
        reads_as(a, encoding_of(a, x as int), s),
        reads_as(a, encoding_of(a, y as int), s),
    ensures
        x == y,
{
    if a is Hex {
        lemma_alphabet(a);
        lemma_encoding_shape(a, x);
        lemma_encoding_shape(a, y);
        let ex = encoding_of(a, x as int);
        let ey = encoding_of(a, y as int);
        let sym = a.symbols();
        assert forall|i: int| 0 <= i < ex.len() implies ex[i] == ey[i] by {
            lemma_hex_symbol_code(ex[i]);
            lemma_hex_symbol_code(ey[i]);
            assert(ex[i] == s[i] || is_upper_of(s[i], ex[i]));
            assert(ey[i] == s[i] || is_upper_of(s[i], ey[i]));
            assert((ex[i] as u32) == (ey[i] as u32));
        }
        assert(ex =~= ey);
    }
    lemma_encoding_injective(a, x, y);
}

/// What decoding a timestamp's text gives back is the timestamp.
proof fn lemma_decoding_of_text(a: Alphabet, s: Seq<char>, t: i128)
    requires
        reads_as(a, encoding_of(a, t as int), s),
    ensures
        decoding_of(a, s) == Ok::<i128, Error>(t),
{
    let c = choose|u: i128| reads_as(a, #[trigger] encoding_of(a, u as int), s);
    lemma_reading_unique(a, s, c, t);
}


/// The integer with the sign bit of `n` flipped.
pub open spec fn sign_bit_flipped(n: int) -> int {
    if n >= 0 {
        n - sign_bit()
    } else {
        n + sign_bit()
    }
}

/// Flips the sign bit, so that the unsigned reading of the result orders as
/// the signed input does.
pub fn lexify(n: i128) -> (r: i128)
    ensures
        r == sign_bit_flipped(n as int),
{
    let r = n ^ i128::MIN;
    assert(r == (if n >= 0 {
        (n - 0x7fff_ffff_ffff_ffff_ffff_ffff_ffff_ffffi128 - 1) as i128
    } else {
        (n + 0x7fff_ffff_ffff_ffff_ffff_ffff_ffff_ffffi128 + 1) as i128
    })) by (bit_vector)
        requires
            r == n ^ i128::MIN,
    ;
    r
}

/// Undoes `lexify`: flips the sign bit back.
pub fn delexify(n: i128) -> (r: i128)
    ensures
        r == sign_bit_flipped(n as int),
{
    let r = n ^ i128::MIN;
    assert(r == (if n >= 0 {
        (n - 0x7fff_ffff_ffff_ffff_ffff_ffff_ffff_ffffi128 - 1) as i128
    } else {
        (n + 0x7fff_ffff_ffff_ffff_ffff_ffff_ffff_ffffi128 + 1) as i128
    })) by (bit_vector)
        requires
            r == n ^ i128::MIN,
    ;
    r
}

/// The unsigned reading of the bits of `x`.
proof fn lemma_unsigned_reading(x: i128)
    ensures
        (#[verifier::truncate] (x as u128)) as int == if x >= 0 {
            x as int
        } else {
            x + 0x1_0000_0000_0000_0000_0000_0000_0000_0000int
        },
{
    if x < 0 {
        assert((#[verifier::truncate] (x as u128)) == (x
            + 0x1_0000_0000_0000_0000_0000_0000_0000_0000int) as u128) by (bit_vector)
            requires
                x < 0,
        ;
    } else {
        assert((#[verifier::truncate] (x as u128)) == (x as int) as u128) by (bit_vector)
            requires
                x >= 0,
        ;
    }
}

/// The signed reading of the bits of `x`.
proof fn lemma_signed_reading(x: u128)
    ensures
        (#[verifier::truncate] (x as i128)) as int == if x < sign_bit() {
            x as int
        } else {
            x - 0x1_0000_0000_0000_0000_0000_0000_0000_0000int
        },
{
    if x < 0x8000_0000_0000_0000_0000_0000_0000_0000u128 {
        assert((#[verifier::truncate] (x as i128)) == (x as int) as i128) by (bit_vector)
            requires
                x < 0x8000_0000_0000_0000_0000_0000_0000_0000u128,
        ;
    } else {
        assert((#[verifier::truncate] (x as i128)) == (x
            - 0x1_0000_0000_0000_0000_0000_0000_0000_0000int) as i128) by (bit_vector)
            requires
                x >= 0x8000_0000_0000_0000_0000_0000_0000_0000u128,
        ;
    }
}

/// The `n` low-order bytes of `v`, most significant first.
fn be_bytes_of(v: u128, n: usize) -> (r: Vec<u8>)
    ensures
        r@ == be_bytes(v as nat, n as nat),
    decreases n,
{
    if n == 0 {
        Vec::new()
    } else {
        let mut r = be_bytes_of(v / 256, n - 1);
        r.push((v % 256) as u8);
        r
    }
}

/// The value of 16 bytes read as a big-endian unsigned integer.
fn be_value_of(b: &[u8]) -> (r: u128)
    requires
        b@.len() == 16,
    ensures
        r as nat == be_value(b@),
{
    let mut acc: u128 = 0;
    let mut i: usize = 0;
    proof {
        lemma_power_128();
        assert(b@.take(0) =~= Seq::<u8>::empty());
    }
    while i < 16
        invariant
            i <= 16,
            b@.len() == 16,
            acc as nat == be_value(b@.take(i as int)),
            power(256, 16) == 0x1_0000_0000_0000_0000_0000_0000_0000_0000,
        decreases 16 - i,
    {
        proof {
            lemma_be_value_bound(b@.take(i as int));
            lemma_power_le(256, (i + 1) as nat, 16);
            assert(b@.take(i + 1).drop_last() =~= b@.take(i as int));
            assert(acc * 256 + b@[i as int] < 256 * power(256, i as nat)) by (nonlinear_arith)
                requires
                    acc < power(256, i as nat),
                    b@[i as int] < 256,
            ;
        }
        acc = acc * 256 + b[i] as u128;
        i = i + 1;
    }
    proof {
        assert(b@.take(16) =~= b@);
    }
    acc
}

/// Relies on `hex::encode`: two lowercase hexadecimal digits per byte, the
/// high nibble first.
#[verifier::external_body]
fn hex_encode(input: &[u8]) -> (r: String)
    ensures
        r@ == radix_text(HEX_SYMBOLS@, 4, input@),
{
    hex::encode(input)
}

/// `hex`'s decoding error, carried opaque.
#[verifier::external_type_specification]
#[verifier::external_body]
pub struct ExFromHexError(hex::FromHexError);

/// Relies on `hex::decode`: it accepts exactly the texts of two hexadecimal
/// digits per byte, in either case, and returns those bytes.
#[verifier::external_body]
fn hex_decode(input: &str) -> (r: Result<Vec<u8>, hex::FromHexError>)
    ensures
        match r {
            Ok(b) => same_up_to_case(radix_text(HEX_SYMBOLS@, 4, b@), input@),
            Err(_) => forall|b: Seq<u8>|
                !same_up_to_case(#[trigger] radix_text(HEX_SYMBOLS@, 4, b), input@),
        },
{
    hex::decode(input)
}

/// Bits per symbol of a table of 32 or 64 symbols.
pub open spec fn table_bits(symbols: Seq<char>) -> nat {
    if symbols.len() == 32 {
        5
    } else {
        6
    }
}

/// A table that `data_encoding::Specification` turns into an encoding:
/// 32 or 64 distinct ASCII symbols.
pub open spec fn valid_table(symbols: Seq<char>) -> bool {
    &&& symbols.len() == 32 || symbols.len() == 64
    &&& strictly_ascending(symbols)
    &&& forall|i: int| 0 <= i < symbols.len() ==> (#[trigger] symbols[i] as u32) < 128
}

/// Relies on `data_encoding::Specification::encoding` and `Encoding::encode`:
/// with only the symbols set, the encoding writes the bits of the input most
/// significant first, zero-filled to a whole symbol, without padding.
#[verifier::external_body]
fn table_encode(symbols: &str, input: &[u8]) -> (r: String)
    requires
        valid_table(symbols@),
        input@.len() <= 4096,
    ensures
        r@ == radix_text(symbols@, table_bits(symbols@), input@),
{
    let mut spec = data_encoding::Specification::new();
    spec.symbols.push_str(symbols);
    spec.encoding().expect("a valid symbol table").encode(input)
}

/// `data_encoding`'s decoding error, carried opaque.
#[verifier::external_type_specification]
#[verifier::external_body]
pub struct ExDecodeError(data_encoding::DecodeError);

/// Relies on `data_encoding::Specification::encoding` and `Encoding::decode`:
/// such an encoding is canonical, so decoding accepts exactly the outputs of
/// encoding and returns the bytes they were made from.
#[verifier::external_body]
fn table_decode(symbols: &str, input: &str) -> (r: Result<Vec<u8>, data_encoding::DecodeError>)
    requires
        valid_table(symbols@),
        input@.len() <= 4096,
    ensures
        match r {
            Ok(b) => radix_text(symbols@, table_bits(symbols@), b@) == input@,
            Err(_) => forall|b: Seq<u8>|
                #[trigger] radix_text(symbols@, table_bits(symbols@), b) != input@,
        },
{
    let mut spec = data_encoding::Specification::new();
    spec.symbols.push_str(symbols);
    spec.encoding().expect("a valid symbol table").decode(input.as_bytes())
}

/// The text of `t` in `alphabet`.
pub fn encode(alphabet: Alphabet, t: Geotime) -> (r: String)
    ensures
        r@ == encoding_of(alphabet, t.0 as int),
{
    let l = lexify(t.0);
    let flipped = #[verifier::truncate] (l as u128);
    let bytes = be_bytes_of(flipped, 16);
    proof {
        lemma_unsigned_reading(l);
        lemma_alphabet(alphabet);
        lemma_be_bytes(flipped as nat, 16);
    }
    match alphabet {
        Alphabet::Hex => hex_encode(bytes.as_slice()),
        _ => table_encode(alphabet.symbol_table(), bytes.as_slice()),
    }
}

/// No timestamp's text is read from an input whose length is not the width.
proof fn lemma_wrong_length(a: Alphabet, s: Seq<char>)
    requires
        s.len() != a.width(),
    ensures
        decoding_of(a, s) == Err::<i128, Error>(Error::Decode),
{
    assert forall|t: i128| !reads_as(a, #[trigger] encoding_of(a, t as int), s) by {
        lemma_encoding_shape(a, t);
    }
}

/// The timestamp whose text `s` is in `alphabet`, or `Error::Decode` where
/// there is none: a symbol outside the alphabet, a wrong length, or bits
/// past the 128 that are not zero.
pub fn decode(alphabet: Alphabet, s: &str) -> (r: Result<Geotime, Error>)
    ensures
        match r {
            Ok(t) => decoding_of(alphabet, s@) == Ok::<i128, Error>(t.0),
            Err(e) => decoding_of(alphabet, s@) == Err::<i128, Error>(e),
        },
{
    proof {
        lemma_alphabet(alphabet);
    }
    let k = Ghost(alphabet.bits());
    let sym = Ghost(alphabet.symbols());
    if s.unicode_len() > 4096 {
        proof {
            lemma_wrong_length(alphabet, s@);
        }
        return Err(Error::Decode);
    }
    let bytes = match alphabet {
        Alphabet::Hex => match hex_decode(s) {
            Ok(b) => b,
            Err(_) => {
                proof {
                    assert forall|t: i128| !reads_as(alphabet, #[trigger] encoding_of(alphabet, t as int), s@) by {
                        assert(!same_up_to_case(radix_text(HEX_SYMBOLS@, 4, be_bytes(sign_flipped(t as int), 16)), s@));
                    }
                }
                return Err(Error::Decode);
            },
        },
        _ => match table_decode(alphabet.symbol_table(), s) {
            Ok(b) => b,
            Err(_) => {
                proof {
                    assert forall|t: i128| !reads_as(alphabet, #[trigger] encoding_of(alphabet, t as int), s@) by {
                        assert(radix_text(sym@, k@, be_bytes(sign_flipped(t as int), 16)) != s@);
                    }
                }
                return Err(Error::Decode);
            },
        },
    };
    proof {
        lemma_radix_text_shape(sym@, k@, bytes@);
        assert(reads_as(alphabet, radix_text(sym@, k@, bytes@), s@));
    }
    if bytes.len() != 16 {
        proof {
            assert(text_len(bytes@.len(), k@) != alphabet.width());
            lemma_wrong_length(alphabet, s@);
        }
        return Err(Error::Decode);
    }
    let flipped = be_value_of(bytes.as_slice());
    let t = delexify(#[verifier::truncate] (flipped as i128));
    proof {
        lemma_signed_reading(flipped);
        lemma_power_128();
        lemma_be_bytes(flipped as nat, 16);
        assert(sign_flipped(t as int) == flipped as nat);
        lemma_be_value_injective(be_bytes(flipped as nat, 16), bytes@);
        assert(encoding_of(alphabet, t as int) == radix_text(sym@, k@, bytes@));
        lemma_decoding_of_text(alphabet, s@, t);
    }
    Ok(Geotime(t))
}


/// Decoding the text of any timestamp, in any alphabet, gives back that
/// timestamp.
pub proof fn round_trip(a: Alphabet, t: i128)
    ensures
        decoding_of(a, encoding_of(a, t as int)) == Ok::<i128, Error>(t),
{
    assert(reads_as(a, encoding_of(a, t as int), encoding_of(a, t as int)));
    lemma_decoding_of_text(a, encoding_of(a, t as int), t);
}

/// In any one alphabet, one timestamp is below another exactly when its text
/// sorts before the other's by code point.
pub proof fn order_preserved(a: Alphabet, x: i128, y: i128)
    ensures
        x < y <==> lex_lt(encoding_of(a, x as int), encoding_of(a, y as int)),
{
    lemma_lex_asymmetric(encoding_of(a, x as int), encoding_of(a, y as int));
    if x < y {
        lemma_encoding_order(a, x, y);
    } else if y < x {
        lemma_encoding_order(a, y, x);
    }
}

/// An input of the wrong length, or holding a character that the alphabet
/// does not accept, decodes to `Error::Decode`.
pub proof fn rejects_malformed(a: Alphabet, s: Seq<char>)
    requires
        s.len() != a.width() || exists|i: int| 0 <= i < s.len() && !a.accepts(#[trigger] s[i]),
    ensures
        decoding_of(a, s) == Err::<i128, Error>(Error::Decode),
{
    if s.len() != a.width() {
        lemma_wrong_length(a, s);
    } else {
        let i = choose|i: int| 0 <= i < s.len() && !a.accepts(#[trigger] s[i]);
        assert forall|t: i128| !reads_as(a, #[trigger] encoding_of(a, t as int), s) by {
            let e = encoding_of(a, t as int);
            lemma_encoding_shape(a, t);
            if reads_as(a, e, s) {
                assert(a.symbols().contains(e[i]));
                if a is Hex {
                    if s[i] != e[i] {
                        let j = choose|j: int| 0 <= j < a.symbols().len() && a.symbols()[j] == e[i];
                        assert(is_upper_of(s[i], a.symbols()[j]));
                    }
                }
            }
        }
    }
}


/// A timestamp written as 32 lowercase hexadecimal digits that sort as it does.
#[derive(Clone, Copy, Debug, PartialEq, Eq, Structural)]
pub struct Lexical16(pub i128);

impl From<Geotime> for Lexical16 {
    fn from(ts: Geotime) -> Self {
        Lexical16(ts.0)
    }
}

impl vstd::std_specs::convert::FromSpecImpl<Geotime> for Lexical16 {
    open spec fn obeys_from_spec() -> bool {
        true
    }

    open spec fn from_spec(ts: Geotime) -> Self {
        Lexical16(ts.0)
    }
}

impl From<Lexical16> for Geotime {
    fn from(ts: Lexical16) -> Self {
        Geotime(ts.0)
    }
}

impl vstd::std_specs::convert::FromSpecImpl<Lexical16> for Geotime {
    open spec fn obeys_from_spec() -> bool {
        true
    }

    open spec fn from_spec(ts: Lexical16) -> Self {
        Geotime(ts.0)
    }
}

impl Lexical16 {
    /// The text of the timestamp.
    pub fn to_string(&self) -> (r: String)
        ensures
            r@ == encoding_of(Alphabet::Hex, self.0 as int),
    {
        encode(Alphabet::Hex, Geotime(self.0))
    }

    /// The timestamp whose text `s` is.
    pub fn parse(s: &str) -> (r: Result<Self, Error>)
        ensures
            match r {
                Ok(t) => decoding_of(Alphabet::Hex, s@) == Ok::<i128, Error>(t.0),
                Err(e) => decoding_of(Alphabet::Hex, s@) == Err::<i128, Error>(e),
            },
    {
        match decode(Alphabet::Hex, s) {
            Ok(t) => Ok(Lexical16(t.0)),
            Err(e) => Err(e),
        }
    }
}

/// A timestamp written as 26 extended-hex base-32 symbols that sort as it does.
#[derive(Clone, Copy, Debug, PartialEq, Eq, Structural)]
pub struct Lexical32(pub i128);

impl From<Geotime> for Lexical32 {
    fn from(ts: Geotime) -> Self {
        Lexical32(ts.0)
    }
}

impl vstd::std_specs::convert::FromSpecImpl<Geotime> for Lexical32 {
    open spec fn obeys_from_spec() -> bool {
        true
    }

    open spec fn from_spec(ts: Geotime) -> Self {
        Lexical32(ts.0)
    }
}

impl From<Lexical32> for Geotime {
    fn from(ts: Lexical32) -> Self {
        Geotime(ts.0)
    }
}

impl vstd::std_specs::convert::FromSpecImpl<Lexical32> for Geotime {
    open spec fn obeys_from_spec() -> bool {
        true
    }

    open spec fn from_spec(ts: Lexical32) -> Self {
        Geotime(ts.0)
    }
}

impl Lexical32 {
    /// The text of the timestamp.
    pub fn to_string(&self) -> (r: String)
        ensures
            r@ == encoding_of(Alphabet::Base32Hex, self.0 as int),
    {
        encode(Alphabet::Base32Hex, Geotime(self.0))
    }

    /// The timestamp whose text `s` is.
    pub fn parse(s: &str) -> (r: Result<Self, Error>)
        ensures
            match r {
                Ok(t) => decoding_of(Alphabet::Base32Hex, s@) == Ok::<i128, Error>(t.0),
                Err(e) => decoding_of(Alphabet::Base32Hex, s@) == Err::<i128, Error>(e),
            },
    {
        match decode(Alphabet::Base32Hex, s) {
            Ok(t) => Ok(Lexical32(t.0)),
            Err(e) => Err(e),
        }
    }
}

/// A timestamp written as 26 geohash symbols that sort as it does.
#[derive(Clone, Copy, Debug, PartialEq, Eq, Structural)]
pub struct LexicalGeohash(pub i128);

impl From<Geotime> for LexicalGeohash {
    fn from(ts: Geotime) -> Self {
        LexicalGeohash(ts.0)
    }
}

impl vstd::std_specs::convert::FromSpecImpl<Geotime> for LexicalGeohash {
    open spec fn obeys_from_spec() -> bool {
        true
    }

    open spec fn from_spec(ts: Geotime) -> Self {
        LexicalGeohash(ts.0)
    }
}

impl From<LexicalGeohash> for Geotime {
    fn from(ts: LexicalGeohash) -> Self {
        Geotime(ts.0)
    }
}

impl vstd::std_specs::convert::FromSpecImpl<LexicalGeohash> for Geotime {
    open spec fn obeys_from_spec() -> bool {
        true
    }

    open spec fn from_spec(ts: LexicalGeohash) -> Self {
        Geotime(ts.0)
    }
}

impl LexicalGeohash {
    /// The text of the timestamp.
    pub fn to_string(&self) -> (r: String)
        ensures
            r@ == encoding_of(Alphabet::Geohash, self.0 as int),
    {
        encode(Alphabet::Geohash, Geotime(self.0))
    }

    /// The timestamp whose text `s` is.
    pub fn parse(s: &str) -> (r: Result<Self, Error>)
        ensures
            match r {
                Ok(t) => decoding_of(Alphabet::Geohash, s@) == Ok::<i128, Error>(t.0),
                Err(e) => decoding_of(Alphabet::Geohash, s@) == Err::<i128, Error>(e),
            },
    {
        match decode(Alphabet::Geohash, s) {
            Ok(t) => Ok(LexicalGeohash(t.0)),
            Err(e) => Err(e),
        }
    }
}

/// A timestamp written as 22 symbols of a code-point-ordered base 64 that sort as it does.
#[derive(Clone, Copy, Debug, PartialEq, Eq, Structural)]
pub struct Lexical64(pub i128);

impl From<Geotime> for Lexical64 {
    fn from(ts: Geotime) -> Self {
        Lexical64(ts.0)
    }
}

impl vstd::std_specs::convert::FromSpecImpl<Geotime> for Lexical64 {
    open spec fn obeys_from_spec() -> bool {
        true
    }

    open spec fn from_spec(ts: Geotime) -> Self {
        Lexical64(ts.0)
    }
}

impl From<Lexical64> for Geotime {
    fn from(ts: Lexical64) -> Self {
        Geotime(ts.0)
    }
}

impl vstd::std_specs::convert::FromSpecImpl<Lexical64> for Geotime {
    open spec fn obeys_from_spec() -> bool {
        true
    }

    open spec fn from_spec(ts: Lexical64) -> Self {
        Geotime(ts.0)
    }
}

impl Lexical64 {
    /// The text of the timestamp.
    pub fn to_string(&self) -> (r: String)
        ensures
            r@ == encoding_of(Alphabet::Lexical64, self.0 as int),
    {
        encode(Alphabet::Lexical64, Geotime(self.0))
    }

    /// The timestamp whose text `s` is.
    pub fn parse(s: &str) -> (r: Result<Self, Error>)
        ensures
            match r {
                Ok(t) => decoding_of(Alphabet::Lexical64, s@) == Ok::<i128, Error>(t.0),
                Err(e) => decoding_of(Alphabet::Lexical64, s@) == Err::<i128, Error>(e),
            },
    {
        match decode(Alphabet::Lexical64, s) {
            Ok(t) => Ok(Lexical64(t.0)),
            Err(e) => Err(e),
        }
    }
}

} // verus!
