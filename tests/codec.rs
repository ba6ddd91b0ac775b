use geotime::{
    decode, delexify, encode, lexify, Alphabet, Error, Geotime, Lexical16, Lexical32, Lexical64,
    LexicalGeohash,
};

const ALPHABETS: [Alphabet; 4] =
    [Alphabet::Hex, Alphabet::Base32Hex, Alphabet::Geohash, Alphabet::Lexical64];

fn assert_order_preserved(values: &[(i128, &str)]) {
    let mut sorted = values.to_vec();
    sorted.sort_by_key(|k| k.1);
    assert_eq!(values, &sorted[..]);
}

#[test]
fn ser_serde() {
    let hex = [
        (-i128::pow(10, 21), "7fffffffffffffc9ca36523a21600000"),
        (-100, "7fffffffffffffffffffffffffffff9c"),
        (-1, "7fffffffffffffffffffffffffffffff"),
        (0, "80000000000000000000000000000000"),
        (1, "80000000000000000000000000000001"),
        (100, "80000000000000000000000000000064"),
        (i128::pow(10, 21), "800000000000003635c9adc5dea00000"),
    ];
    for (n, text) in hex {
        assert_eq!(Lexical16(n).to_string(), text);
        assert_eq!(Lexical16::parse(text), Ok(Lexical16(n)));
    }
    assert_order_preserved(&hex);

    let base32 = [
        (-i128::pow(10, 21), "FVVVVVVVVVVSJIHMA8T22O0000"),
        (-100, "FVVVVVVVVVVVVVVVVVVVVVVVJG"),
        (-1, "FVVVVVVVVVVVVVVVVVVVVVVVVS"),
        (0, "G0000000000000000000000000"),
        (1, "G0000000000000000000000004"),
        (100, "G00000000000000000000000CG"),
        (i128::pow(10, 21), "G00000000003CDE9LN2TT80000"),
    ];
    for (n, text) in base32 {
        assert_eq!(Lexical32(n).to_string(), text);
        assert_eq!(Lexical32::parse(text), Ok(Lexical32(n)));
    }
    assert_order_preserved(&base32);

    let geohash = [
        (-i128::pow(10, 21), "gzzzzzzzzzzwmkjqb8x22s0000"),
        (-100, "gzzzzzzzzzzzzzzzzzzzzzzzmh"),
        (-1, "gzzzzzzzzzzzzzzzzzzzzzzzzw"),
        (0, "h0000000000000000000000000"),
        (1, "h0000000000000000000000004"),
        (100, "h00000000000000000000000dh"),
        (i128::pow(10, 21), "h00000000003def9pr2xx80000"),
    ];
    for (n, text) in geohash {
        assert_eq!(LexicalGeohash(n).to_string(), text);
        assert_eq!(LexicalGeohash::parse(text), Ok(LexicalGeohash(n)));
    }
    assert_order_preserved(&geohash);

    let base64 = [
        (-i128::pow(10, 21), "Uzzzzzzzzwb=C_8u8L0000"),
        (-100, "Uzzzzzzzzzzzzzzzzzzzb0"),
        (-1, "Uzzzzzzzzzzzzzzzzzzzzk"),
        (0, "V000000000000000000000"),
        (1, "V00000000000000000000F"),
        (100, "V0000000000000000000O0"),
        (i128::pow(10, 21), "V000000003NpmPr5re0000"),
    ];
    for (n, text) in base64 {
        assert_eq!(Lexical64(n).to_string(), text);
        assert_eq!(Lexical64::parse(text), Ok(Lexical64(n)));
    }
    assert_order_preserved(&base64);
}

#[test]
fn hex_fixed_points() {
    assert_eq!(encode(Alphabet::Hex, Geotime::from(0)), "80000000000000000000000000000000");
    assert_eq!(encode(Alphabet::Hex, Geotime::from(-1)), "7fffffffffffffffffffffffffffffff");
    assert_eq!(encode(Alphabet::Hex, Geotime::from(100)), "80000000000000000000000000000064");
}

#[test]
fn lexical64_fixed_points() {
    assert_eq!(encode(Alphabet::Lexical64, Geotime::from(0)), "V000000000000000000000");
    assert_eq!(encode(Alphabet::Lexical64, Geotime::from(1)), "V00000000000000000000F");
}

#[test]
fn extremes_encode() {
    assert_eq!(encode(Alphabet::Hex, Geotime::from(i128::MIN)), "00000000000000000000000000000000");
    assert_eq!(encode(Alphabet::Hex, Geotime::from(i128::MAX)), "ffffffffffffffffffffffffffffffff");
    assert_eq!(encode(Alphabet::Base32Hex, Geotime::from(i128::MIN)), "00000000000000000000000000");
    assert_eq!(encode(Alphabet::Base32Hex, Geotime::from(i128::MAX)), "VVVVVVVVVVVVVVVVVVVVVVVVVS");
    assert_eq!(encode(Alphabet::Lexical64, Geotime::from(i128::MAX)), "zzzzzzzzzzzzzzzzzzzzzk");
}

#[test]
fn round_trip_every_alphabet() {
    let values = [i128::MIN, i128::MIN + 1, -i128::pow(10, 30), -1, 0, 1, 12345, i128::MAX - 1, i128::MAX];
    for a in ALPHABETS {
        for n in values {
            let text = encode(a, Geotime::from(n));
            assert_eq!(decode(a, &text), Ok(Geotime::from(n)));
        }
    }
}

#[test]
fn order_every_alphabet() {
    let values = [i128::MIN, -i128::pow(10, 30), -65536, -256, -1, 0, 1, 255, 256, 1 << 100, i128::MAX];
    for a in ALPHABETS {
        for w in values.windows(2) {
            let x = encode(a, Geotime::from(w[0]));
            let y = encode(a, Geotime::from(w[1]));
            assert!(x < y, "{:?}: {} !< {}", a, x, y);
        }
    }
}

#[test]
fn lengths_are_fixed() {
    for n in [i128::MIN, 0, i128::MAX] {
        assert_eq!(encode(Alphabet::Hex, Geotime::from(n)).len(), 32);
        assert_eq!(encode(Alphabet::Base32Hex, Geotime::from(n)).len(), 26);
        assert_eq!(encode(Alphabet::Geohash, Geotime::from(n)).len(), 26);
        assert_eq!(encode(Alphabet::Lexical64, Geotime::from(n)).len(), 22);
    }
}

#[test]
fn decode_rejects_truncated_input() {
    assert_eq!(decode(Alphabet::Hex, "8000000000000000000000000000000"), Err(Error::Decode));
    assert_eq!(decode(Alphabet::Base32Hex, "G000000000000000000000000"), Err(Error::Decode));
    assert_eq!(decode(Alphabet::Geohash, "h000000000000000000000000"), Err(Error::Decode));
    assert_eq!(decode(Alphabet::Lexical64, "V00000000000000000000"), Err(Error::Decode));
    assert_eq!(decode(Alphabet::Lexical64, ""), Err(Error::Decode));
}

#[test]
fn decode_rejects_foreign_symbols() {
    assert_eq!(decode(Alphabet::Hex, "8000000000000000000000000000000g"), Err(Error::Decode));
    assert_eq!(decode(Alphabet::Base32Hex, "G000000000000000000000000W"), Err(Error::Decode));
    assert_eq!(decode(Alphabet::Geohash, "h00000000000000000000000a0"), Err(Error::Decode));
    assert_eq!(decode(Alphabet::Lexical64, "V00000000000000000000-"), Err(Error::Decode));
    assert_eq!(decode(Alphabet::Lexical64, "V0000000000000000000é0"), Err(Error::Decode));
}

#[test]
fn decode_rejects_other_byte_lengths() {
    assert_eq!(decode(Alphabet::Hex, "800000000000000000000000000000"), Err(Error::Decode));
    assert_eq!(decode(Alphabet::Hex, "8000000000000000000000000000000000"), Err(Error::Decode));
    assert_eq!(decode(Alphabet::Base32Hex, "G0000000000000000000000000000000"), Err(Error::Decode));
    assert_eq!(decode(Alphabet::Lexical64, "V0000000000000000000000000"), Err(Error::Decode));
}

#[test]
fn decode_rejects_nonzero_trailing_bits() {
    assert_eq!(decode(Alphabet::Base32Hex, "G0000000000000000000000001"), Err(Error::Decode));
    assert_eq!(decode(Alphabet::Lexical64, "V000000000000000000001"), Err(Error::Decode));
}

#[test]
fn hex_decodes_either_case() {
    assert_eq!(
        decode(Alphabet::Hex, "7FFFFFFFFFFFFFFFFFFFFFFFFFFFFF9C"),
        Ok(Geotime::from(-100))
    );
    assert_eq!(Lexical32::parse("g0000000000000000000000004"), Err(Error::Decode));
}

#[test]
fn lexify_flips_the_sign_bit() {
    assert_eq!(lexify(0), i128::MIN);
    assert_eq!(lexify(-1), i128::MAX);
    assert_eq!(lexify(i128::MIN), 0);
    for n in [i128::MIN, -7, 0, 7, i128::MAX] {
        assert_eq!(delexify(lexify(n)), n);
    }
}

#[test]
fn lexical_types_convert() {
    let ts = Geotime::from(42);
    assert_eq!(Geotime::from(Lexical16::from(ts)), ts);
    assert_eq!(Geotime::from(Lexical32::from(ts)), ts);
    assert_eq!(Geotime::from(LexicalGeohash::from(ts)), ts);
    assert_eq!(Geotime::from(Lexical64::from(ts)), ts);
}
