//! Telemetry parser: turns one textual record (no line terminator) into a
//! typed sample.  A record is a `,`-separated list of fields; each field is
//! `key:value` with a single-letter key among X, Y, Z, A, B and a signed
//! decimal value.  Validation is per field, in order: a field without `:`
//! is a missing value, a value that is no signed 32-bit integer is invalid,
//! and then an unrecognized key is unknown.  Any rejection aborts the whole
//! record.  Keys may be absent (the field keeps the default 0) and a
//! repeated key overwrites the earlier value.

use vstd::prelude::*;

use crate::scan::{find_byte, lemma_find_byte_absent, lemma_find_byte_is_first, split_on,
    find_byte_from};
use crate::TelemetryError;

verus! {

/// `,`: separates the fields of a record.
pub const COMMA: u8 = 44;

/// `:`: separates a field's key from its value.
pub const COLON: u8 = 58;

/// `-`: optional sign of a value.
pub const MINUS: u8 = 45;

/// `+`: optional sign of a value.
pub const PLUS: u8 = 43;

/// `X`: first positional axis.
pub const KEY_X: u8 = 88;

/// `Y`: second positional axis.
pub const KEY_Y: u8 = 89;

/// `Z`: diagnostic third axis.
pub const KEY_Z: u8 = 90;

/// `A`: first button.
pub const KEY_A: u8 = 65;

/// `B`: second button.
pub const KEY_B: u8 = 66;

/// One fully parsed record: two positional axes, a diagnostic third axis,
/// and two button states encoded as integers.
#[derive(Clone, Copy, Debug, PartialEq, Eq, Structural)]
pub struct Sample {
    pub x: i32,
    pub y: i32,
    pub z: i32,
    pub a: i32,
    pub b: i32,
}

/// The sample every parse starts from: all fields 0.
pub open spec fn default_sample() -> Sample {
    Sample { x: 0, y: 0, z: 0, a: 0, b: 0 }
}

impl Default for Sample {
    /// The all-zero sample.
    fn default() -> (s: Sample)
        ensures
            s == default_sample(),
    {
        Sample { x: 0, y: 0, z: 0, a: 0, b: 0 }
    }
}

/// ASCII decimal digit.
pub open spec fn is_digit(b: u8) -> bool {
    48 <= b <= 57
}

/// Every byte of `s` is a decimal digit.
pub open spec fn all_digits(s: Seq<u8>) -> bool {
    forall|i: int| 0 <= i < s.len() ==> is_digit(s[i])
}

/// Value of a digit string read as a decimal number.
pub open spec fn dec_val(s: Seq<u8>) -> int
    decreases s.len(),
{
    if s.len() == 0 {
        0
    } else {
        dec_val(s.drop_last()) * 10 + (s.last() - 48)
    }
}

/// The signed 32-bit integer a byte string denotes: an optional `+` or `-`
/// followed by at least one decimal digit and nothing else, whose value
/// fits in an `i32`.
pub open spec fn spec_parse_i32(s: Seq<u8>) -> Option<i32> {
    let negative = s.len() > 0 && s[0] == MINUS;
    let mag = if s.len() > 0 && (s[0] == MINUS || s[0] == PLUS) {
        s.skip(1)
    } else {
        s
    };
    if mag.len() == 0 || !all_digits(mag) {
        None
    } else {
        let v = if negative {
            -dec_val(mag)
        } else {
            dec_val(mag)
        };
        if -2147483648 <= v <= 2147483647 {
            Some(v as i32)
        } else {
            None
        }
    }
}

/// A digit string's value is at least the value of any of its prefixes
/// with a nonnegative value.
proof fn lemma_dec_val_ge_prefix(s: Seq<u8>, i: int)
    requires
        0 <= i <= s.len(),
        dec_val(s.take(i)) >= 0,
        forall|k: int| i <= k < s.len() ==> is_digit(s[k]),
    ensures
        dec_val(s) >= dec_val(s.take(i)),
    decreases s.len() - i,
{
    if i == s.len() {
        assert(s.take(i) =~= s);
    } else {
        assert(s.take(i + 1).drop_last() =~= s.take(i));
        assert(s.take(i + 1).last() == s[i]);
        lemma_dec_val_ge_prefix(s, i + 1);
    }
}

/// Parses `s[start..end]` as a signed 32-bit decimal integer, exactly as
/// `spec_parse_i32` describes; `None` on any malformed or out-of-range
/// input.
pub fn parse_i32_range(s: &[u8], start: usize, end: usize) -> (r: Option<i32>)
    requires
        start <= end <= s@.len(),
    ensures
        r == spec_parse_i32(s@.subrange(start as int, end as int)),
{
    let ghost field = s@.subrange(start as int, end as int);
    if start == end {
        return None;
    }
    let first = s[start];
    let negative = first == MINUS;
    let digits_start: usize = if first == MINUS || first == PLUS {
        start + 1
    } else {
        start
    };
    let ghost mag = s@.subrange(digits_start as int, end as int);
    proof {
        if digits_start > start {
            assert(mag =~= field.skip(1));
        } else {
            assert(mag =~= field);
        }
    }
    if digits_start == end {
        return None;
    }
    let mut i: usize = digits_start;
    let mut acc: i64 = 0;
    while i < end
        invariant
            digits_start <= i <= end <= s@.len(),
            mag == s@.subrange(digits_start as int, end as int),
            field == s@.subrange(start as int, end as int),
            digits_start < end,
            negative == (field.len() > 0 && field[0] == MINUS),
            (if digits_start > start {
                mag == field.skip(1) && field.len() > 0 && (field[0] == MINUS || field[0]
                    == PLUS)
            } else {
                mag == field && !(field.len() > 0 && (field[0] == MINUS || field[0] == PLUS))
            }),
            forall|k: int| digits_start <= k < i ==> is_digit(s@[k]),
            acc == dec_val(s@.subrange(digits_start as int, i as int)),
            0 <= acc <= 2147483648,
        decreases end - i,
    {
        let b = s[i];
        if b < 48 || b > 57 {
            proof {
                assert(!is_digit(mag[i - digits_start]));
            }
            return None;
        }
        proof {
            assert(s@.subrange(digits_start as int, i + 1).drop_last() =~= s@.subrange(
                digits_start as int,
                i as int,
            ));
            assert(s@.subrange(digits_start as int, i + 1).last() == s@[i as int]);
        }
        acc = acc * 10 + ((b - 48) as i64);
        i = i + 1;
        if acc > 2147483648 {
            proof {
                if all_digits(mag) {
                    assert(mag.take(i - digits_start) =~= s@.subrange(
                        digits_start as int,
                        i as int,
                    ));
                    lemma_dec_val_ge_prefix(mag, i - digits_start);
                }
            }
            return None;
        }
    }
    proof {
        assert(mag =~= s@.subrange(digits_start as int, i as int));
        assert(all_digits(mag));
    }
    if negative {
        Some((-acc) as i32)
    } else {
        if acc > 2147483647 {
            None
        } else {
            Some(acc as i32)
        }
    }
}

/// `key` is one of the five recognized single-letter keys.
pub open spec fn is_known_key(key: Seq<u8>) -> bool {
    key.len() == 1 && (key[0] == KEY_X || key[0] == KEY_Y || key[0] == KEY_Z || key[0] == KEY_A
        || key[0] == KEY_B)
}

/// `acc` with the field named by the (recognized) key byte set to `v`.
pub open spec fn set_key(acc: Sample, key: u8, v: i32) -> Sample {
    if key == KEY_X {
        Sample { x: v, ..acc }
    } else if key == KEY_Y {
        Sample { y: v, ..acc }
    } else if key == KEY_Z {
        Sample { z: v, ..acc }
    } else if key == KEY_A {
        Sample { a: v, ..acc }
    } else {
        Sample { b: v, ..acc }
    }
}

/// One field applied to the sample built so far: `key:value` sets the
/// keyed entry; the three rejections, in order of checking, are a missing
/// `:`, an unparseable value, and an unrecognized key.
pub open spec fn parse_field(f: Seq<u8>, acc: Sample) -> Result<Sample, TelemetryError> {
    match find_byte(f, COLON) {
        None => Err(TelemetryError::MissingValue),
        Some(i) => {
            let key = f.take(i);
            let value = f.skip(i + 1);
            match spec_parse_i32(value) {
                None => Err(TelemetryError::InvalidValue),
                Some(v) => if is_known_key(key) {
                    Ok(set_key(acc, key[0], v))
                } else {
                    Err(TelemetryError::UnknownKey)
                },
            }
        },
    }
}

/// The fields folded left to right over `acc`; the first rejection aborts
/// the record.  A later occurrence of a key overwrites the earlier one.
pub open spec fn parse_fields(fields: Seq<Seq<u8>>, acc: Sample) -> Result<
    Sample,
    TelemetryError,
>
    decreases fields.len(),
{
    if fields.len() == 0 {
        Ok(acc)
    } else {
        match parse_field(fields.first(), acc) {
            Ok(acc2) => parse_fields(fields.drop_first(), acc2),
            Err(e) => Err(e),
        }
    }
}

/// What a record (line terminator already stripped) denotes: its fields,
/// split on `,`, folded over the all-zero sample.
pub open spec fn spec_parse_record(s: Seq<u8>) -> Result<Sample, TelemetryError> {
    parse_fields(split_on(s, COMMA), default_sample())
}

/// Parses one textual record, exactly as `spec_parse_record` describes.
/// Returns the sample when every field is well formed, and otherwise the
/// first field's rejection; nothing of a rejected record is kept.
pub fn parse_record(s: &[u8]) -> (r: Result<Sample, TelemetryError>)
    ensures
        r == spec_parse_record(s@),
{
    let mut acc = Sample { x: 0, y: 0, z: 0, a: 0, b: 0 };
    let mut start: usize = 0;
    proof {
        assert(s@.skip(0) =~= s@);
    }
    loop
        invariant
            start <= s@.len(),
            parse_fields(split_on(s@.skip(start as int), COMMA), acc) == spec_parse_record(s@),
        decreases s@.len() - start,
    {
        let ghost rest = s@.skip(start as int);
        let comma = find_byte_from(s, start, COMMA);
        let end = match comma {
            Some(c) => c,
            None => s.len(),
        };
        let ghost f = s@.subrange(start as int, end as int);
        proof {
            match comma {
                Some(c) => {
                    assert(rest.take(c - start) =~= f);
                    assert(split_on(rest, COMMA) == seq![f] + split_on(
                        rest.skip(c - start + 1),
                        COMMA,
                    ));
                    assert(rest.skip(c - start + 1) =~= s@.skip(c + 1));
                },
                None => {
                    assert(rest =~= f);
                    assert(split_on(rest, COMMA) == seq![f]);
                },
            }
            assert((seq![f] + split_on(s@.skip(end + 1), COMMA)).first() == f);
            assert((seq![f] + split_on(s@.skip(end + 1), COMMA)).drop_first() =~= split_on(
                s@.skip(end + 1),
                COMMA,
            ));
            assert(seq![f].first() == f);
            assert(seq![f].drop_first() =~= Seq::<Seq<u8>>::empty());
        }
        // Locate the key/value separator within the field.
        let colon = find_byte_from(s, start, COLON);
        let colon_in_field = match colon {
            Some(c) => if c < end {
                Some(c)
            } else {
                None
            },
            None => None,
        };
        match colon_in_field {
            None => {
                proof {
                    assert(forall|j: int| 0 <= j < f.len() ==> f[j] == s@[start + j]);
                    lemma_find_byte_absent(f, COLON);
                }
                return Err(TelemetryError::MissingValue);
            },
            Some(c) => {
                proof {
                    assert(forall|j: int| 0 <= j < f.len() ==> f[j] == s@[start + j]);
                    lemma_find_byte_is_first(f, COLON, c - start);
                }
                let v_opt = parse_i32_range(s, c + 1, end);
                proof {
                    assert(f.skip(c - start + 1) =~= s@.subrange(c + 1, end as int));
                }
                match v_opt {
                    None => {
                        return Err(TelemetryError::InvalidValue);
                    },
                    Some(v) => {
                        let ghost key = f.take(c - start);
                        let ghost acc0 = acc;
                        if c == start + 1 {
                            proof {
                                assert(key.len() == 1 && key[0] == s@[start as int]);
                            }
                            let kb = s[start];
                            if kb == KEY_X {
                                acc.x = v;
                            } else if kb == KEY_Y {
                                acc.y = v;
                            } else if kb == KEY_Z {
                                acc.z = v;
                            } else if kb == KEY_A {
                                acc.a = v;
                            } else if kb == KEY_B {
                                acc.b = v;
                            } else {
                                return Err(TelemetryError::UnknownKey);
                            }
                        } else {
                            proof {
                                assert(key.len() != 1);
                            }
                            return Err(TelemetryError::UnknownKey);
                        }
                        proof {
                            assert(parse_field(f, acc0) == Ok::<Sample, TelemetryError>(acc));
                        }
                        match comma {
                            None => {
                                proof {
                                    assert(parse_fields(Seq::<Seq<u8>>::empty(), acc)
                                        == Ok::<Sample, TelemetryError>(acc));
                                    assert(parse_fields(seq![f], acc0) == Ok::<
                                        Sample,
                                        TelemetryError,
                                    >(acc));
                                }
                                return Ok(acc);
                            },
                            Some(c2) => {
                                start = c2 + 1;
                            },
                        }
                    },
                }
            },
        }
    }
}

} // verus!
