//! Byte arithmetic primitives on the 8-bit wrap-around ring, and the
//! preparation of the goal bytes: escape decoding and ISO-8859-1 encoding.

use vstd::arithmetic::div_mod::lemma_add_mod_noop;
use vstd::prelude::*;
use vstd::std_specs::iter::IteratorSpec;

verus! {

broadcast use vstd::string::group_string_axioms;

/// Failures of the goal-preparation step.
#[derive(Clone, Copy, Debug, PartialEq, Eq, Structural)]
pub enum PrepError {
    /// An `\x`, `\u` or `\U` escape ended before all its digits.
    MissingEscapeDigits,
    /// A digit of an `\x`, `\u` or `\U` escape is not hexadecimal.
    InvalidHexDigit,
    /// A `\u` or `\U` escape names a surrogate or a value past the last
    /// scalar value.
    InvalidCodepoint,
    /// A `\c` escape ended before its control character.
    MissingControlChar,
    /// A `\c` escape produced no scalar value.
    InvalidControlChar,
    /// A character above 0xFF cannot be encoded in ISO-8859-1.
    Unrepresentable,
}

/// Absolute difference of two bytes as a signed integer, in mathematics.
pub open spec fn abs_diff_spec(a: u8, b: u8) -> int {
    if a >= b {
        a - b
    } else {
        b - a
    }
}

/// Raw byte distance `|a - b|`; deliberately not the wrap-minimum distance.
pub fn abs_diff(a: u8, b: u8) -> (r: i32)
    ensures
        r == abs_diff_spec(a, b),
        0 <= r <= 255,
{
    let ai = a as i32;
    let bi = b as i32;
    if ai >= bi {
        ai - bi
    } else {
        bi - ai
    }
}

/// `(v + d) mod 256`, with `d` read as a signed delta.
pub open spec fn add_byte_spec(v: u8, d: i32) -> int {
    (v + d) % 256
}

/// Wrapping 8-bit addition of a signed delta to a byte.
pub fn add_byte(value: u8, delta: i32) -> (r: u8)
    ensures
        r == add_byte_spec(value, delta),
{
    let db = delta.checked_rem_euclid(256).unwrap();
    proof {
        lemma_add_mod_noop(value as int, delta as int, 256);
        assert((value as int) % 256 == value as int) by {
            vstd::arithmetic::div_mod::lemma_small_mod(value as nat, 256);
        }
    }
    value.wrapping_add(db as u8)
}

/// `(-v) mod 256`.
pub open spec fn negate_byte_spec(v: u8) -> int {
    (256 - v) % 256
}

/// Two's-complement negation of a byte.
pub fn negate_byte(value: u8) -> (r: u8)
    ensures
        r == negate_byte_spec(value),
{
    0u8.wrapping_sub(value)
}

/// Value of a hexadecimal digit, or a negative number for any other
/// character.
pub open spec fn hex_val(c: char) -> int {
    if '0' <= c && c <= '9' {
        c as int - '0' as int
    } else if 'a' <= c && c <= 'f' {
        c as int - 'a' as int + 10
    } else if 'A' <= c && c <= 'F' {
        c as int - 'A' as int + 10
    } else {
        -1
    }
}

/// Reads `count` hexadecimal digits from the front of `s` into `acc`,
/// reporting a missing or an invalid digit exactly as the decoder does.
pub open spec fn take_hex(s: Seq<char>, count: int, acc: int) -> Result<int, PrepError>
    decreases count,
{
    if count <= 0 {
        Ok(acc)
    } else if s.len() == 0 {
        Err(PrepError::MissingEscapeDigits)
    } else if hex_val(s[0]) < 0 {
        Err(PrepError::InvalidHexDigit)
    } else {
        take_hex(s.drop_first(), count - 1, acc * 16 + hex_val(s[0]))
    }
}

/// A Unicode scalar value: anything below the surrogates, or between them
/// and the last code point.
pub open spec fn is_scalar_value(v: int) -> bool {
    (0 <= v < 0xD800) || (0xE000 <= v <= 0x10FFFF)
}

/// Prepends already-decoded characters to the result of decoding the rest.
pub open spec fn prepend_ok(p: Seq<char>, r: Result<Seq<char>, PrepError>) -> Result<
    Seq<char>,
    PrepError,
> {
    match r {
        Ok(t) => Ok(p + t),
        Err(e) => Err(e),
    }
}

proof fn lemma_prepend_assoc(a: Seq<char>, b: Seq<char>, r: Result<Seq<char>, PrepError>)
    ensures
        prepend_ok(a, prepend_ok(b, r)) == prepend_ok(a + b, r),
{
    match r {
        Ok(t) => {
            assert(a + (b + t) =~= (a + b) + t);
        },
        Err(_) => {},
    }
}

/// The decoded form of a regex-style escaped string, or the first error met
/// while reading it left to right.
pub open spec fn unescape_spec(s: Seq<char>) -> Result<Seq<char>, PrepError>
    decreases s.len(),
{
    if s.len() == 0 {
        Ok(Seq::empty())
    } else if s[0] != '\\' {
        prepend_ok(seq![s[0]], unescape_spec(s.skip(1)))
    } else if s.len() == 1 {
        Ok(seq!['\\'])
    } else {
        let e = s[1];
        if e == 'n' {
            prepend_ok(seq!['\n'], unescape_spec(s.skip(2)))
        } else if e == 'r' {
            prepend_ok(seq!['\r'], unescape_spec(s.skip(2)))
        } else if e == 't' {
            prepend_ok(seq!['\t'], unescape_spec(s.skip(2)))
        } else if e == 'f' {
            prepend_ok(seq!['\u{000C}'], unescape_spec(s.skip(2)))
        } else if e == 'v' {
            prepend_ok(seq!['\u{000B}'], unescape_spec(s.skip(2)))
        } else if e == 'a' {
            prepend_ok(seq!['\u{0007}'], unescape_spec(s.skip(2)))
        } else if e == 'b' {
            prepend_ok(seq!['\u{0008}'], unescape_spec(s.skip(2)))
        } else if e == '0' {
            prepend_ok(seq!['\u{0000}'], unescape_spec(s.skip(2)))
        } else if e == 'x' {
            if s.len() < 3 {
                Err(PrepError::MissingEscapeDigits)
            } else if s.len() < 4 {
                Err(PrepError::MissingEscapeDigits)
            } else if hex_val(s[2]) < 0 || hex_val(s[3]) < 0 {
                Err(PrepError::InvalidHexDigit)
            } else {
                let v = hex_val(s[2]) * 16 + hex_val(s[3]);
                prepend_ok(seq![((v as u8) as char)], unescape_spec(s.skip(4)))
            }
        } else if e == 'u' {
            // a successful take_hex means at least four digits were there
            let rest = if s.len() >= 6 {
                s.skip(6)
            } else {
                Seq::empty()
            };
            match take_hex(s.skip(2), 4, 0) {
                Err(err) => Err(err),
                Ok(v) => if is_scalar_value(v) {
                    prepend_ok(seq![((v as u32) as char)], unescape_spec(rest))
                } else {
                    Err(PrepError::InvalidCodepoint)
                },
            }
        } else if e == 'U' {
            let rest = if s.len() >= 10 {
                s.skip(10)
            } else {
                Seq::empty()
            };
            match take_hex(s.skip(2), 8, 0) {
                Err(err) => Err(err),
                Ok(v) => if is_scalar_value(v) {
                    prepend_ok(seq![((v as u32) as char)], unescape_spec(rest))
                } else {
                    Err(PrepError::InvalidCodepoint)
                },
            }
        } else if e == 'c' {
            if s.len() < 3 {
                Err(PrepError::MissingControlChar)
            } else {
                let v = (s[2] as u32) & 0x1F;
                prepend_ok(seq![(v as char)], unescape_spec(s.skip(3)))
            }
        } else {
            prepend_ok(seq![e], unescape_spec(s.skip(2)))
        }
    }
}

/// The ISO-8859-1 encoding of a character sequence: each scalar value is a
/// byte; anything larger is an error.
pub open spec fn iso_spec(s: Seq<char>) -> Result<Seq<u8>, PrepError>
    decreases s.len(),
{
    if s.len() == 0 {
        Ok(Seq::empty())
    } else if s[0] as u32 > 0xFF {
        Err(PrepError::Unrepresentable)
    } else {
        match iso_spec(s.skip(1)) {
            Ok(t) => Ok(seq![(s[0] as u32) as u8] + t),
            Err(e) => Err(e),
        }
    }
}

/// Relies on char::from_u32: it converts every scalar value — anything below
/// the surrogate range or between it and 0x10FFFF — and nothing else.
pub assume_specification[ char::from_u32 ](v: u32) -> (r: Option<char>)
    ensures
        r is Some <==> is_scalar_value(v as int),
        r matches Some(c) ==> c as u32 == v,
;

/// Relies on String::push: it appends exactly one character.
#[verifier::external_body]
pub(crate) fn string_push(s: &mut String, c: char)
    ensures
        final(s)@ == old(s)@.push(c),
{
    s.push(c)
}

/// Value of one hexadecimal digit.
pub fn digit_to_value(ch: char) -> (r: Result<i32, PrepError>)
    ensures
        r is Ok <==> hex_val(ch) >= 0,
        r matches Ok(v) ==> v == hex_val(ch),
        r is Err ==> r->Err_0 == PrepError::InvalidHexDigit,
{
    if '0' <= ch && ch <= '9' {
        Ok(((ch as u32) - ('0' as u32)) as i32)
    } else if 'a' <= ch && ch <= 'f' {
        Ok((((ch as u32) - ('a' as u32)) as i32) + 10)
    } else if 'A' <= ch && ch <= 'F' {
        Ok((((ch as u32) - ('A' as u32)) as i32) + 10)
    } else {
        Err(PrepError::InvalidHexDigit)
    }
}

/// Sixteen to the power `i`.
pub open spec fn pow16(i: int) -> int
    decreases i,
{
    if i <= 0 {
        1
    } else {
        16 * pow16(i - 1)
    }
}

proof fn lemma_pow16_mono(a: int, b: int)
    requires
        a <= b,
    ensures
        1 <= pow16(a) <= pow16(b),
    decreases b - a,
{
    if a < b {
        lemma_pow16_mono(a, b - 1);
    } else {
        lemma_pow16_pos(a);
    }
}

proof fn lemma_pow16_pos(a: int)
    ensures
        pow16(a) >= 1,
    decreases a,
{
    if a > 0 {
        lemma_pow16_pos(a - 1);
    }
}

/// A successful `take_hex` found all its digits in the sequence.
proof fn lemma_take_hex_len(s: Seq<char>, count: int, acc: int)
    requires
        take_hex(s, count, acc) is Ok,
    ensures
        s.len() >= count,
    decreases count,
{
    if count > 0 {
        lemma_take_hex_len(s.drop_first(), count - 1, acc * 16 + hex_val(s[0]));
    }
}

proof fn lemma_skip_step(s: Seq<char>, i: int)
    requires
        0 <= i < s.len(),
    ensures
        s.skip(i).drop_first() == s.skip(i + 1),
{
    assert(s.skip(i).drop_first() =~= s.skip(i + 1));
}

/// Byte value of a pair of hexadecimal digits, high digit first.
pub fn hex_pair_to_u8(hi: char, lo: char) -> (r: Result<u8, PrepError>)
    ensures
        r is Ok <==> (hex_val(hi) >= 0 && hex_val(lo) >= 0),
        r matches Ok(v) ==> v == hex_val(hi) * 16 + hex_val(lo),
        r is Err ==> r->Err_0 == PrepError::InvalidHexDigit,
{
    let high = match digit_to_value(hi) {
        Ok(v) => v,
        Err(e) => {
            return Err(e);
        },
    };
    let low = match digit_to_value(lo) {
        Ok(v) => v,
        Err(e) => {
            return Err(e);
        },
    };
    Ok(((high * 16) + low) as u8)
}

/// Decodes a regex-style escaped string.
///
/// Recognizes `\n \r \t \f \v \a \b \0`, `\xHH`, `\uHHHH`, `\UHHHHHHHH` and
/// `\cX`; any other `\?` stands for `?` itself, and a dangling `\` at the
/// end produces a literal backslash.
#[verifier::loop_isolation(false)]
#[verifier::rlimit(100)]
pub fn unescape_regex_like(input: &str) -> (r: Result<String, PrepError>)
    ensures
        r is Ok <==> unescape_spec(input@) is Ok,
        r matches Ok(out) ==> out@ == unescape_spec(input@)->Ok_0,
        r matches Err(e) ==> e == unescape_spec(input@)->Err_0,
{
    let mut output = String::new();
    let mut chars = input.chars();
    loop
        invariant
            IteratorSpec::decrease(&chars) is Some,
            unescape_spec(input@) == prepend_ok(output@, unescape_spec(chars.remaining())),
        decreases IteratorSpec::decrease(&chars)->0,
    {
        let ghost rem = chars.remaining();
        let ghost out_prev = output@;
        let nxt = chars.next();
        let ch = match nxt {
            None => {
                proof {
                    assert(rem.len() == 0);
                    assert(output@ + Seq::<char>::empty() =~= output@);
                }
                return Ok(output);
            },
            Some(c) => c,
        };
        if ch != '\\' {
            string_push(&mut output, ch);
            proof {
                assert(rem.drop_first() =~= rem.skip(1));
                assert(output@ =~= out_prev + seq![ch]);
                lemma_prepend_assoc(out_prev, seq![ch], unescape_spec(rem.skip(1)));
            }
            continue ;
        }
        let esc = chars.next();
        match esc {
            None => {
                // the input ended here: nothing more can follow the backslash
                string_push(&mut output, '\\');
                proof {
                    assert(rem.len() == 1);
                    assert(output@ =~= out_prev + seq!['\\']);
                }
                return Ok(output);
            },
            Some(e) => {
                if e == 'x' {
                    let hi = match chars.next() {
                        None => {
                            return Err(PrepError::MissingEscapeDigits);
                        },
                        Some(c0) => c0,
                    };
                    let lo = match chars.next() {
                        None => {
                            return Err(PrepError::MissingEscapeDigits);
                        },
                        Some(c1) => c1,
                    };
                    let v = match hex_pair_to_u8(hi, lo) {
                        Ok(v) => v,
                        Err(err) => {
                            return Err(err);
                        },
                    };
                    let unit = v as char;
                    string_push(&mut output, unit);
                    proof {
                        assert(chars.remaining() =~= rem.skip(4));
                        assert(output@ =~= out_prev + seq![unit]);
                        lemma_prepend_assoc(out_prev, seq![unit], unescape_spec(rem.skip(4)));
                    }
                } else if e == 'u' || e == 'U' {
                    let digits: usize = if e == 'u' {
                        4
                    } else {
                        8
                    };
                    let ghost rem2 = rem.skip(2);
                    proof {
                        assert(chars.remaining() =~= rem2);
                        assert(rem2.skip(0) =~= rem2);
                    }
                    let ghost d0 = IteratorSpec::decrease(&chars)->0;
                    let mut value: u32 = 0;
                    let mut k: usize = 0;
                    let ghost mut cap: int = 1int;
                    while k < digits
                        invariant
                            digits == 4 || digits == 8,
                            k <= digits,
                            k <= rem2.len(),
                            IteratorSpec::decrease(&chars) is Some,
                            IteratorSpec::decrease(&chars)->0 <= d0,
                            take_hex(rem2, digits as int, 0) == take_hex(
                                chars.remaining(),
                                (digits - k) as int,
                                value as int,
                            ),
                            chars.remaining() == rem2.skip(k as int),
                            cap == pow16(k as int),
                            (value as int) < cap,
                        decreases digits - k,
                    {
                        let ghost r = chars.remaining();
                        let nxt2 = chars.next();
                        match nxt2 {
                            None => {
                                proof {
                                    assert(take_hex(r, (digits - k) as int, value as int)
                                        == Err::<int, PrepError>(PrepError::MissingEscapeDigits));
                                    assert(unescape_spec(rem) == Err::<Seq<char>, PrepError>(
                                        PrepError::MissingEscapeDigits,
                                    ));
                                }
                                return Err(PrepError::MissingEscapeDigits);
                            },
                            Some(dch) => {
                                let dv = match digit_to_value(dch) {
                                    Ok(x) => x,
                                    Err(_) => {
                                        proof {
                                            assert(dch == r[0]);
                                            assert(take_hex(r, (digits - k) as int, value as int)
                                                == Err::<int, PrepError>(
                                                PrepError::InvalidHexDigit,
                                            ));
                                            assert(unescape_spec(rem) == Err::<
                                                Seq<char>,
                                                PrepError,
                                            >(PrepError::InvalidHexDigit));
                                        }
                                        return Err(PrepError::InvalidHexDigit);
                                    },
                                };
                                proof {
                                    lemma_pow16_mono(k as int, 7);
                                    assert(pow16(0) == 1);
                                    assert(pow16(1) == 16);
                                    assert(pow16(2) == 0x100);
                                    assert(pow16(3) == 0x1000);
                                    assert(pow16(4) == 0x1_0000);
                                    assert(pow16(5) == 0x10_0000);
                                    assert(pow16(6) == 0x100_0000);
                                    assert(pow16(7) == 0x1000_0000);
                                    cap = 16 * cap;
                                    lemma_skip_step(rem2, k as int);
                                }
                                value = value * 16 + (dv as u32);
                                k = k + 1;
                            },
                        }
                    }
                    match char::from_u32(value) {
                        Some(cu) => {
                            string_push(&mut output, cu);
                            proof {
                                lemma_take_hex_len(rem2, digits as int, 0);
                                vstd::utf8::char_u32_cast(cu, value);
                                assert(output@ =~= out_prev + seq![cu]);
                                if digits == 4 {
                                    assert(chars.remaining() =~= rem.skip(6));
                                    lemma_prepend_assoc(
                                        out_prev,
                                        seq![cu],
                                        unescape_spec(rem.skip(6)),
                                    );
                                } else {
                                    assert(chars.remaining() =~= rem.skip(10));
                                    lemma_prepend_assoc(
                                        out_prev,
                                        seq![cu],
                                        unescape_spec(rem.skip(10)),
                                    );
                                }
                            }
                        },
                        None => {
                            return Err(PrepError::InvalidCodepoint);
                        },
                    }
                } else if e == 'c' {
                    let ctrl = match chars.next() {
                        None => {
                            return Err(PrepError::MissingControlChar);
                        },
                        Some(c2) => c2,
                    };
                    let cv = ctrl as u32;
                    let value = cv & 0x1F;
                    proof {
                        assert(value <= 0x1F) by (bit_vector)
                            requires
                                value == cv & 0x1F,
                        ;
                    }
                    match char::from_u32(value) {
                        Some(cu) => {
                            string_push(&mut output, cu);
                            proof {
                                vstd::utf8::char_u32_cast(cu, value);
                                assert(chars.remaining() =~= rem.skip(3));
                                assert(output@ =~= out_prev + seq![cu]);
                                lemma_prepend_assoc(
                                    out_prev,
                                    seq![cu],
                                    unescape_spec(rem.skip(3)),
                                );
                            }
                        },
                        None => {
                            return Err(PrepError::InvalidControlChar);
                        },
                    }
                } else {
                    let unit: char = match e {
                        'n' => '\n',
                        'r' => '\r',
                        't' => '\t',
                        'f' => '\u{000C}',
                        'v' => '\u{000B}',
                        'a' => '\u{0007}',
                        'b' => '\u{0008}',
                        '0' => '\u{0000}',
                        other => other,
                    };
                    string_push(&mut output, unit);
                    proof {
                        assert(chars.remaining() =~= rem.skip(2));
                        assert(output@ =~= out_prev + seq![unit]);
                        lemma_prepend_assoc(out_prev, seq![unit], unescape_spec(rem.skip(2)));
                    }
                }
            },
        }
    }
}

/// Decoding never lengthens the text: every produced character consumes at
/// least one input character.
pub proof fn lemma_unescape_len(s: Seq<char>)
    requires
        unescape_spec(s) is Ok,
    ensures
        unescape_spec(s)->Ok_0.len() <= s.len(),
    decreases s.len(),
{
    if s.len() == 0 {
    } else if s[0] != '\\' {
        if unescape_spec(s.skip(1)) is Ok {
            lemma_unescape_len(s.skip(1));
        }
    } else if s.len() == 1 {
    } else {
        let e = s[1];
        if e == 'x' {
            if s.len() >= 4 && hex_val(s[2]) >= 0 && hex_val(s[3]) >= 0 {
                if unescape_spec(s.skip(4)) is Ok {
                    lemma_unescape_len(s.skip(4));
                }
            }
        } else if e == 'u' {
            if take_hex(s.skip(2), 4, 0) is Ok {
                lemma_take_hex_len(s.skip(2), 4, 0);
                if unescape_spec(s.skip(6)) is Ok {
                    lemma_unescape_len(s.skip(6));
                }
            }
        } else if e == 'U' {
            if take_hex(s.skip(2), 8, 0) is Ok {
                lemma_take_hex_len(s.skip(2), 8, 0);
                if unescape_spec(s.skip(10)) is Ok {
                    lemma_unescape_len(s.skip(10));
                }
            }
        } else if e == 'c' {
            if s.len() >= 3 && unescape_spec(s.skip(3)) is Ok {
                lemma_unescape_len(s.skip(3));
            }
        } else {
            if unescape_spec(s.skip(2)) is Ok {
                lemma_unescape_len(s.skip(2));
            }
        }
    }
}

/// The ISO-8859-1 encoding has exactly one byte per character.
pub proof fn lemma_iso_len(s: Seq<char>)
    requires
        iso_spec(s) is Ok,
    ensures
        iso_spec(s)->Ok_0.len() == s.len(),
    decreases s.len(),
{
    if s.len() > 0 && s[0] as u32 <= 0xFF {
        lemma_iso_len(s.skip(1));
    }
}

/// Prepends already-encoded bytes to the encoding of the rest.
pub open spec fn prepend_bytes(p: Seq<u8>, r: Result<Seq<u8>, PrepError>) -> Result<
    Seq<u8>,
    PrepError,
> {
    match r {
        Ok(t) => Ok(p + t),
        Err(e) => Err(e),
    }
}

proof fn lemma_prepend_bytes_assoc(a: Seq<u8>, b: Seq<u8>, r: Result<Seq<u8>, PrepError>)
    ensures
        prepend_bytes(a, prepend_bytes(b, r)) == prepend_bytes(a + b, r),
{
    match r {
        Ok(t) => {
            assert(a + (b + t) =~= (a + b) + t);
        },
        Err(_) => {},
    }
}

/// Encodes the decoded text as ISO-8859-1, one byte per character; any
/// character above 0xFF is rejected.
pub fn to_iso_8859_1_bytes(input: &str) -> (r: Result<Vec<u8>, PrepError>)
    ensures
        r is Ok <==> iso_spec(input@) is Ok,
        r matches Ok(out) ==> out@ == iso_spec(input@)->Ok_0,
        r matches Err(e) ==> e == iso_spec(input@)->Err_0,
{
    let mut bytes: Vec<u8> = Vec::new();
    let mut chars = input.chars();
    loop
        invariant
            IteratorSpec::decrease(&chars) is Some,
            iso_spec(input@) == prepend_bytes(bytes@, iso_spec(chars.remaining())),
        decreases IteratorSpec::decrease(&chars)->0,
    {
        let ghost rem = chars.remaining();
        let ghost out_prev = bytes@;
        let nxt = chars.next();
        let ch = match nxt {
            None => {
                proof {
                    assert(rem.len() == 0);
                    assert(bytes@ + Seq::<u8>::empty() =~= bytes@);
                }
                return Ok(bytes);
            },
            Some(c) => c,
        };
        let cv = ch as u32;
        if cv > 0xFF {
            return Err(PrepError::Unrepresentable);
        }
        bytes.push(cv as u8);
        proof {
            assert(rem.drop_first() =~= rem.skip(1));
            assert(bytes@ =~= out_prev + seq![(cv as u8)]);
            assert(iso_spec(rem) == prepend_bytes(seq![(cv as u8)], iso_spec(rem.skip(1))));
            lemma_prepend_bytes_assoc(out_prev, seq![(cv as u8)], iso_spec(rem.skip(1)));
        }
    }
}

} // verus!

