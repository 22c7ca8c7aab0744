//! What is read off a transaction: the rules that need no arithmetic on
//! fractions.

use crate::datetime::{
    has_calendar_month, hour_of, parse_datetime, seconds_between, unix_secs, weekday_of,
    wrapped_size,
};
use crate::distance::{DIMS, LANES};
use crate::single::{
    exponent, fraction, is_number, lemma_fifth_bits, lemma_half_bits, lemma_magnitude_ascends,
    lemma_signs, one, scaled,
};
use vstd::arithmetic::power2::{lemma_pow2_pos, pow2};
use vstd::prelude::*;
use vstd::string::*;
use vstd::utf8::{encode_utf8, encode_utf8_decode_utf8};

verus! {

/// Whether two texts are the same.
fn same_text(a: &str, b: &str) -> (r: bool)
    ensures
        r == (a@ == b@),
{
    let x: &[u8] = a.as_bytes();
    let y: &[u8] = b.as_bytes();
    proof {
        encode_utf8_decode_utf8(a@);
        encode_utf8_decode_utf8(b@);
    }
    if x.len() != y.len() {
        return false;
    }
    let mut i: usize = 0;
    while i < x.len()
        invariant
            i <= x@.len(),
            x@.len() == y@.len(),
            x@ == encode_utf8(a@),
            y@ == encode_utf8(b@),
            forall|k: int| 0 <= k < i ==> #[trigger] x@[k] == y@[k],
        decreases x@.len() - i,
    {
        if x[i] != y[i] {
            return false;
        }
        i = i + 1;
    }
    assert(x@ =~= y@);
    true
}

/// Risk of a merchant category, in hundredths.
pub open spec fn risk_of(mcc: Seq<char>) -> u32 {
    if mcc == "5411"@ {
        15
    } else if mcc == "5812"@ {
        30
    } else if mcc == "5912"@ {
        20
    } else if mcc == "5944"@ {
        45
    } else if mcc == "7801"@ {
        80
    } else if mcc == "7802"@ {
        75
    } else if mcc == "7995"@ {
        85
    } else if mcc == "4511"@ {
        35
    } else if mcc == "5311"@ {
        25
    } else {
        50
    }
}

/// Risk of a merchant category, in hundredths; 50 for one that is not listed.
pub fn mcc_risk(mcc: &str) -> (r: u32)
    ensures
        r == risk_of(mcc@),
{
    if same_text(mcc, "5411") {
        15
    } else if same_text(mcc, "5812") {
        30
    } else if same_text(mcc, "5912") {
        20
    } else if same_text(mcc, "5944") {
        45
    } else if same_text(mcc, "7801") {
        80
    } else if same_text(mcc, "7802") {
        75
    } else if same_text(mcc, "7995") {
        85
    } else if same_text(mcc, "4511") {
        35
    } else if same_text(mcc, "5311") {
        25
    } else {
        50
    }
}

/// Whether a merchant is none of those that the customer knows.
pub fn is_unknown_merchant(known_merchants: &Vec<String>, id: &str) -> (r: bool)
    ensures
        r == forall|i: int|
            0 <= i < known_merchants@.len() ==> (#[trigger] known_merchants@[i])@ != id@,
{
    let mut i: usize = 0;
    while i < known_merchants.len()
        invariant
            i <= known_merchants@.len(),
            forall|k: int| 0 <= k < i ==> (#[trigger] known_merchants@[k])@ != id@,
        decreases known_merchants@.len() - i,
    {
        if same_text(known_merchants[i].as_str(), id) {
            return false;
        }
        i = i + 1;
    }
    true
}

/// What a request says of a transaction, before anything is normalised.
#[derive(Clone, Copy, Debug)]
pub struct Readings {
    /// Hour of the day.
    pub hour: u32,
    /// Day of the week, 0 for Monday.
    pub weekday: u32,
    /// Seconds since the last transaction, if there is one.
    pub since_last: Option<i64>,
    /// The merchant is none of those that the customer knows.
    pub unknown_merchant: bool,
    /// Risk of the merchant's category, in hundredths.
    pub risk: u32,
}

/// Reads the times, the merchant and the category of a request.
pub fn read_request(
    requested_at: &str,
    last_timestamp: Option<&str>,
    known_merchants: &Vec<String>,
    merchant_id: &str,
    mcc: &str,
) -> (r: Readings)
    requires
        has_calendar_month(requested_at.spec_bytes()),
    ensures
        r.hour == hour_of(requested_at.spec_bytes()),
        r.weekday == weekday_of(requested_at.spec_bytes()),
        r.since_last == match last_timestamp {
            Some(last) => Some(
                wrapped_size(unix_secs(requested_at.spec_bytes()), unix_secs(last.spec_bytes()))
                    as i64,
            ),
            None => None,
        },
        r.unknown_merchant == forall|i: int|
            0 <= i < known_merchants@.len() ==> (#[trigger] known_merchants@[i])@ != merchant_id@,
        r.risk == risk_of(mcc@),
{
    let (hour, weekday) = parse_datetime(requested_at);
    let since_last: Option<i64> = match last_timestamp {
        Some(last) => Some(seconds_between(last, requested_at)),
        None => None,
    };
    Readings {
        hour,
        weekday,
        since_last,
        unknown_merchant: is_unknown_merchant(known_merchants, merchant_id),
        risk: mcc_risk(mcc),
    }
}

/// Label of a reference transaction: 1 for fraud, 0 for anything else.
pub fn label_of(label: &str) -> (r: u8)
    ensures
        r == if label@ == "fraud"@ {
            1u8
        } else {
            0u8
        },
{
    if same_text(label, "fraud") {
        1
    } else {
        0
    }
}

/// The nearest number that 16 bits hold.
pub open spec fn clamped(scaled: int) -> int {
    if scaled >= 32767 {
        32767
    } else if scaled <= -32768 {
        -32768
    } else {
        scaled
    }
}

/// Quantises a feature that has been scaled and rounded.
pub fn quantize(scaled: i32) -> (r: i16)
    ensures
        r == clamped(scaled as int),
{
    if scaled >= 32767 {
        32767
    } else if scaled <= -32768 {
        -32768
    } else {
        scaled as i16
    }
}

/// Quantises the features; the two lanes that are no feature are zero.
pub fn quantize_vec(scaled: &[i32; 14]) -> (r: [i16; 16])
    ensures
        forall|l: int| 0 <= l < DIMS ==> #[trigger] r@[l] == clamped(scaled@[l] as int),
        forall|l: int| DIMS <= l < LANES ==> #[trigger] r@[l] == 0,
{
    let mut out: [i16; 16] = [0; 16];
    let mut i: usize = 0;
    while i < DIMS
        invariant
            i <= DIMS,
            forall|l: int| 0 <= l < i ==> #[trigger] out@[l] == clamped(scaled@[l] as int),
            forall|l: int| i <= l < LANES ==> #[trigger] out@[l] == 0,
        decreases DIMS - i,
    {
        out[i] = quantize(scaled[i]);
        i = i + 1;
    }
    out
}

/// Bits of the largest single-precision number, infinity. What has larger bits,
/// without the sign, is no number.
pub const INFINITY_BITS: u32 = 0x7f80_0000;

/// The sign bit of a single-precision number.
pub const SIGN_BIT: u32 = 0x8000_0000;

/// Bits of 0.2 in single precision.
pub const BITS_0_2: u32 = 0x3e4c_cccd;

/// Bits of 0.5 in single precision.
pub const BITS_0_5: u32 = 0x3f00_0000;

/// Bits of 0.8 in single precision.
pub const BITS_0_8: u32 = 0x3f4c_cccd;

/// The bits are those of a number that is zero or more, of either sign of zero.
pub open spec fn not_negative(bits: u32) -> bool {
    bits <= INFINITY_BITS || bits == SIGN_BIT
}

/// The bits are those of a number greater than one that is not negative.
pub open spec fn exceeds(bits: u32, limit: u32) -> bool {
    limit < bits <= INFINITY_BITS
}

/// The bits are those of a number no greater than one that is not negative.
pub open spec fn within(bits: u32, limit: u32) -> bool {
    bits <= limit || SIGN_BIT <= bits <= SIGN_BIT + INFINITY_BITS
}

/// Level of the merchant category's risk, from 0 to 3.
pub open spec fn risk_level(bits: u32) -> int {
    if within(bits, BITS_0_2) {
        0
    } else if within(bits, BITS_0_5) {
        1
    } else if within(bits, BITS_0_8) {
        2
    } else {
        3
    }
}

/// 1 for what holds, 0 for what does not.
pub open spec fn bit(b: bool) -> int {
    if b {
        1
    } else {
        0
    }
}

/// The partition key of a transaction, from the bits of its features: whether
/// there is a last transaction, whether the terminal is online, whether the card
/// is present, whether the merchant is unknown, the level of the category's
/// risk, whether the amount is high for the customer, and whether transactions
/// are frequent.
pub open spec fn key_of(v: Seq<u32>) -> int {
    bit(not_negative(v[5])) + 2 * bit(exceeds(v[9], BITS_0_5)) + 4 * bit(exceeds(v[10], BITS_0_5))
        + 8 * bit(exceeds(v[11], BITS_0_5)) + 16 * risk_level(v[12]) + 64 * bit(
        exceeds(v[2], BITS_0_5),
    ) + 128 * bit(exceeds(v[8], BITS_0_5))
}

/// `not_negative`, decided.
fn is_not_negative(bits: u32) -> (r: bool)
    ensures
        r == not_negative(bits),
{
    bits <= INFINITY_BITS || bits == SIGN_BIT
}

/// `exceeds`, decided.
fn is_above(bits: u32, limit: u32) -> (r: bool)
    ensures
        r == exceeds(bits, limit),
{
    limit < bits && bits <= INFINITY_BITS
}

/// `within`, decided.
fn is_within(bits: u32, limit: u32) -> (r: bool)
    ensures
        r == within(bits, limit),
{
    bits <= limit || (SIGN_BIT <= bits && bits <= SIGN_BIT + INFINITY_BITS)
}

/// Partition key of a transaction, from the single-precision bits of its
/// features.
pub fn compute_partition_key(v: &[u32; 14]) -> (r: u8)
    ensures
        r == key_of(v@),
{
    let mut k: u8 = 0;
    if is_not_negative(v[5]) {
        k = k + 1;
    }
    if is_above(v[9], BITS_0_5) {
        k = k + 2;
    }
    if is_above(v[10], BITS_0_5) {
        k = k + 4;
    }
    if is_above(v[11], BITS_0_5) {
        k = k + 8;
    }
    let level: u8 = if is_within(v[12], BITS_0_2) {
        0
    } else if is_within(v[12], BITS_0_5) {
        1
    } else if is_within(v[12], BITS_0_8) {
        2
    } else {
        3
    };
    k = k + 16 * level;
    if is_above(v[2], BITS_0_5) {
        k = k + 64;
    }
    if is_above(v[8], BITS_0_5) {
        k = k + 128;
    }
    k
}

/// The comparisons go by the order of the numbers that the bits stand for: they
/// hold of a number exactly where it is zero or more, greater than the limit, or
/// no greater than it. What is no number compares with nothing.
pub proof fn law_bits_compare_as_numbers(bits: u32, limit: u32)
    requires
        limit <= 0x7f80_0000,
    ensures
        is_number(bits) ==> (not_negative(bits) <==> scaled(bits) >= 0),
        is_number(bits) ==> (exceeds(bits, limit) <==> scaled(bits) > scaled(limit)),
        is_number(bits) ==> (within(bits, limit) <==> scaled(bits) <= scaled(limit)),
        !is_number(bits) ==> !not_negative(bits) && !exceeds(bits, limit) && !within(bits, limit),
{
    lemma_signs(bits);
    lemma_signs(limit);
    if bits < 0x8000_0000 {
        if bits < limit {
            lemma_magnitude_ascends(bits, limit);
        } else if limit < bits {
            lemma_magnitude_ascends(limit, bits);
        }
    }
    assert(bits == 0x8000_0000 * (bits as int / 0x8000_0000) + 0x80_0000 * exponent(bits)
        + fraction(bits));
}

/// The limits are the single-precision numbers nearest to one half, one fifth and
/// four fifths.
pub proof fn law_limits_are_nearest(bits: u32)
    ensures
        2 * scaled(BITS_0_5) == one(),
        off_by(5 * scaled(BITS_0_2), one()) <= off_by(5 * scaled(bits), one()),
        off_by(5 * scaled(BITS_0_8), 4 * one()) <= off_by(5 * scaled(bits), 4 * one()),
{
    lemma_half_bits();
    lemma_fifth_bits();
    lemma_pow2_pos(123);
    lemma_pow2_pos(125);
    lemma_pow2_pos(149);
    lemma_signs(bits);
    lemma_magnitude_ascends(0x3e4c_cccc, 0x3e4c_cccd);
    lemma_magnitude_ascends(0x3f4c_cccc, 0x3f4c_cccd);
    if bits < 0x8000_0000 {
        if bits < 0x3e4c_cccc {
            lemma_magnitude_ascends(bits, 0x3e4c_cccc);
        } else if bits > 0x3e4c_cccd {
            lemma_magnitude_ascends(0x3e4c_cccd, bits);
        }
        if bits < 0x3f4c_cccc {
            lemma_magnitude_ascends(bits, 0x3f4c_cccc);
        } else if bits > 0x3f4c_cccd {
            lemma_magnitude_ascends(0x3f4c_cccd, bits);
        }
    } else {
        assert(scaled(bits) <= 0);
        lemma_signs(0x3e4c_cccc);
        lemma_signs(0x3f4c_cccc);
    }
}

/// How far two numbers are apart.
pub open spec fn off_by(x: int, y: int) -> int {
    if x < y {
        y - x
    } else {
        x - y
    }
}

/// What each part of a partition key says of the features as numbers. Bit 0 is
/// set where feature 5 is zero or more; bits 1, 2, 3, 6 and 7 are set where
/// features 9, 10, 11, 2 and 8 are above one half; bits 4 and 5 count how many
/// of 0.2, 0.5 and 0.8, in single precision, feature 12 is above.
pub proof fn law_key_follows_features(v: Seq<u32>, key: u8)
    requires
        v.len() == 14,
        forall|i: int| 0 <= i < 14 ==> is_number(#[trigger] v[i]),
        key == key_of(v),
    ensures
        key & 1 == 1 <==> scaled(v[5]) >= 0,
        (key >> 1) & 1 == 1 <==> 2 * scaled(v[9]) > one(),
        (key >> 2) & 1 == 1 <==> 2 * scaled(v[10]) > one(),
        (key >> 3) & 1 == 1 <==> 2 * scaled(v[11]) > one(),
        (key >> 6) & 1 == 1 <==> 2 * scaled(v[2]) > one(),
        (key >> 7) & 1 == 1 <==> 2 * scaled(v[8]) > one(),
        (key >> 4) & 3 >= 1 <==> scaled(v[12]) > 13421773 * pow2(123),
        (key >> 4) & 3 >= 2 <==> 2 * scaled(v[12]) > one(),
        (key >> 4) & 3 == 3 <==> scaled(v[12]) > 13421773 * pow2(125),
{
    law_key_bits(v, key);
    lemma_half_bits();
    lemma_fifth_bits();
    law_bits_compare_as_numbers(v[5], BITS_0_5);
    law_bits_compare_as_numbers(v[9], BITS_0_5);
    law_bits_compare_as_numbers(v[10], BITS_0_5);
    law_bits_compare_as_numbers(v[11], BITS_0_5);
    law_bits_compare_as_numbers(v[2], BITS_0_5);
    law_bits_compare_as_numbers(v[8], BITS_0_5);
    law_bits_compare_as_numbers(v[12], BITS_0_2);
    law_bits_compare_as_numbers(v[12], BITS_0_5);
    law_bits_compare_as_numbers(v[12], BITS_0_8);
    lemma_magnitude_ascends(0x3e4c_cccd, 0x3f00_0000);
    lemma_magnitude_ascends(0x3f00_0000, 0x3f4c_cccd);
}

/// A feature that is no number counts as missing, and as not above one half; as
/// risk it counts as the highest.
pub proof fn law_key_of_no_number(v: Seq<u32>, key: u8)
    requires
        v.len() == 14,
        key == key_of(v),
    ensures
        !is_number(v[5]) ==> key & 1 == 0,
        !is_number(v[9]) ==> (key >> 1) & 1 == 0,
        !is_number(v[10]) ==> (key >> 2) & 1 == 0,
        !is_number(v[11]) ==> (key >> 3) & 1 == 0,
        !is_number(v[2]) ==> (key >> 6) & 1 == 0,
        !is_number(v[8]) ==> (key >> 7) & 1 == 0,
        !is_number(v[12]) ==> (key >> 4) & 3 == 3,
{
    law_key_bits(v, key);
    law_bits_compare_as_numbers(v[5], BITS_0_5);
    law_bits_compare_as_numbers(v[9], BITS_0_5);
    law_bits_compare_as_numbers(v[10], BITS_0_5);
    law_bits_compare_as_numbers(v[11], BITS_0_5);
    law_bits_compare_as_numbers(v[2], BITS_0_5);
    law_bits_compare_as_numbers(v[8], BITS_0_5);
    law_bits_compare_as_numbers(v[12], BITS_0_2);
    law_bits_compare_as_numbers(v[12], BITS_0_5);
    law_bits_compare_as_numbers(v[12], BITS_0_8);
}

/// Only the seven features named above have a part in the key.
pub proof fn law_key_needs_seven_features(v: Seq<u32>, w: Seq<u32>)
    requires
        v.len() == 14,
        w.len() == 14,
        forall|i: int|
            i == 2 || i == 5 || i == 8 || i == 9 || i == 10 || i == 11 || i == 12
                ==> #[trigger] v[i] == w[i],
    ensures
        key_of(v) == key_of(w),
        0 <= key_of(v) < 256,
{
    assert(v[2] == w[2] && v[5] == w[5] && v[8] == w[8] && v[9] == w[9] && v[10] == w[10] && v[11]
        == w[11] && v[12] == w[12]);
}

/// Each part of a partition key can be read back from its bits, so that two
/// transactions have the same key only if they agree in every part.
pub proof fn law_key_bits(v: Seq<u32>, key: u8)
    requires
        key == key_of(v),
    ensures
        key & 1 == bit(not_negative(v[5])),
        (key >> 1) & 1 == bit(exceeds(v[9], BITS_0_5)),
        (key >> 2) & 1 == bit(exceeds(v[10], BITS_0_5)),
        (key >> 3) & 1 == bit(exceeds(v[11], BITS_0_5)),
        (key >> 4) & 3 == risk_level(v[12]),
        (key >> 6) & 1 == bit(exceeds(v[2], BITS_0_5)),
        (key >> 7) & 1 == bit(exceeds(v[8], BITS_0_5)),
{
    assert(key & 1 == key % 2) by (bit_vector);
    assert((key >> 1) & 1 == key / 2 % 2) by (bit_vector);
    assert((key >> 2) & 1 == key / 4 % 2) by (bit_vector);
    assert((key >> 3) & 1 == key / 8 % 2) by (bit_vector);
    assert((key >> 4) & 3 == key / 16 % 4) by (bit_vector);
    assert((key >> 6) & 1 == key / 64 % 2) by (bit_vector);
    assert((key >> 7) & 1 == key / 128) by (bit_vector);
}

/// The four digits of a category.
spec fn code(a: char, b: char, c: char, d: char) -> Seq<char> {
    seq![a, b, c, d]
}

/// The risk of every category: those that are listed by their digits, and one
/// half for every other text.
pub proof fn law_risks(mcc: Seq<char>)
    ensures
        risk_of(mcc) == 15 <==> mcc == seq!['5', '4', '1', '1'],
        risk_of(mcc) == 20 <==> mcc == seq!['5', '9', '1', '2'],
        risk_of(mcc) == 25 <==> mcc == seq!['5', '3', '1', '1'],
        risk_of(mcc) == 30 <==> mcc == seq!['5', '8', '1', '2'],
        risk_of(mcc) == 35 <==> mcc == seq!['4', '5', '1', '1'],
        risk_of(mcc) == 45 <==> mcc == seq!['5', '9', '4', '4'],
        risk_of(mcc) == 75 <==> mcc == seq!['7', '8', '0', '2'],
        risk_of(mcc) == 80 <==> mcc == seq!['7', '8', '0', '1'],
        risk_of(mcc) == 85 <==> mcc == seq!['7', '9', '9', '5'],
        [15u32, 20, 25, 30, 35, 45, 75, 80, 85]@.contains(risk_of(mcc)) || risk_of(mcc) == 50,
{
    reveal_strlit("5411");
    reveal_strlit("5912");
    reveal_strlit("5311");
    reveal_strlit("5812");
    reveal_strlit("4511");
    reveal_strlit("5944");
    reveal_strlit("7802");
    reveal_strlit("7801");
    reveal_strlit("7995");
    assert("5411"@ =~= code('5', '4', '1', '1'));
    assert("5912"@ =~= code('5', '9', '1', '2'));
    assert("5311"@ =~= code('5', '3', '1', '1'));
    assert("5812"@ =~= code('5', '8', '1', '2'));
    assert("4511"@ =~= code('4', '5', '1', '1'));
    assert("5944"@ =~= code('5', '9', '4', '4'));
    assert("7802"@ =~= code('7', '8', '0', '2'));
    assert("7801"@ =~= code('7', '8', '0', '1'));
    assert("7995"@ =~= code('7', '9', '9', '5'));
    lemma_codes_differ();
    let listed = [15u32, 20, 25, 30, 35, 45, 75, 80, 85]@;
    assert(listed[0] == 15 && listed[1] == 20 && listed[2] == 25 && listed[3] == 30 && listed[4]
        == 35 && listed[5] == 45 && listed[6] == 75 && listed[7] == 80 && listed[8] == 85);
}

proof fn lemma_codes_differ()
    ensures
        forall|a: char, b: char, c: char, d: char, e: char, f: char, g: char, h: char|
            #[trigger] code(a, b, c, d) == #[trigger] code(e, f, g, h) ==> a == e && b == f && c
                == g && d == h,
{
    assert forall|a: char, b: char, c: char, d: char, e: char, f: char, g: char, h: char|
        #[trigger] code(a, b, c, d) == #[trigger] code(e, f, g, h) implies a == e && b == f && c
        == g && d == h by {
        assert(code(a, b, c, d)[0] == code(e, f, g, h)[0]);
        assert(code(a, b, c, d)[1] == code(e, f, g, h)[1]);
        assert(code(a, b, c, d)[2] == code(e, f, g, h)[2]);
        assert(code(a, b, c, d)[3] == code(e, f, g, h)[3]);
    }
}

/// Clamping gives the nearest number that 16 bits hold, and a number that they
/// hold is its own; of two numbers the larger one does not give the smaller.
pub proof fn law_clamped_is_nearest(x: int, y: int)
    ensures
        -32768 <= clamped(x) <= 32767,
        -32768 <= y <= 32767 ==> off_by(x, clamped(x)) <= off_by(x, y),
        -32768 <= x <= 32767 ==> clamped(x) == x,
        x <= y ==> clamped(x) <= clamped(y),
{
}

}
