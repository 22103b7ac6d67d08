//! Base64: three bytes are written as four symbols of six bits each, and a last group of
//! one or two bytes is filled up with `=`.

use vstd::prelude::*;
use vstd::string::StringSliceAdditionalSpecFns;

verus! {

pub struct Base64Encoder;

/// The value that stands for a filling `=` among the six-bit values.
pub const PAD: u8 = 64;

pub const UPPER_A: u8 = 65;

pub const UPPER_Z: u8 = 90;

pub const LOWER_A: u8 = 97;

pub const LOWER_Z: u8 = 122;

pub const DIGIT_0: u8 = 48;

pub const DIGIT_9: u8 = 57;

pub const PLUS: u8 = 43;

pub const SLASH: u8 = 47;

pub const EQUALS: u8 = 61;

/// The four six-bit values of a group of three bytes.
pub open spec fn sextets_of(a: u8, b: u8, c: u8) -> Seq<u8> {
    seq![
        (a / 4) as u8,
        ((a % 4) * 16 + b / 16) as u8,
        ((b % 16) * 4 + c / 64) as u8,
        (c % 64) as u8,
    ]
}

/// The six-bit values of the first `groups` groups of three bytes.
pub open spec fn group_sextets(bytes: Seq<u8>, groups: nat) -> Seq<u8>
    decreases groups,
{
    if groups == 0 {
        Seq::empty()
    } else {
        let i = (groups - 1) * 3;
        group_sextets(bytes, (groups - 1) as nat) + sextets_of(bytes[i], bytes[i + 1], bytes[i + 2])
    }
}

/// The six-bit values of what is left behind the last full group, filled up with `PAD`.
pub open spec fn tail_sextets(bytes: Seq<u8>) -> Seq<u8> {
    let n = bytes.len() as int;
    if n % 3 == 1 {
        let four = sextets_of(bytes[n - 1], 0, 0);
        seq![four[0], four[1], PAD, PAD]
    } else if n % 3 == 2 {
        let four = sextets_of(bytes[n - 2], bytes[n - 1], 0);
        seq![four[0], four[1], four[2], PAD]
    } else {
        Seq::empty()
    }
}

/// The symbol that stands for a six-bit value, and `=` for `PAD`.
pub open spec fn symbol(value: u8) -> u8 {
    if value < 26 {
        (value + UPPER_A) as u8
    } else if value < 52 {
        (value - 26 + LOWER_A) as u8
    } else if value < 62 {
        (value - 52 + DIGIT_0) as u8
    } else if value == 62 {
        PLUS
    } else if value == 63 {
        SLASH
    } else if value == PAD {
        EQUALS
    } else {
        value
    }
}

/// The bytes of the Base64 text of `bytes`.
pub open spec fn encoded(bytes: Seq<u8>) -> Seq<u8> {
    (group_sextets(bytes, bytes.len() / 3) + tail_sextets(bytes)).map_values(|v: u8| symbol(v))
}

/// The six-bit value that a symbol stands for, if it is one of the sixty-four.
pub open spec fn value_of(byte: u8) -> Option<u8> {
    if UPPER_A <= byte <= UPPER_Z {
        Some((byte - UPPER_A) as u8)
    } else if LOWER_A <= byte <= LOWER_Z {
        Some((byte - LOWER_A + 26) as u8)
    } else if DIGIT_0 <= byte <= DIGIT_9 {
        Some((byte - DIGIT_0 + 52) as u8)
    } else if byte == PLUS {
        Some(62)
    } else if byte == SLASH {
        Some(63)
    } else {
        None
    }
}

/// The six-bit values of the symbols in a text; what is no symbol is passed over.
pub open spec fn values_in(text: Seq<u8>) -> Seq<u8>
    decreases text.len(),
{
    if text.len() == 0 {
        Seq::empty()
    } else {
        values_in(text.drop_last()) + match value_of(text.last()) {
            Some(v) => seq![v],
            None => Seq::empty(),
        }
    }
}

/// The number of `=` in a text.
pub open spec fn padding_in(text: Seq<u8>) -> nat
    decreases text.len(),
{
    if text.len() == 0 {
        0
    } else {
        padding_in(text.drop_last()) + if text.last() == EQUALS {
            1nat
        } else {
            0nat
        }
    }
}

/// The three bytes of a group of four six-bit values.
pub open spec fn bytes_of(a: u8, b: u8, c: u8, d: u8) -> Seq<u8> {
    seq![
        ((a % 64) * 4 + b / 16) as u8,
        ((b % 16) * 16 + c / 4) as u8,
        ((c % 4) * 64 + d) as u8,
    ]
}

/// The bytes of the first `groups` groups of four six-bit values.
pub open spec fn group_bytes(values: Seq<u8>, groups: nat) -> Seq<u8>
    decreases groups,
{
    if groups == 0 {
        Seq::empty()
    } else {
        let i = (groups - 1) * 4;
        group_bytes(values, (groups - 1) as nat) + bytes_of(
            values[i],
            values[i + 1],
            values[i + 2],
            values[i + 3],
        )
    }
}

/// The bytes that the last values give once more where the text is filled up: two bytes of
/// the last three values behind one `=`, one byte of the last two behind two.
pub open spec fn tail_bytes(values: Seq<u8>, padding: nat) -> Seq<u8> {
    let n = values.len() as int;
    if padding == 1 {
        let three = bytes_of(values[n - 3], values[n - 2], values[n - 1], 0);
        seq![three[0], three[1]]
    } else if padding == 2 {
        let three = bytes_of(values[n - 2], values[n - 1], 0, 0);
        seq![three[0]]
    } else {
        Seq::empty()
    }
}

/// The text has the values that its filling asks for: three behind one `=`, two behind two.
pub open spec fn decodable(text: Seq<u8>) -> bool {
    &&& padding_in(text) == 1 ==> values_in(text).len() >= 3
    &&& padding_in(text) == 2 ==> values_in(text).len() >= 2
}

/// The bytes that a Base64 text stands for.
pub open spec fn decoded(text: Seq<u8>) -> Seq<u8> {
    let values = values_in(text);
    group_bytes(values, values.len() / 4) + tail_bytes(values, padding_in(text))
}

/// Calls `String::from_utf8_lossy` of std and takes the text as a `String` of its own. Of
/// bytes that are all ASCII the text holds one character for each byte, the character with
/// that code.
#[verifier::external_body]
fn ascii_text(bytes: &Vec<u8>) -> (text: String)
    requires
        forall|i: int| 0 <= i < bytes@.len() ==> bytes@[i] < 128,
    ensures
        text@ == bytes@.map_values(|b: u8| b as char),
{
    String::from_utf8_lossy(bytes.as_slice()).into_owned()
}

impl Base64Encoder {
    /// The Base64 text of `src`.
    pub fn encode(src: &[u8]) -> (text: String)
        ensures
            text@ == encoded(src@).map_values(|b: u8| b as char),
    {
        let bytes = Self::encode_bytes(src);
        ascii_text(&bytes)
    }

    /// The bytes of the Base64 text of `src`: all of them ASCII.
    pub fn encode_bytes(src: &[u8]) -> (result: Vec<u8>)
        ensures
            result@ == encoded(src@),
            forall|i: int| 0 <= i < result@.len() ==> result@[i] < 128,
    {
        let n = src.len();
        let tail = n % 3;
        let group = n / 3;

        let mut result: Vec<u8> = Vec::new();

        let mut i: usize = 0;
        while i < group
            invariant
                n == src@.len(),
                group == n / 3,
                group * 3 <= n,
                i <= group,
                result@ == group_sextets(src@, i as nat),
                forall|k: int| 0 <= k < result@.len() ==> result@[k] < 64,
            decreases group - i,
        {
            let u1 = src[i * 3];
            let u2 = src[i * 3 + 1];
            let u3 = src[i * 3 + 2];
            let t1 = u1 >> 2;
            let t2 = ((u1 & 0x03) << 4) | (u2 >> 4);
            let t3 = ((u2 & 0x0f) << 2) | (u3 >> 6);
            let t4 = u3 & 0x3f;
            proof {
                lemma_split(u1, u2, u3);
            }
            result.push(t1);
            result.push(t2);
            result.push(t3);
            result.push(t4);
            assert(result@ =~= group_sextets(src@, i as nat) + sextets_of(u1, u2, u3));
            i += 1;
        }

        if tail == 1 {
            let u1 = src[n - 1];
            let t1 = u1 >> 2;
            let t2 = (u1 & 0x03) << 4;
            proof {
                lemma_split(u1, 0, 0);
            }
            result.push(t1);
            result.push(t2);
            result.push(0x40);
            result.push(0x40);
        } else if tail == 2 {
            let u1 = src[n - 2];
            let u2 = src[n - 1];
            let t1 = u1 >> 2;
            let t2 = ((u1 & 0x03) << 4) | (u2 >> 4);
            let t3 = (u2 & 0x0f) << 2;
            proof {
                lemma_split(u1, u2, 0);
            }
            result.push(t1);
            result.push(t2);
            result.push(t3);
            result.push(0x40);
        }
        let ghost values = result@;
        assert(values =~= group_sextets(src@, (n / 3) as nat) + tail_sextets(src@));

        let mut k: usize = 0;
        while k < result.len()
            invariant
                k <= result@.len(),
                result@.len() == values.len(),
                forall|j: int| 0 <= j < values.len() ==> values[j] <= 64,
                forall|j: int| 0 <= j < k ==> result@[j] == symbol(values[j]) && result@[j] < 128,
                forall|j: int| k <= j < values.len() ==> result@[j] == values[j],
            decreases result@.len() - k,
        {
            let byte = result[k];
            let mapped = if byte < 26 {
                byte + UPPER_A
            } else if byte < 52 {
                byte - 26 + LOWER_A
            } else if byte < 62 {
                byte - 52 + DIGIT_0
            } else if byte == 62 {
                PLUS
            } else if byte == 63 {
                SLASH
            } else if byte == 64 {
                EQUALS
            } else {
                byte
            };
            result.set(k, mapped);
            k += 1;
        }
        assert(result@ =~= encoded(src@));
        result
    }

    /// Whether `src` has the values that its filling asks for.
    pub fn can_decode(src: &str) -> (ok: bool)
        ensures
            ok == decodable(src.spec_bytes()),
    {
        let (values, tail) = Self::values_and_padding(src.as_bytes());
        !(tail == 1 && values.len() < 3) && !(tail == 2 && values.len() < 2)
    }

    /// The bytes that the Base64 text `src` stands for.
    pub fn decode(src: &str) -> (result: Vec<u8>)
        requires
            decodable(src.spec_bytes()),
        ensures
            result@ == decoded(src.spec_bytes()),
    {
        Self::decode_bytes(src.as_bytes())
    }

    /// The six-bit values of the symbols in `src`, and the number of `=` in it; a number of
    /// three stands for three or more.
    fn values_and_padding(src: &[u8]) -> (r: (Vec<u8>, usize))
        ensures
            r.0@ == values_in(src@),
            r.1 <= 3,
            r.1 < 3 ==> r.1 == padding_in(src@),
            r.1 == 3 ==> padding_in(src@) >= 3,
            forall|k: int| 0 <= k < r.0@.len() ==> r.0@[k] < 64,
    {
        let mut tail: usize = 0;
        let mut src_nums: Vec<u8> = Vec::new();
        let mut i: usize = 0;
        assert(src@.take(0) =~= Seq::<u8>::empty());
        while i < src.len()
            invariant
                i <= src@.len(),
                src_nums@ == values_in(src@.take(i as int)),
                tail <= 3,
                tail < 3 ==> tail == padding_in(src@.take(i as int)),
                tail == 3 ==> padding_in(src@.take(i as int)) >= 3,
                forall|k: int| 0 <= k < src_nums@.len() ==> src_nums@[k] < 64,
            decreases src@.len() - i,
        {
            let byte = src[i];
            proof {
                assert(src@.take(i + 1).drop_last() =~= src@.take(i as int));
            }
            if byte >= UPPER_A && byte <= UPPER_Z {
                src_nums.push(byte - UPPER_A);
            } else if byte >= LOWER_A && byte <= LOWER_Z {
                src_nums.push(byte - LOWER_A + 26);
            } else if byte >= DIGIT_0 && byte <= DIGIT_9 {
                src_nums.push(byte - DIGIT_0 + 52);
            } else if byte == PLUS {
                src_nums.push(62);
            } else if byte == SLASH {
                src_nums.push(63);
            } else if byte == EQUALS {
                if tail < 3 {
                    tail += 1;
                }
            }
            assert(src_nums@ =~= values_in(src@.take(i + 1)));
            i += 1;
        }
        assert(src@.take(i as int) =~= src@);
        (src_nums, tail)
    }

    /// The bytes that the Base64 text with the bytes `src` stands for.
    pub fn decode_bytes(src: &[u8]) -> (result: Vec<u8>)
        requires
            decodable(src@),
        ensures
            result@ == decoded(src@),
    {
        let (src_nums, tail) = Self::values_and_padding(src);

        let count = src_nums.len();
        let group = count / 4;
        let mut result: Vec<u8> = Vec::new();

        let mut i: usize = 0;
        while i < group
            invariant
                count == src_nums@.len(),
                group == count / 4,
                group * 4 <= count,
                i <= group,
                result@ == group_bytes(src_nums@, i as nat),
                forall|k: int| 0 <= k < src_nums@.len() ==> src_nums@[k] < 64,
            decreases group - i,
        {
            let t1 = src_nums[i * 4];
            let t2 = src_nums[i * 4 + 1];
            let t3 = src_nums[i * 4 + 2];
            let t4 = src_nums[i * 4 + 3];
            let u1 = (t1 << 2) | (t2 >> 4);
            let u2 = ((t2 & 0x0f) << 4) | (t3 >> 2);
            let u3 = ((t3 & 0x03) << 6) | t4;
            proof {
                lemma_join(t1, t2, t3, t4);
            }
            result.push(u1);
            result.push(u2);
            result.push(u3);
            assert(result@ =~= group_bytes(src_nums@, i as nat) + bytes_of(t1, t2, t3, t4));
            i += 1;
        }

        if tail == 1 {
            let n = src_nums.len();
            let t1 = src_nums[n - 3];
            let t2 = src_nums[n - 2];
            let t3 = src_nums[n - 1];
            let u1 = (t1 << 2) | (t2 >> 4);
            let u2 = ((t2 & 0x0f) << 4) | (t3 >> 2);
            proof {
                lemma_join(t1, t2, t3, 0);
            }
            result.push(u1);
            result.push(u2);
        } else if tail == 2 {
            let n = src_nums.len();
            let t1 = src_nums[n - 2];
            let t2 = src_nums[n - 1];
            let u1 = (t1 << 2) | (t2 >> 4);
            proof {
                lemma_join(t1, t2, 0, 0);
            }
            result.push(u1);
        }
        assert(result@ =~= decoded(src@));
        result
    }
}

/// Shifts and masks cut three bytes into four six-bit values.
proof fn lemma_split(a: u8, b: u8, c: u8)
    ensures
        a >> 2 == a / 4,
        ((a & 0x03) << 4) | (b >> 4) == (a % 4) * 16 + b / 16,
        ((b & 0x0f) << 2) | (c >> 6) == (b % 16) * 4 + c / 64,
        c & 0x3f == c % 64,
        (a & 0x03) << 4 == (a % 4) * 16,
        (b & 0x0f) << 2 == (b % 16) * 4,
        a / 4 < 64,
        (a % 4) * 16 + b / 16 < 64,
        (b % 16) * 4 + c / 64 < 64,
        c % 64 < 64,
{
    assert(a >> 2 == a / 4) by (bit_vector);
    assert(((a & 0x03) << 4) | (b >> 4) == (a % 4) * 16 + b / 16) by (bit_vector);
    assert(((b & 0x0f) << 2) | (c >> 6) == (b % 16) * 4 + c / 64) by (bit_vector);
    assert(c & 0x3f == c % 64) by (bit_vector);
    assert((a & 0x03) << 4 == (a % 4) * 16) by (bit_vector);
    assert((b & 0x0f) << 2 == (b % 16) * 4) by (bit_vector);
}

/// Shifts and masks join four six-bit values into three bytes.
proof fn lemma_join(a: u8, b: u8, c: u8, d: u8)
    requires
        a < 64,
        b < 64,
        c < 64,
        d < 64,
    ensures
        (a << 2) | (b >> 4) == (a % 64) * 4 + b / 16,
        ((b & 0x0f) << 4) | (c >> 2) == (b % 16) * 16 + c / 4,
        ((c & 0x03) << 6) | d == (c % 4) * 64 + d,
{
    assert((a << 2) | (b >> 4) == (a % 64) * 4 + b / 16) by (bit_vector)
        requires
            a < 64,
            b < 64,
    ;
    assert(((b & 0x0f) << 4) | (c >> 2) == (b % 16) * 16 + c / 4) by (bit_vector)
        requires
            c < 64,
    ;
    assert(((c & 0x03) << 6) | d == (c % 4) * 64 + d) by (bit_vector)
        requires
            d < 64,
    ;
}

/// The values of two texts one after the other are the values of the one, then those of the
/// other; and so with the number of `=`.
proof fn lemma_values_concat(a: Seq<u8>, b: Seq<u8>)
    ensures
        values_in(a + b) == values_in(a) + values_in(b),
        padding_in(a + b) == padding_in(a) + padding_in(b),
    decreases b.len(),
{
    if b.len() == 0 {
        assert(a + b =~= a);
        assert(values_in(a) + values_in(b) =~= values_in(a));
    } else {
        assert((a + b).drop_last() =~= a + b.drop_last());
        lemma_values_concat(a, b.drop_last());
        assert(values_in(a + b) =~= values_in(a) + values_in(b));
    }
}

/// The symbols of six-bit values stand for those values, and none of them is `=`.
proof fn lemma_values_of_symbols(values: Seq<u8>)
    requires
        forall|i: int| 0 <= i < values.len() ==> values[i] < 64,
    ensures
        values_in(values.map_values(|v: u8| symbol(v))) == values,
        padding_in(values.map_values(|v: u8| symbol(v))) == 0,
    decreases values.len(),
{
    let text = values.map_values(|v: u8| symbol(v));
    if values.len() > 0 {
        assert(text.drop_last() =~= values.drop_last().map_values(|v: u8| symbol(v)));
        lemma_values_of_symbols(values.drop_last());
        assert(value_of(symbol(values.last())) == Some(values.last()));
        assert(values_in(text) =~= values);
    }
}

/// Every six-bit value of the groups of a text is below sixty-four, and there are four for
/// each group.
proof fn lemma_group_sextets(bytes: Seq<u8>, groups: nat)
    requires
        groups * 3 <= bytes.len(),
    ensures
        group_sextets(bytes, groups).len() == groups * 4,
        forall|i: int| 0 <= i < groups * 4 ==> group_sextets(bytes, groups)[i] < 64,
    decreases groups,
{
    if groups > 0 {
        lemma_group_sextets(bytes, (groups - 1) as nat);
    }
}

/// The bytes of the groups of values depend on the values of those groups alone.
proof fn lemma_group_bytes_prefix(values: Seq<u8>, more: Seq<u8>, groups: nat)
    requires
        groups * 4 <= values.len(),
    ensures
        group_bytes(values + more, groups) == group_bytes(values, groups),
    decreases groups,
{
    if groups > 0 {
        lemma_group_bytes_prefix(values, more, (groups - 1) as nat);
    }
}

/// The six-bit values of the groups of a text depend on the bytes of those groups alone.
proof fn lemma_group_sextets_prefix(bytes: Seq<u8>, groups: nat, fewer: nat)
    requires
        fewer <= groups,
        groups * 3 <= bytes.len(),
    ensures
        group_sextets(bytes, fewer) == group_sextets(bytes, groups).take(fewer as int * 4),
    decreases groups,
{
    lemma_group_sextets(bytes, groups);
    lemma_group_sextets(bytes, fewer);
    if fewer < groups {
        lemma_group_sextets_prefix(bytes, (groups - 1) as nat, fewer);
        lemma_group_sextets(bytes, (groups - 1) as nat);
        assert(group_sextets(bytes, groups).take(fewer as int * 4) =~= group_sextets(
            bytes,
            (groups - 1) as nat,
        ).take(fewer as int * 4));
    } else {
        assert(group_sextets(bytes, groups).take(fewer as int * 4) =~= group_sextets(
            bytes,
            groups,
        ));
    }
}

/// Cutting the groups of a text into six-bit values and joining them again gives the bytes
/// of those groups back.
proof fn lemma_groups_round_trip(bytes: Seq<u8>, groups: nat)
    requires
        groups * 3 <= bytes.len(),
    ensures
        group_bytes(group_sextets(bytes, groups), groups) == bytes.take(groups as int * 3),
    decreases groups,
{
    if groups == 0 {
        assert(bytes.take(0) =~= Seq::<u8>::empty());
    } else {
        let fewer = (groups - 1) as nat;
        let all = group_sextets(bytes, groups);
        let i = fewer as int * 3;
        let j = fewer as int * 4;
        let four = sextets_of(bytes[i], bytes[i + 1], bytes[i + 2]);
        lemma_groups_round_trip(bytes, fewer);
        lemma_group_sextets(bytes, fewer);
        lemma_group_bytes_prefix(group_sextets(bytes, fewer), four, fewer);
        assert(all[j] == four[0]);
        assert(all[j + 1] == four[1]);
        assert(all[j + 2] == four[2]);
        assert(all[j + 3] == four[3]);
        assert(bytes_of(four[0], four[1], four[2], four[3]) =~= seq![
            bytes[i],
            bytes[i + 1],
            bytes[i + 2],
        ]);
        assert(bytes.take(groups as int * 3) =~= bytes.take(i) + seq![
            bytes[i],
            bytes[i + 1],
            bytes[i + 2],
        ]);
    }
}

/// The six-bit values behind the last full group, without the filling.
spec fn tail_values(bytes: Seq<u8>) -> Seq<u8> {
    let n = bytes.len() as int;
    if n % 3 == 1 {
        tail_sextets(bytes).take(2)
    } else if n % 3 == 2 {
        tail_sextets(bytes).take(3)
    } else {
        Seq::empty()
    }
}

/// The filling behind the last values.
spec fn tail_fill(bytes: Seq<u8>) -> Seq<u8> {
    let n = bytes.len() as int;
    if n % 3 == 1 {
        seq![PAD, PAD]
    } else if n % 3 == 2 {
        seq![PAD]
    } else {
        Seq::empty()
    }
}

/// A text of nothing but `=` holds no value, and as many `=` as it is long.
proof fn lemma_fill(bytes: Seq<u8>)
    ensures
        values_in(tail_fill(bytes).map_values(|v: u8| symbol(v))) == Seq::<u8>::empty(),
        padding_in(tail_fill(bytes).map_values(|v: u8| symbol(v))) == tail_fill(bytes).len(),
{
    reveal_with_fuel(values_in, 3);
    reveal_with_fuel(padding_in, 3);
    let filled = tail_fill(bytes).map_values(|v: u8| symbol(v));
    if filled.len() == 2 {
        assert(filled.drop_last().drop_last() =~= Seq::<u8>::empty());
        assert(filled.last() == EQUALS);
        assert(filled.drop_last().last() == EQUALS);
    } else if filled.len() == 1 {
        assert(filled.drop_last() =~= Seq::<u8>::empty());
        assert(filled.last() == EQUALS);
    }
}

/// The values and the filling that the Base64 text of `bytes` holds.
proof fn lemma_values_of_encoded(bytes: Seq<u8>)
    ensures
        values_in(encoded(bytes)) == group_sextets(bytes, bytes.len() / 3) + tail_values(bytes),
        padding_in(encoded(bytes)) == tail_fill(bytes).len(),
{
    let groups = bytes.len() / 3;
    let front = group_sextets(bytes, groups);
    let kept = tail_values(bytes);
    let fill = tail_fill(bytes);
    let to_symbol = |v: u8| symbol(v);
    lemma_group_sextets(bytes, groups);
    assert(tail_sextets(bytes) =~= kept + fill);
    assert(encoded(bytes) =~= (front.map_values(to_symbol) + kept.map_values(to_symbol))
        + fill.map_values(to_symbol));
    lemma_values_concat(front.map_values(to_symbol), kept.map_values(to_symbol));
    lemma_values_concat(
        front.map_values(to_symbol) + kept.map_values(to_symbol),
        fill.map_values(to_symbol),
    );
    lemma_values_of_symbols(front);
    lemma_values_of_symbols(kept);
    lemma_fill(bytes);
    assert((front + kept) + Seq::<u8>::empty() =~= front + kept);
}

/// The last values of a text give the bytes behind its last full group back.
proof fn lemma_tail_round_trip(bytes: Seq<u8>)
    ensures
        tail_bytes(
            group_sextets(bytes, bytes.len() / 3) + tail_values(bytes),
            tail_fill(bytes).len(),
        ) == bytes.skip((bytes.len() as int / 3) * 3),
{
    let n = bytes.len() as int;
    let groups = bytes.len() / 3;
    let front = group_sextets(bytes, groups);
    let kept = tail_values(bytes);
    let values = front + kept;
    let done = (n / 3) * 3;
    lemma_group_sextets(bytes, groups);
    if n % 3 == 1 {
        assert(values[values.len() - 2] == kept[0]);
        assert(values[values.len() - 1] == kept[1]);
        assert(tail_bytes(values, 2) =~= seq![bytes[n - 1]]);
        assert(bytes.skip(done) =~= seq![bytes[n - 1]]);
    } else if n % 3 == 2 {
        assert(values[values.len() - 3] == kept[0]);
        assert(values[values.len() - 2] == kept[1]);
        assert(values[values.len() - 1] == kept[2]);
        assert(tail_bytes(values, 1) =~= seq![bytes[n - 2], bytes[n - 1]]);
        assert(bytes.skip(done) =~= seq![bytes[n - 2], bytes[n - 1]]);
    } else {
        assert(bytes.skip(done) =~= Seq::<u8>::empty());
    }
}

impl Base64Encoder {
    /// What was encoded can be decoded, and gives the bytes back.
    pub proof fn lemma_round_trip(bytes: Seq<u8>)
        ensures
            decodable(encoded(bytes)),
            decoded(encoded(bytes)) == bytes,
    {
        let n = bytes.len() as int;
        let groups = bytes.len() / 3;
        let front = group_sextets(bytes, groups);
        let kept = tail_values(bytes);
        lemma_values_of_encoded(bytes);
        lemma_tail_round_trip(bytes);
        lemma_group_sextets(bytes, groups);
        lemma_groups_round_trip(bytes, groups);
        lemma_group_bytes_prefix(front, kept, groups);
        assert((front + kept).len() / 4 == groups);
        assert(bytes =~= bytes.take(groups as int * 3) + bytes.skip((n / 3) * 3));
    }
}

} // verus!
