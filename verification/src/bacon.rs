//! A Bacon-cipher steganographic codec: a message is turned into a bit
//! sequence (a 16-bit big-endian length header followed by five bits per
//! ASCII letter of the message), and the bits are hidden in a cover text by
//! setting the case of its ASCII letters (uppercase carries 1, lowercase 0).

use vstd::prelude::*;
use vstd::arithmetic::power2::pow2;
use vstd::arithmetic::power2::lemma_pow2_unfold;
use vstd::arithmetic::power2::lemma_pow2_pos;
use vstd::arithmetic::power2::lemma2_to64;
use vstd::arithmetic::div_mod::lemma_fundamental_div_mod;
use vstd::arithmetic::div_mod::lemma_div_denominator;
use crate::text::is_upper;
use crate::text::is_lower;
use crate::text::is_letter;
use crate::text::to_upper;
use crate::text::to_lower;
use crate::text::char_is_letter;
use crate::text::char_is_upper;
use crate::text::char_to_upper;
use crate::text::char_to_lower;
use crate::text::push_char;
use crate::text::str_chars;

verus! {

/// A payload bit: 0 or 1.
pub open spec fn is_bit(b: u8) -> bool {
    b == 0 || b == 1
}

/// Every element of the sequence is 0 or 1.
pub open spec fn all_bits(s: Seq<u8>) -> bool {
    forall|i: int| 0 <= i < s.len() ==> is_bit(#[trigger] s[i])
}

/// The value of a bit sequence read in big-endian order.
pub open spec fn bits_to_nat(s: Seq<u8>) -> nat
    decreases s.len(),
{
    if s.len() == 0 {
        0
    } else {
        2 * bits_to_nat(s.drop_last()) + s.last() as nat
    }
}

/// The big-endian bit sequence of a value, over a given number of bits.
pub open spec fn nat_to_bits(n: nat, width: nat) -> Seq<u8> {
    Seq::new(width, |i: int| ((n / pow2((width - 1 - i) as nat)) % 2) as u8)
}

pub proof fn lemma_nat_to_bits_all_bits(n: nat, width: nat)
    ensures
        all_bits(nat_to_bits(n, width)),
        nat_to_bits(n, width).len() == width,
{
}

/// The value of a bit sequence is bounded by the power of two of its length.
pub proof fn lemma_bits_to_nat_bound(s: Seq<u8>)
    requires
        all_bits(s),
    ensures
        bits_to_nat(s) < pow2(s.len()),
    decreases s.len(),
{
    if s.len() == 0 {
        lemma2_to64();
    } else {
        lemma_bits_to_nat_bound(s.drop_last());
        lemma_pow2_unfold(s.len());
    }
}

/// Law: reading back the big-endian bits of a value gives the value, for
/// any value that fits in the given width.
pub proof fn lemma_bits_of_nat_round_trip(n: nat, width: nat)
    requires
        n < pow2(width),
    ensures
        bits_to_nat(nat_to_bits(n, width)) == n,
    decreases width,
{
    if width == 0 {
        lemma2_to64();
        assert(nat_to_bits(n, 0) =~= Seq::<u8>::empty());
    } else {
        let s = nat_to_bits(n, width);
        let s0 = nat_to_bits(n / 2, (width - 1) as nat);
        assert(s.drop_last() =~= s0) by {
            assert forall|i: int| 0 <= i < width - 1 implies s.drop_last()[i] == s0[i] by {
                let e = (width - 2 - i) as nat;
                lemma_pow2_pos(e);
                lemma_pow2_unfold(e + 1);
                lemma_div_denominator(n as int, 2, pow2(e) as int);
                assert((n / 2) / pow2(e) == n / (2 * pow2(e)));
                assert(2 * pow2(e) == pow2(e + 1));
            }
        }
        assert(s.last() == (n % 2) as u8) by {
            lemma2_to64();
            assert(n / pow2(0) == n);
        }
        assert(n / 2 < pow2((width - 1) as nat)) by {
            lemma_pow2_unfold(width);
        }
        lemma_bits_of_nat_round_trip(n / 2, (width - 1) as nat);
        lemma_fundamental_div_mod(n as int, 2);
    }
}

/// The rank of an ASCII letter: 0 for `a`/`A` through 25 for `z`/`Z`.
pub open spec fn letter_rank(c: char) -> nat
    recommends
        is_letter(c),
{
    if is_upper(c) {
        (c as u32 - 65) as nat
    } else if is_lower(c) {
        (c as u32 - 97) as nat
    } else {
        0
    }
}

/// The five payload bits of an ASCII letter: its rank, big-endian.
pub open spec fn letter_bits(c: char) -> Seq<u8>
    recommends
        is_letter(c),
{
    nat_to_bits(letter_rank(c), 5)
}

/// The uppercase letter (or, for a five-bit value above 25, the character
/// just past `Z`) whose rank is the given value.
pub open spec fn rank_char(v: nat) -> char
    recommends
        v < 32,
{
    ((65 + v) as u8) as char
}

/// Law: the five payload bits of an uppercase letter decode back to it.
pub proof fn lemma_letter_bits_round_trip(c: char)
    requires
        is_upper(c),
    ensures
        rank_char(bits_to_nat(letter_bits(c))) == c,
{
    lemma2_to64();
    lemma_bits_of_nat_round_trip(letter_rank(c), 5);
}

/// The payload bits of a message: five bits per ASCII letter, in order;
/// characters that are not ASCII letters contribute nothing.
pub open spec fn payload_bits(msg: Seq<char>) -> Seq<u8>
    decreases msg.len(),
{
    if msg.len() == 0 {
        Seq::empty()
    } else {
        payload_bits(msg.drop_last()) + if is_letter(msg.last()) {
            letter_bits(msg.last())
        } else {
            Seq::empty()
        }
    }
}

/// The full bit sequence that encoding embeds: a 16-bit big-endian header
/// holding the message's character count, then the payload bits.
pub open spec fn message_bits(msg: Seq<char>) -> Seq<u8> {
    nat_to_bits(msg.len(), 16) + payload_bits(msg)
}

/// How many ASCII letters a text holds: its bit capacity.
pub open spec fn alpha_count(s: Seq<char>) -> nat
    decreases s.len(),
{
    if s.len() == 0 {
        0
    } else {
        alpha_count(s.drop_last()) + if is_letter(s.last()) {
            1nat
        } else {
            0
        }
    }
}

/// The bit carried by a character's case: 1 if uppercase, else 0.
pub open spec fn case_bit(c: char) -> u8 {
    if is_upper(c) {
        1
    } else {
        0
    }
}

/// The bits carried by the cases of a text's ASCII letters, in order.
pub open spec fn case_bits(s: Seq<char>) -> Seq<u8>
    decreases s.len(),
{
    if s.len() == 0 {
        Seq::empty()
    } else {
        case_bits(s.drop_last()) + if is_letter(s.last()) {
            seq![case_bit(s.last())]
        } else {
            Seq::empty()
        }
    }
}

/// A character with its case set to carry the given bit.
pub open spec fn cased(c: char, b: u8) -> char {
    if b == 1 {
        to_upper(c)
    } else {
        to_lower(c)
    }
}

/// The stego text: the cover with the case of its first `bits.len()` ASCII
/// letters set by the bits, later letters and every other character
/// unchanged.
pub open spec fn embedded(cover: Seq<char>, bits: Seq<u8>) -> Seq<char> {
    Seq::new(
        cover.len(),
        |i: int|
            {
                if is_letter(cover[i]) && alpha_count(cover.take(i)) < bits.len() {
                    cased(cover[i], bits[alpha_count(cover.take(i)) as int])
                } else {
                    cover[i]
                }
            },
    )
}

pub proof fn lemma_alpha_count_step(s: Seq<char>, i: int)
    requires
        0 <= i < s.len(),
    ensures
        alpha_count(s.take(i + 1)) == alpha_count(s.take(i)) + if is_letter(s[i]) {
            1nat
        } else {
            0
        },
{
    assert(s.take(i + 1).drop_last() =~= s.take(i));
    assert(s.take(i + 1).last() == s[i]);
}

pub proof fn lemma_case_bits_step(s: Seq<char>, i: int)
    requires
        0 <= i < s.len(),
    ensures
        case_bits(s.take(i + 1)) == case_bits(s.take(i)) + if is_letter(s[i]) {
            seq![case_bit(s[i])]
        } else {
            Seq::<u8>::empty()
        },
{
    assert(s.take(i + 1).drop_last() =~= s.take(i));
    assert(s.take(i + 1).last() == s[i]);
}

pub proof fn lemma_payload_bits_step(s: Seq<char>, i: int)
    requires
        0 <= i < s.len(),
    ensures
        payload_bits(s.take(i + 1)) == payload_bits(s.take(i)) + if is_letter(s[i]) {
            letter_bits(s[i])
        } else {
            Seq::<u8>::empty()
        },
{
    assert(s.take(i + 1).drop_last() =~= s.take(i));
    assert(s.take(i + 1).last() == s[i]);
}

/// The case bits of a text are bits, one per ASCII letter.
pub proof fn lemma_case_bits_are_bits(s: Seq<char>)
    ensures
        all_bits(case_bits(s)),
        case_bits(s).len() == alpha_count(s),
    decreases s.len(),
{
    if s.len() != 0 {
        lemma_case_bits_are_bits(s.drop_last());
    }
}

/// The 16-bit big-endian header prefix of a bit sequence; the whole
/// sequence where it is shorter than 16 bits.
pub open spec fn header_prefix(s: Seq<u8>) -> Seq<u8> {
    if s.len() <= 16 {
        s
    } else {
        s.take(16)
    }
}

/// The five payload bits of an ASCII letter, case-insensitively: its rank
/// (A = 0 through Z = 25) as a big-endian five-bit group. Any other
/// character has no encoding.
pub fn char_to_bits(c: char) -> (r: Option<[u8; 5]>)
    ensures
        r is Some <==> is_letter(c),
        r matches Some(bits) ==> bits@ == letter_bits(c),
{
    if !char_is_letter(c) {
        return None;
    }
    let u = c as u32;
    let idx: u32 = if u >= 97 {
        u - 97
    } else {
        u - 65
    };
    let mut bits: [u8; 5] = [0, 0, 0, 0, 0];
    let mut p: u32 = 16;
    let mut i: usize = 0;
    proof {
        lemma2_to64();
    }
    while i < 5
        invariant
            i <= 5,
            idx == letter_rank(c),
            idx < 26,
            i < 5 ==> p == pow2((4 - i) as nat),
            bits@.len() == 5,
            forall|j: int|
                0 <= j < i ==> bits@[j] == ((letter_rank(c) / pow2((4 - j) as nat)) % 2) as u8,
        decreases 5 - i,
    {
        proof {
            lemma_pow2_pos((4 - i) as nat);
        }
        bits[i] = ((idx / p) % 2) as u8;
        if i < 4 {
            proof {
                lemma_pow2_unfold((4 - i) as nat);
            }
            p = p / 2;
        }
        i += 1;
    }
    proof {
        lemma2_to64();
        assert(bits@ =~= letter_bits(c));
    }
    Some(bits)
}

/// The letter carried by a group of exactly five bits: the uppercase letter
/// of that rank (a value above 25 gives the character just past `Z`). Any
/// other group length has no letter.
pub fn bits_to_char(bits: &[u8]) -> (r: Option<char>)
    requires
        all_bits(bits@),
    ensures
        r is Some <==> bits@.len() == 5,
        r matches Some(c) ==> c == rank_char(bits_to_nat(bits@)),
{
    if bits.len() != 5 {
        return None;
    }
    let idx: u8 = 16 * bits[0] + 8 * bits[1] + 4 * bits[2] + 2 * bits[3] + bits[4];
    proof {
        let s = bits@;
        let s4 = s.drop_last();
        let s3 = s4.drop_last();
        let s2 = s3.drop_last();
        let s1 = s2.drop_last();
        let s0 = s1.drop_last();
        assert(s0 =~= Seq::<u8>::empty());
        assert(s1.last() == s[0] && s2.last() == s[1] && s3.last() == s[2] && s4.last() == s[3]
            && s.last() == s[4]);
        assert(bits_to_nat(s0) == 0);
        assert(bits_to_nat(s1) == s[0] as nat);
        assert(bits_to_nat(s2) == 2 * (s[0] as nat) + s[1] as nat);
        assert(bits_to_nat(s3) == 4 * (s[0] as nat) + 2 * (s[1] as nat) + s[2] as nat);
        assert(bits_to_nat(s4) == 8 * (s[0] as nat) + 4 * (s[1] as nat) + 2 * (s[2] as nat) + s[3]
            as nat);
        assert(bits_to_nat(s) == 16 * (s[0] as nat) + 8 * (s[1] as nat) + 4 * (s[2] as nat) + 2 * (
        s[3] as nat) + s[4] as nat);
    }
    Some((65 + idx) as char)
}

/// The 16 bits of a value, big-endian.
pub fn u16_to_bits(n: u16) -> (bits: [u8; 16])
    ensures
        bits@ == nat_to_bits(n as nat, 16),
        all_bits(bits@),
{
    let mut bits: [u8; 16] = [0, 0, 0, 0, 0, 0, 0, 0, 0, 0, 0, 0, 0, 0, 0, 0];
    let mut p: u16 = 32768;
    let mut i: usize = 0;
    proof {
        lemma2_to64();
    }
    while i < 16
        invariant
            i <= 16,
            i < 16 ==> p == pow2((15 - i) as nat),
            bits@.len() == 16,
            forall|j: int|
                0 <= j < i ==> bits@[j] == (((n as nat) / pow2((15 - j) as nat)) % 2) as u8,
        decreases 16 - i,
    {
        proof {
            lemma_pow2_pos((15 - i) as nat);
        }
        bits[i] = ((n / p) % 2) as u8;
        if i < 15 {
            proof {
                lemma_pow2_unfold((15 - i) as nat);
            }
            p = p / 2;
        }
        i += 1;
    }
    proof {
        assert(bits@ =~= nat_to_bits(n as nat, 16));
    }
    bits
}

/// The value of the first 16 bits of a sequence, big-endian; a shorter
/// sequence is read whole.
pub fn bits_to_u16(bits: &[u8]) -> (n: u16)
    requires
        all_bits(bits@),
    ensures
        n as nat == bits_to_nat(header_prefix(bits@)),
{
    let count: usize = if bits.len() < 16 {
        bits.len()
    } else {
        16
    };
    let mut n: u16 = 0;
    let mut i: usize = 0;
    while i < count
        invariant
            i <= count <= 16,
            count as int <= bits@.len(),
            all_bits(bits@),
            n as nat == bits_to_nat(bits@.take(i as int)),
        decreases count - i,
    {
        proof {
            lemma_bits_to_nat_bound(bits@.take(i as int));
            lemma_pow2_strictly_increases_or_eq(i as nat, 15);
            lemma2_to64();
            assert(bits@.take(i + 1 as int).drop_last() =~= bits@.take(i as int));
        }
        n = 2 * n + (bits[i] as u16);
        i += 1;
    }
    proof {
        if bits@.len() <= 16 {
            assert(bits@.take(count as int) =~= bits@);
        }
    }
    n
}

/// The cover text cannot carry the message: it has fewer ASCII letters
/// (`available`) than the bits the message needs (`required`).
#[derive(Clone, Copy, Debug, PartialEq, Eq, Structural)]
pub struct CapacityError {
    pub available: usize,
    pub required: usize,
}

/// Why a stego text could not be decoded.
#[derive(Clone, Copy, Debug, PartialEq, Eq, Structural)]
pub enum DecodeError {
    /// Fewer than the 16 bits needed for the length header are present.
    Header { available: usize },
    /// The header declares a length that needs more payload bits than the
    /// text carries.
    Payload { available: usize, required: usize },
}

/// How many ASCII letters are in the text.
fn count_letters(chars: &Vec<char>) -> (letters: usize)
    ensures
        letters as nat == alpha_count(chars@),
{
    let mut letters: usize = 0;
    let mut i: usize = 0;
    while i < chars.len()
        invariant
            i <= chars@.len(),
            letters <= i,
            letters as nat == alpha_count(chars@.take(i as int)),
        decreases chars@.len() - i,
    {
        proof {
            lemma_alpha_count_step(chars@, i as int);
        }
        if char_is_letter(chars[i]) {
            letters += 1;
        }
        i += 1;
    }
    proof {
        assert(chars@.take(chars@.len() as int) =~= chars@);
    }
    letters
}

/// Hides the message in the cover text's letter casing. The embedded bits
/// are a 16-bit big-endian header holding the message's character count,
/// then five bits for each ASCII letter of the message (other message
/// characters are silently dropped). Each ASCII letter of the cover carries
/// one bit as its case; once the bits run out, and on every non-letter,
/// the cover passes through unchanged. A cover with fewer ASCII letters
/// than bits is rejected with the two counts, and nothing is truncated.
pub fn encode(msg: &str, cover: &str) -> (result: Result<String, CapacityError>)
    requires
        msg@.len() <= 65535,
    ensures
        match result {
            Ok(stego) => {
                &&& alpha_count(cover@) >= message_bits(msg@).len()
                &&& stego@ == embedded(cover@, message_bits(msg@))
            },
            Err(e) => {
                &&& e.available == alpha_count(cover@)
                &&& e.required == message_bits(msg@).len()
                &&& alpha_count(cover@) < message_bits(msg@).len()
            },
        },
{
    let msg_chars = str_chars(msg);
    let header = u16_to_bits(msg_chars.len() as u16);
    let mut bits: Vec<u8> = Vec::new();
    let mut i: usize = 0;
    while i < 16
        invariant
            i <= 16,
            header@ == nat_to_bits(msg@.len(), 16),
            bits@ == nat_to_bits(msg@.len(), 16).take(i as int),
        decreases 16 - i,
    {
        bits.push(header[i]);
        proof {
            assert(nat_to_bits(msg@.len(), 16).take(i + 1 as int) =~= nat_to_bits(
                msg@.len(),
                16,
            ).take(i as int).push(header@[i as int]));
        }
        i += 1;
    }
    proof {
        assert(nat_to_bits(msg@.len(), 16).take(16) =~= nat_to_bits(msg@.len(), 16));
        assert(payload_bits(msg@.take(0)) =~= Seq::<u8>::empty());
        assert(bits@ =~= nat_to_bits(msg@.len(), 16) + payload_bits(msg@.take(0)));
    }
    let mut i: usize = 0;
    while i < msg_chars.len()
        invariant
            i <= msg_chars@.len(),
            msg_chars@ == msg@,
            bits@ == nat_to_bits(msg@.len(), 16) + payload_bits(msg@.take(i as int)),
        decreases msg_chars@.len() - i,
    {
        let ghost before = bits@;
        if let Some(code) = char_to_bits(msg_chars[i]) {
            let mut k: usize = 0;
            while k < 5
                invariant
                    k <= 5,
                    code@ == letter_bits(msg@[i as int]),
                    bits@ == before + code@.take(k as int),
                decreases 5 - k,
            {
                bits.push(code[k]);
                proof {
                    assert(code@.take(k + 1 as int) =~= code@.take(k as int).push(
                        code@[k as int],
                    ));
                    assert(before + code@.take(k + 1 as int) =~= (before + code@.take(
                        k as int,
                    )).push(code@[k as int]));
                }
                k += 1;
            }
            proof {
                assert(code@.take(5) =~= code@);
            }
        }
        proof {
            lemma_payload_bits_step(msg@, i as int);
            if is_letter(msg@[i as int]) {
                assert(bits@ =~= nat_to_bits(msg@.len(), 16) + payload_bits(
                    msg@.take(i + 1 as int),
                ));
            } else {
                assert(payload_bits(msg@.take(i + 1 as int)) =~= payload_bits(
                    msg@.take(i as int),
                ));
            }
        }
        i += 1;
    }
    proof {
        assert(msg@.take(msg@.len() as int) =~= msg@);
        assert(bits@ == message_bits(msg@));
    }
    let cover_chars = str_chars(cover);
    let letters = count_letters(&cover_chars);
    if letters < bits.len() {
        return Err(CapacityError { available: letters, required: bits.len() });
    }
    let mut stego = String::new();
    let mut used: usize = 0;
    let mut i: usize = 0;
    while i < cover_chars.len()
        invariant
            i <= cover_chars@.len(),
            cover_chars@ == cover@,
            used <= bits@.len(),
            used as nat == if alpha_count(cover@.take(i as int)) <= bits@.len() {
                alpha_count(cover@.take(i as int))
            } else {
                bits@.len()
            },
            stego@.len() == i,
            forall|j: int| 0 <= j < i ==> stego@[j] == embedded(cover@, bits@)[j],
        decreases cover_chars@.len() - i,
    {
        let c = cover_chars[i];
        if char_is_letter(c) {
            if used < bits.len() {
                let b = bits[used];
                let d = if b == 1 {
                    char_to_upper(c)
                } else {
                    char_to_lower(c)
                };
                push_char(&mut stego, d);
                used += 1;
            } else {
                push_char(&mut stego, c);
            }
        } else {
            push_char(&mut stego, c);
        }
        proof {
            lemma_alpha_count_step(cover@, i as int);
        }
        i += 1;
    }
    proof {
        assert(cover@.take(cover@.len() as int) =~= cover@);
        assert(stego@ =~= embedded(cover@, bits@));
    }
    Ok(stego)
}

/// Reads the message hidden in a stego text's letter casing: the cases of
/// its ASCII letters give the bits; the first 16 bits are the message
/// length, and each following group of five bits is one uppercase letter.
/// A text with fewer than 16 bits is rejected with a header error; one
/// whose header needs more payload bits than are present, with a payload
/// error carrying both counts.
pub fn decode(stego: &str) -> (result: Result<String, DecodeError>)
    ensures
        ({
            let bits = case_bits(stego@);
            match result {
                Ok(msg) => {
                    &&& bits.len() >= 16
                    &&& 16 + 5 * header_value(bits) <= bits.len()
                    &&& msg@ == decoded_message(bits)
                },
                Err(DecodeError::Header { available }) => {
                    &&& bits.len() < 16
                    &&& available == bits.len()
                },
                Err(DecodeError::Payload { available, required }) => {
                    &&& bits.len() >= 16
                    &&& required == 16 + 5 * header_value(bits)
                    &&& available == bits.len()
                    &&& bits.len() < required
                },
            }
        }),
{
    let chars = str_chars(stego);
    let mut bits: Vec<u8> = Vec::new();
    let mut i: usize = 0;
    while i < chars.len()
        invariant
            i <= chars@.len(),
            chars@ == stego@,
            bits@ == case_bits(stego@.take(i as int)),
            all_bits(bits@),
        decreases chars@.len() - i,
    {
        let c = chars[i];
        if char_is_letter(c) {
            if char_is_upper(c) {
                bits.push(1);
            } else {
                bits.push(0);
            }
        }
        proof {
            lemma_case_bits_step(stego@, i as int);
            if is_letter(stego@[i as int]) {
                assert(case_bits(stego@.take(i + 1 as int)) =~= case_bits(
                    stego@.take(i as int),
                ).push(case_bit(stego@[i as int])));
            } else {
                assert(case_bits(stego@.take(i + 1 as int)) =~= case_bits(
                    stego@.take(i as int),
                ));
            }
        }
        i += 1;
    }
    proof {
        assert(stego@.take(stego@.len() as int) =~= stego@);
    }
    if bits.len() < 16 {
        return Err(DecodeError::Header { available: bits.len() });
    }
    let header = bits_to_u16(bits.as_slice());
    let msg_len = header as usize;
    proof {
        assert(header_prefix(bits@) =~= bits@.take(16));
    }
    let required = 16 + 5 * msg_len;
    if bits.len() < required {
        return Err(DecodeError::Payload { available: bits.len(), required });
    }
    let bits_len = bits.len();
    let mut msg = String::new();
    let mut k: usize = 0;
    while k < msg_len
        invariant
            k <= msg_len,
            msg_len == header_value(case_bits(stego@)),
            16 + 5 * msg_len <= bits_len,
            bits_len == bits@.len(),
            bits@ == case_bits(stego@),
            all_bits(bits@),
            msg@.len() == k,
            forall|j: int|
                0 <= j < k ==> msg@[j] == rank_char(
                    bits_to_nat(bits@.subrange(16 + 5 * j, 16 + 5 * j + 5)),
                ),
        decreases msg_len - k,
    {
        let start = 16 + 5 * k;
        let chunk = vstd::slice::slice_subrange(bits.as_slice(), start, start + 5);
        let oc = bits_to_char(chunk);
        if let Some(ch) = oc {
            push_char(&mut msg, ch);
        } else {
            proof {
                assert(false);
            }
        }
        k += 1;
    }
    proof {
        assert(msg@ =~= decoded_message(case_bits(stego@)));
    }
    Ok(msg)
}

/// The big-endian value of the first 16 bits of a sequence.
pub open spec fn header_value(bits: Seq<u8>) -> nat {
    bits_to_nat(bits.take(16))
}

/// The message a bit sequence holds: as many letters as the header
/// declares, one per five-bit payload group.
pub open spec fn decoded_message(bits: Seq<u8>) -> Seq<char> {
    Seq::new(
        header_value(bits),
        |i: int| rank_char(bits_to_nat(bits.subrange(16 + 5 * i, 16 + 5 * i + 5))),
    )
}

/// Every payload bit of any message is 0 or 1.
pub proof fn lemma_payload_bits_are_bits(msg: Seq<char>)
    ensures
        all_bits(payload_bits(msg)),
    decreases msg.len(),
{
    if msg.len() != 0 {
        lemma_payload_bits_are_bits(msg.drop_last());
    }
}

/// For a message of ASCII letters only, the payload is exactly five bits
/// per character, and each five-bit group is that character's encoding.
pub proof fn lemma_payload_bits_all_letters(msg: Seq<char>)
    requires
        forall|i: int| 0 <= i < msg.len() ==> is_letter(#[trigger] msg[i]),
    ensures
        payload_bits(msg).len() == 5 * msg.len(),
        forall|i: int|
            0 <= i < msg.len() ==> payload_bits(msg).subrange(5 * i, 5 * i + 5) == letter_bits(
                #[trigger] msg[i],
            ),
    decreases msg.len(),
{
    if msg.len() != 0 {
        let prefix = msg.drop_last();
        lemma_payload_bits_all_letters(prefix);
        let p = payload_bits(msg);
        let p1 = payload_bits(prefix);
        assert(p == p1 + letter_bits(msg.last()));
        assert forall|i: int| 0 <= i < msg.len() implies p.subrange(5 * i, 5 * i + 5)
            == letter_bits(#[trigger] msg[i]) by {
            if i < msg.len() - 1 {
                assert(prefix[i] == msg[i]);
                assert(p.subrange(5 * i, 5 * i + 5) =~= p1.subrange(5 * i, 5 * i + 5));
            } else {
                assert(msg.last() == msg[i]);
                assert(p.subrange(5 * i, 5 * i + 5) =~= letter_bits(msg[i]));
            }
        }
    }
}

/// The full embedded bit sequence of a message of ASCII letters only:
/// 16 header bits then five per character, all of them bits, opening with
/// the big-endian character count.
pub proof fn lemma_message_bits_all_letters(msg: Seq<char>)
    requires
        forall|i: int| 0 <= i < msg.len() ==> is_letter(#[trigger] msg[i]),
    ensures
        message_bits(msg).len() == 16 + 5 * msg.len(),
        all_bits(message_bits(msg)),
        message_bits(msg).take(16) == nat_to_bits(msg.len(), 16),
        forall|i: int|
            0 <= i < msg.len() ==> message_bits(msg).subrange(16 + 5 * i, 16 + 5 * i + 5)
                == letter_bits(#[trigger] msg[i]),
{
    lemma_payload_bits_all_letters(msg);
    lemma_payload_bits_are_bits(msg);
    lemma_nat_to_bits_all_bits(msg.len(), 16);
    let mb = message_bits(msg);
    assert(mb.take(16) =~= nat_to_bits(msg.len(), 16));
    assert forall|i: int| 0 <= i < msg.len() implies mb.subrange(16 + 5 * i, 16 + 5 * i + 5)
        == letter_bits(#[trigger] msg[i]) by {
        assert(mb.subrange(16 + 5 * i, 16 + 5 * i + 5) =~= payload_bits(msg).subrange(
            5 * i,
            5 * i + 5,
        ));
    }
}

/// The case bits read back from a stego text: one per ASCII letter of the
/// cover, and the first `bits.len()` of them are exactly the embedded bits.
pub proof fn lemma_embedded_case_bits(cover: Seq<char>, bits: Seq<u8>)
    requires
        all_bits(bits),
    ensures
        case_bits(embedded(cover, bits)).len() == alpha_count(cover),
        forall|k: int|
            0 <= k < bits.len() && k < alpha_count(cover) ==> #[trigger] case_bits(
                embedded(cover, bits),
            )[k] == bits[k],
    decreases cover.len(),
{
    if cover.len() == 0 {
        assert(embedded(cover, bits) =~= Seq::<char>::empty());
    } else {
        let cover1 = cover.drop_last();
        lemma_embedded_case_bits(cover1, bits);
        let e = embedded(cover, bits);
        let e1 = embedded(cover1, bits);
        assert(cover.take(cover.len() - 1) =~= cover1);
        assert(e.drop_last() =~= e1) by {
            assert forall|i: int| 0 <= i < cover.len() - 1 implies e.drop_last()[i] == e1[i] by {
                assert(cover.take(i) =~= cover1.take(i));
            }
        }
        let c = cover.last();
        let j = alpha_count(cover1);
        lemma_case_bits_are_bits(e1);
        if is_letter(c) {
            if j < bits.len() {
                assert(e.last() == cased(c, bits[j as int]));
                if bits[j as int] == 1 {
                    crate::text::lemma_to_upper_is_upper(c);
                } else {
                    crate::text::lemma_to_lower_is_lower(c);
                }
                assert(is_letter(e.last()) && case_bit(e.last()) == bits[j as int]);
            } else {
                assert(e.last() == c);
            }
            assert(case_bits(e) == case_bits(e1) + seq![case_bit(e.last())]);
        } else {
            assert(e.last() == c);
            assert(case_bits(e) == case_bits(e1));
        }
    }
}

/// Law: decoding an encoded stego text yields exactly the message, for any
/// message of uppercase ASCII letters that fits the cover's bit capacity.
pub proof fn lemma_encode_decode_round_trip(msg: Seq<char>, cover: Seq<char>)
    requires
        forall|i: int| 0 <= i < msg.len() ==> is_upper(#[trigger] msg[i]),
        msg.len() <= 65535,
        alpha_count(cover) >= 16 + 5 * msg.len(),
    ensures
        ({
            let bits = case_bits(embedded(cover, message_bits(msg)));
            &&& bits.len() >= 16
            &&& header_value(bits) == msg.len()
            &&& 16 + 5 * header_value(bits) <= bits.len()
            &&& decoded_message(bits) == msg
        }),
{
    let mb = message_bits(msg);
    lemma_message_bits_all_letters(msg);
    lemma_embedded_case_bits(cover, mb);
    let bits = case_bits(embedded(cover, mb));
    assert(bits.take(16) =~= nat_to_bits(msg.len(), 16)) by {
        assert forall|k: int| 0 <= k < 16 implies bits.take(16)[k] == nat_to_bits(
            msg.len(),
            16,
        )[k] by {
            assert(bits[k] == mb[k]);
            assert(mb[k] == mb.take(16)[k]);
        }
    }
    lemma2_to64();
    lemma_bits_of_nat_round_trip(msg.len(), 16);
    assert(header_value(bits) == msg.len());
    assert(decoded_message(bits) =~= msg) by {
        assert forall|i: int| 0 <= i < msg.len() implies decoded_message(bits)[i] == msg[i] by {
            let lo = 16 + 5 * i;
            assert(bits.subrange(lo, lo + 5) =~= mb.subrange(lo, lo + 5)) by {
                assert forall|k: int| lo <= k < lo + 5 implies bits[k] == mb[k] by {
                    assert(0 <= k < mb.len() && k < alpha_count(cover));
                }
            }
            assert(mb.subrange(lo, lo + 5) == letter_bits(msg[i]));
            lemma_letter_bits_round_trip(msg[i]);
        }
    }
}

/// `pow2` does not decrease from one exponent to a higher or equal one.
proof fn lemma_pow2_strictly_increases_or_eq(e1: nat, e2: nat)
    requires
        e1 <= e2,
    ensures
        pow2(e1) <= pow2(e2),
{
    if e1 < e2 {
        vstd::arithmetic::power2::lemma_pow2_strictly_increases(e1, e2);
    }
}

} // verus!
