//! A reversible string obfuscator: every character of the input is wrapped
//! between two randomly chosen symbols from a fixed three-symbol alphabet.

use vstd::prelude::*;
use rand::Rng;
use crate::text::push_char;
use crate::text::str_chars;

verus! {

/// One of the three symbols that may surround an original character.
pub open spec fn is_obfuscation_symbol(c: char) -> bool {
    c == '?' || c == '*' || c == '\\'
}

/// `o` is an obfuscation of `s`: one triple (symbol, original character,
/// symbol) per character of `s`, in order.
pub open spec fn is_obfuscation_of(o: Seq<char>, s: Seq<char>) -> bool {
    &&& o.len() == 3 * s.len()
    &&& forall|i: int|
        0 <= i < s.len() ==> {
            &&& o[3 * i + 1] == #[trigger] s[i]
            &&& is_obfuscation_symbol(o[3 * i])
            &&& is_obfuscation_symbol(o[3 * i + 2])
        }
}

/// The middle character of each complete triple of `o`; a trailing group of
/// fewer than three characters contributes nothing.
pub open spec fn deobfuscation_of(o: Seq<char>) -> Seq<char> {
    Seq::new(o.len() / 3, |i: int| o[3 * i + 1])
}

/// Law: deobfuscating any obfuscation of `s` gives back exactly `s`,
/// whatever symbols the obfuscation chose.
pub proof fn lemma_deobfuscate_obfuscate(o: Seq<char>, s: Seq<char>)
    requires
        is_obfuscation_of(o, s),
    ensures
        deobfuscation_of(o) == s,
{
    assert(o.len() / 3 == s.len()) by (nonlinear_arith)
        requires
            o.len() == 3 * s.len(),
    ;
    assert(deobfuscation_of(o) =~= s);
}

/// Relies on `rand::thread_rng` and `rand::Rng::gen_range`, which returns a
/// uniformly distributed value inside the given half-open range, so the
/// result is always below 3.
#[verifier::external_body]
fn random_index_of_three() -> (i: usize)
    ensures
        i < 3,
{
    rand::thread_rng().gen_range(0..3usize)
}

/// The obfuscation symbol at a given index of the three-symbol alphabet.
fn obfuscation_symbol(i: usize) -> (c: char)
    requires
        i < 3,
    ensures
        is_obfuscation_symbol(c),
{
    if i == 0 {
        '?'
    } else if i == 1 {
        '*'
    } else {
        '\\'
    }
}

/// Wraps every character of the input between two randomly chosen symbols
/// from the alphabet `{'?', '*', '\\'}`. The output is three times as long
/// as the input, and the middle character of each triple is the original.
pub fn obfuscate_string(input_string: &str) -> (obfuscated: String)
    ensures
        is_obfuscation_of(obfuscated@, input_string@),
{
    let chars = str_chars(input_string);
    let mut obfuscated = String::new();
    let mut i: usize = 0;
    while i < chars.len()
        invariant
            i <= chars@.len(),
            chars@ == input_string@,
            is_obfuscation_of(obfuscated@, chars@.take(i as int)),
        decreases chars@.len() - i,
    {
        let ghost before = obfuscated@;
        let prefix = obfuscation_symbol(random_index_of_three());
        let suffix = obfuscation_symbol(random_index_of_three());
        push_char(&mut obfuscated, prefix);
        push_char(&mut obfuscated, chars[i]);
        push_char(&mut obfuscated, suffix);
        proof {
            let after = obfuscated@;
            let s1 = chars@.take(i + 1 as int);
            assert(after.len() == 3 * s1.len());
            assert forall|j: int| 0 <= j < s1.len() implies {
                &&& after[3 * j + 1] == #[trigger] s1[j]
                &&& is_obfuscation_symbol(after[3 * j])
                &&& is_obfuscation_symbol(after[3 * j + 2])
            } by {
                if j < i {
                    assert(before[3 * j + 1] == chars@.take(i as int)[j]);
                    assert(after[3 * j] == before[3 * j]);
                    assert(after[3 * j + 1] == before[3 * j + 1]);
                    assert(after[3 * j + 2] == before[3 * j + 2]);
                } else {
                    assert(after[3 * j] == prefix);
                    assert(after[3 * j + 1] == chars@[i as int]);
                    assert(after[3 * j + 2] == suffix);
                }
            }
        }
        i += 1;
    }
    proof {
        assert(chars@.take(chars@.len() as int) =~= input_string@);
    }
    obfuscated
}

/// Reads the input in consecutive groups of three characters and keeps the
/// middle character of each complete group; the surrounding symbols are
/// discarded without validation, and a trailing group of fewer than three
/// characters is dropped.
pub fn deobfuscate_string(obfuscated_string: &str) -> (deobfuscated: String)
    ensures
        deobfuscated@ == deobfuscation_of(obfuscated_string@),
{
    let chars = str_chars(obfuscated_string);
    let len = chars.len();
    let n = len / 3;
    let mut deobfuscated = String::new();
    let mut i: usize = 0;
    while i < n
        invariant
            i <= n,
            n == len / 3,
            len == chars@.len(),
            chars@ == obfuscated_string@,
            deobfuscated@.len() == i,
            forall|j: int| 0 <= j < i ==> deobfuscated@[j] == chars@[3 * j + 1],
        decreases n - i,
    {
        assert(3 * i + 1 < len) by (nonlinear_arith)
            requires
                i < n,
                n == len / 3,
        ;
        push_char(&mut deobfuscated, chars[3 * i + 1]);
        i += 1;
    }
    proof {
        assert(deobfuscated@ =~= deobfuscation_of(obfuscated_string@));
    }
    deobfuscated
}

} // verus!
