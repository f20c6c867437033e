use stegotext::obfuscation::deobfuscate_string;
use stegotext::obfuscation::obfuscate_string;

#[test]
fn round_trip_sample() {
    let s = "env:TestVariable123!";
    assert_eq!(deobfuscate_string(&obfuscate_string(s)), s);
}

#[test]
fn round_trip_unicode() {
    let s = "héllo wörld λ";
    assert_eq!(deobfuscate_string(&obfuscate_string(s)), s);
}

#[test]
fn obfuscate_empty() {
    assert_eq!(obfuscate_string(""), "");
    assert_eq!(deobfuscate_string(""), "");
}

#[test]
fn obfuscate_length_and_middles() {
    let o = obfuscate_string("abc");
    let chars: Vec<char> = o.chars().collect();
    assert_eq!(chars.len(), 9);
    assert_eq!(chars[1], 'a');
    assert_eq!(chars[4], 'b');
    assert_eq!(chars[7], 'c');
}

#[test]
fn obfuscate_uses_only_the_three_symbols() {
    let o = obfuscate_string("some input 123");
    for (i, c) in o.chars().enumerate() {
        if i % 3 != 1 {
            assert!(c == '?' || c == '*' || c == '\\');
        }
    }
}

#[test]
fn deobfuscate_ignores_wrapper_values() {
    assert_eq!(deobfuscate_string("xyzXYZ"), "yY");
}

#[test]
fn deobfuscate_drops_trailing_group() {
    assert_eq!(deobfuscate_string("abcde"), "b");
    assert_eq!(deobfuscate_string("ab"), "");
    assert_eq!(deobfuscate_string("a"), "");
}
