use r7z::method::all_methods;
use r7z::{method_from_id, method_from_name, SevenZMethod};

#[test]
fn every_method_is_found_by_its_own_name() {
    for m in all_methods() {
        assert_eq!(method_from_name(m.name()), Some(m), "{}", m.name());
    }
    assert_eq!(method_from_name("lzma-2"), Some(SevenZMethod::Lzma2));
    assert_eq!(method_from_name("Deflate 64"), Some(SevenZMethod::Deflate64));
    assert_eq!(method_from_name("7ZAES"), Some(SevenZMethod::SevenZAes));
    assert_eq!(method_from_name(""), None);
}

#[test]
fn every_method_is_found_by_its_identifier_but_flzma2_reads_as_lzma2() {
    for m in all_methods() {
        let expected = if m == SevenZMethod::FastLzma2 { SevenZMethod::Lzma2 } else { m };
        assert_eq!(method_from_id(&m.id()), Some(expected), "{}", m.name());
    }
}

#[test]
fn method_identifiers_differ_except_for_the_two_lzma2_encoders() {
    let all = all_methods();
    for (i, a) in all.iter().enumerate() {
        for b in all.iter().skip(i + 1) {
            let lzma2_pair = matches!(
                (a, b),
                (SevenZMethod::Lzma2, SevenZMethod::FastLzma2) | (SevenZMethod::FastLzma2, SevenZMethod::Lzma2)
            );
            assert_eq!(a.id() == b.id(), lzma2_pair, "{} {}", a.name(), b.name());
        }
    }
}
