use libcrawl::lang::{build_langdetector, has_language, lang_builder, Lang};

const ENGLISH: &str = "The quick brown fox jumps over the lazy dog and keeps on running \
                       through the quiet green fields until the evening comes.";
const ARABIC: &str = "\u{0627}\u{0644}\u{0633}\u{0644}\u{0627}\u{0645} \u{0639}\u{0644}\u{064a}\u{0643}\u{0645} \
                      \u{0623}\u{0647}\u{0644}\u{0627} \u{0648}\u{0633}\u{0647}\u{0644}\u{0627} \u{0628}\u{0643}\u{0645} \
                      \u{0641}\u{064a} \u{0647}\u{0630}\u{0627} \u{0627}\u{0644}\u{0645}\u{0643}\u{0627}\u{0646}";

#[test]
fn code_table_maps_known_codes() {
    let langs = lang_builder(vec!["arabic", "en", "FR", "klingon", "Ar"]);
    assert_eq!(langs, vec![Lang::Ara, Lang::Eng, Lang::Fra, Lang::Ara]);
}

#[test]
fn code_table_drops_everything_unknown() {
    let langs = lang_builder(vec!["", "de", "german", "latin"]);
    assert!(langs.is_empty());
}

#[test]
fn empty_accept_list_rejects_everything() {
    let detector = build_langdetector(vec!["arabic", "english"]);
    assert!(!has_language(&detector, ENGLISH, &[]));
    assert!(!has_language(&detector, ARABIC, &[]));
}

#[test]
fn english_text_is_english() {
    let detector = build_langdetector(vec!["arabic", "english"]);
    assert!(has_language(&detector, ENGLISH, &[Lang::Eng]));
    assert!(!has_language(&detector, ENGLISH, &[Lang::Ara]));
}

#[test]
fn arabic_text_is_arabic() {
    let detector = build_langdetector(vec!["arabic", "english"]);
    assert!(has_language(&detector, ARABIC, &[Lang::Ara]));
}

#[test]
fn acceptance_is_monotone_in_the_accept_list() {
    let detector = build_langdetector(vec!["arabic", "english"]);
    assert!(has_language(&detector, ENGLISH, &[Lang::Eng]));
    assert!(has_language(&detector, ENGLISH, &[Lang::Eng, Lang::Ara]));
    assert!(has_language(&detector, ENGLISH, &[Lang::Ara, Lang::Eng, Lang::Fra]));
}
