use rime_word_counter::i18n::{classify, detect_language_from};
use rime_word_counter::Language;

#[test]
fn test_classify_simplified() {
    assert_eq!(classify("zh_CN.UTF-8"), Language::ZhCN);
    assert_eq!(classify("zh-Hans-CN"), Language::ZhCN);
    assert_eq!(classify("zh_SG.utf8"), Language::ZhCN);
    assert_eq!(classify("zh"), Language::ZhCN);
}

#[test]
fn test_classify_traditional() {
    assert_eq!(classify("zh_TW.UTF-8"), Language::ZhTW);
    assert_eq!(classify("zh_HK.UTF-8"), Language::ZhTW);
    assert_eq!(classify("zh-Hant-TW"), Language::ZhTW);
}

#[test]
fn test_classify_other_languages() {
    assert_eq!(classify("en_US.UTF-8"), Language::En);
    assert_eq!(classify("ja_JP.UTF-8"), Language::En);
    assert_eq!(classify("C"), Language::En);
    assert_eq!(classify(""), Language::En);
}

#[test]
fn test_language_codes_match_frontend_keys() {
    assert_eq!(Language::ZhCN.code(), "zh-CN");
    assert_eq!(Language::ZhTW.code(), "zh-TW");
    assert_eq!(Language::En.code(), "en");
}

#[test]
fn classify_is_case_insensitive_and_reads_macau() {
    assert_eq!(classify("ZH_MO.UTF-8"), Language::ZhTW);
    assert_eq!(classify("Zh_cn"), Language::ZhCN);
    assert_eq!(classify("en_TW"), Language::En);
}

#[test]
fn detect_takes_first_non_blank_value() {
    let values = vec![
        None,
        Some("   ".to_string()),
        Some("zh_TW.UTF-8".to_string()),
        Some("en_US.UTF-8".to_string()),
    ];
    assert_eq!(detect_language_from(&values), Language::ZhTW);
}

#[test]
fn detect_without_values_is_english() {
    assert_eq!(detect_language_from(&vec![None, None, Some(String::new()), None]), Language::En);
    assert_eq!(detect_language_from(&Vec::new()), Language::En);
}
