use rime_word_counter::paths::{
    cache_dir_under, db_path_in, default_db_path, default_log_path, dir_to_create,
    dir_to_create_given, get_cache_dir, log_path_in, DB_FILE_NAME, LOG_FILE_NAME,
};

#[test]
fn test_default_paths_point_into_cache_dir() {
    let cache = get_cache_dir();
    assert!(default_log_path().starts_with(&cache));
    assert!(default_db_path().starts_with(&cache));
    assert!(default_log_path().ends_with(LOG_FILE_NAME));
    assert!(default_db_path().ends_with(DB_FILE_NAME));
}

#[test]
fn test_ensure_parent_dir_skips_memory_and_bare_names() {
    assert_eq!(dir_to_create(":memory:"), None);
    assert_eq!(dir_to_create(""), None);
    assert_eq!(dir_to_create("stats.db"), None);
}

#[test]
fn nested_files_need_their_directory() {
    assert_eq!(dir_to_create("/tmp/a/b/stats.db"), Some("/tmp/a/b".to_string()));
    assert_eq!(dir_to_create("x/y.db"), Some("x".to_string()));
    assert_eq!(dir_to_create_given("x/y.db", Some(String::new())), None);
    assert_eq!(dir_to_create_given(":memory:", Some("z".to_string())), None);
}

#[test]
fn joining_adds_one_separator() {
    assert_eq!(cache_dir_under(Some("/home/u/.cache".to_string()), '/'), "/home/u/.cache/rime-word-counter");
    assert_eq!(cache_dir_under(Some("/home/u/.cache/".to_string()), '/'), "/home/u/.cache/rime-word-counter");
    assert_eq!(cache_dir_under(None, '/'), "./rime-word-counter");
    assert_eq!(log_path_in("/c/rime-word-counter", '/'), "/c/rime-word-counter/rime_word.log");
    assert_eq!(db_path_in("", '/'), "rime_stats.db");
}
