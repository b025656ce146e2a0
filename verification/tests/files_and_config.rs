use code_optimizer::backend_log::backend_log_line;
use code_optimizer::checkpoint::{
    check_version, checkpoint_archive, checkpoint_dir, meta_path, now_timestamp_ms, thread_archive_path, thread_path,
    CHECKPOINT_VERSION,
};
use code_optimizer::config::{
    default_conflict_refresh_interval, default_conflict_sample_window, default_conflict_weight_by_freq,
    default_simple_assign_mode, default_simple_protect_top_n, fixed_core_len, get_fixed_simple_codes,
    get_simple_code_config, parse_rule_string, parse_simple_assign_mode, SimpleLevelConfig,
};
use code_optimizer::fsutil::{archive_target, with_timestamp_suffix};
use code_optimizer::types::SimpleAssignMode;

#[test]
fn test_parse_simple_assign_mode_valid() {
    assert_eq!(parse_simple_assign_mode("frequency"), SimpleAssignMode::Frequency);
    assert_eq!(parse_simple_assign_mode("efficiency"), SimpleAssignMode::Efficiency);
    assert_eq!(parse_simple_assign_mode("  Frequency  "), SimpleAssignMode::Frequency);
    assert_eq!(parse_simple_assign_mode("EFFICIENCY"), SimpleAssignMode::Efficiency);
}

#[test]
fn test_parse_simple_assign_mode_illegal_falls_back_to_efficiency() {
    assert_eq!(parse_simple_assign_mode("foo"), SimpleAssignMode::Efficiency);
    assert_eq!(parse_simple_assign_mode(""), SimpleAssignMode::Efficiency);
}

fn configured(level: usize, code_num: usize, rule: &str, space_commit: bool) -> SimpleLevelConfig {
    SimpleLevelConfig { level, code_num, rules: vec![rule.to_string()], space_commit }
}

#[test]
fn test_code_num_zero_level_kept_only_with_matching_fixed() {
    let levels = vec![
        configured(1, 0, "Aa", false),
        configured(2, 1, "AaBa", false),
        configured(3, 1, "AaBaCa", false),
    ];
    let levels_no_fixed = get_simple_code_config(&levels, &Vec::new(), 30).levels;
    assert!(levels_no_fixed.iter().all(|l| l.code_num > 0));

    let fixed = get_fixed_simple_codes(&vec![("不".to_string(), "a".to_string())]);
    let levels_fixed = get_simple_code_config(&levels, &fixed, 30).levels;
    assert!(levels_fixed.iter().any(|l| l.code_num == 0));
    assert_eq!(levels_fixed.len(), levels_no_fixed.len() + 1);
}

#[test]
fn levels_commit_with_the_space_key_where_configured() {
    let levels = vec![configured(1, 1, "Aa", true), configured(2, 1, "AaBb", false), configured(3, 1, "Aab", false)];
    let kept = get_simple_code_config(&levels, &Vec::new(), 30).levels;
    assert_eq!(kept.len(), 3);
    assert_eq!(kept[0].commit_keys, vec![30]);
    assert!(kept[0].has_commit());
    assert!(kept[1].commit_keys.is_empty());
    assert_eq!(kept[1].rule_candidates[0][1].code_selector, 'b');
    assert_eq!((kept[2].level, kept[2].code_num), (3, 1));
    assert!(kept[2].rule_candidates.is_empty());
}

#[test]
fn levels_that_give_out_codes_are_always_kept() {
    let bare = SimpleLevelConfig { level: 4, code_num: 5, rules: Vec::new(), space_commit: false };
    let silent = SimpleLevelConfig { level: 5, code_num: 0, rules: Vec::new(), space_commit: false };
    let kept = get_simple_code_config(&vec![bare, silent], &Vec::new(), 30).levels;
    assert_eq!(kept.len(), 1);
    assert_eq!((kept[0].level, kept[0].code_num), (4, 5));
    assert!(kept[0].rule_candidates.is_empty());
    let mixed = SimpleLevelConfig {
        level: 1,
        code_num: 2,
        rules: vec!["Aab".to_string(), "AaBb".to_string(), "".to_string(), "Cc".to_string()],
        space_commit: false,
    };
    let kept = get_simple_code_config(&vec![mixed], &Vec::new(), 30).levels;
    assert_eq!(kept[0].rule_candidates.iter().map(|r| r.len()).collect::<Vec<usize>>(), vec![2, 1]);
}

#[test]
fn rules_are_pairs_of_characters() {
    let steps = parse_rule_string(" AaBb ").unwrap();
    assert_eq!(steps.len(), 2);
    assert_eq!((steps[0].root_selector, steps[0].code_selector), ('A', 'a'));
    assert_eq!((steps[1].root_selector, steps[1].code_selector), ('B', 'b'));
    assert!(parse_rule_string("AaB").is_none());
    assert!(parse_rule_string("  ").is_none());
}

#[test]
fn fixed_codes_are_read_with_their_core_length() {
    assert_eq!(fixed_core_len("ab_"), 2);
    assert_eq!(fixed_core_len("a__"), 1);
    assert_eq!(fixed_core_len("_a"), 2);
    assert_eq!(fixed_core_len("___"), 0);
    let entries = vec![
        ("不是".to_string(), "ab".to_string()),
        (String::new(), "c".to_string()),
        ("x".to_string(), "_".to_string()),
    ];
    assert_eq!(get_fixed_simple_codes(&entries), vec![('不', "ab".to_string()), ('x', "_".to_string())]);
}

#[test]
fn defaults_are_the_documented_ones() {
    assert_eq!(default_simple_assign_mode(), "efficiency");
    assert_eq!(default_simple_protect_top_n(), 0);
    assert_eq!(default_conflict_refresh_interval(), 1000);
    assert_eq!(default_conflict_sample_window(), 20);
    assert!(!default_conflict_weight_by_freq());
}

#[test]
fn backend_log_line_content() {
    let dense = backend_log_line("全码桶", 1024, 40, 11177);
    assert!(dense.contains("Dense"));
    assert!(dense.contains("1024"));
    let sparse = backend_log_line("全码桶", 33_554_432, 40, 11177);
    assert!(sparse.contains("Sparse"));
    assert!(sparse.contains("n_chars(11177)"));
}

#[test]
fn backend_log_line_in_full() {
    assert_eq!(
        backend_log_line("x", 1_048_576, 40, 7),
        "   · x: Dense (容量 1048576 ≤ 阈值 2097152；预估 ~40 MB/线程)"
    );
    assert_eq!(
        backend_log_line("x", usize::MAX, 40, 7),
        format!(
            "   · x: Sparse (容量 {} > 阈值 2097152；Dense 将需 ~{} MB/线程，改用稀疏存储，内存随非空桶数 ≤ n_chars(7) 增长)",
            usize::MAX,
            usize::MAX / 1_048_576
        )
    );
}

#[test]
fn checkpoint_paths() {
    assert_eq!(checkpoint_dir("out"), "out/checkpoint");
    assert_eq!(checkpoint_dir("out/"), "out/checkpoint");
    assert_eq!(checkpoint_dir(""), "checkpoint");
    assert_eq!(thread_path("d", 0), "d/thread-00.json");
    assert_eq!(thread_path("d", 12), "d/thread-12.json");
    assert_eq!(thread_path("d", 123), "d/thread-123.json");
    assert_eq!(thread_archive_path("d", 3, "T"), "d/thread-03-T.json");
    assert_eq!(meta_path("d"), "d/meta.json");
}

#[test]
fn checkpoints_are_archived_only_where_there_is_one() {
    assert_eq!(checkpoint_archive("d", 3, Some("T"), true), Some("d/thread-03-T.json".to_string()));
    assert_eq!(checkpoint_archive("d", 3, Some("T"), false), None);
    assert_eq!(checkpoint_archive("d", 3, None, false), None);
    let moved = checkpoint_archive("d", 3, None, true).unwrap();
    assert!(moved.starts_with("d/thread-03.json."));
    assert!(moved.len() > "d/thread-03.json.".len());
}

#[test]
fn files_are_archived_under_the_current_time() {
    assert_eq!(with_timestamp_suffix("output-keymap.txt", "T"), "output-keymap.txt.T");
    assert_eq!(archive_target("a.txt", false), None);
    let before = now_timestamp_ms();
    let moved = archive_target("a.txt", true).unwrap();
    let after = now_timestamp_ms();
    let ts = moved.strip_prefix("a.txt.").unwrap();
    assert_eq!(ts.len(), "20260618-093015.123".len());
    assert!(before.as_str() <= ts && ts <= after.as_str());
}

#[test]
fn only_the_current_version_can_be_read() {
    assert_eq!(check_version(CHECKPOINT_VERSION), Ok(()));
    assert_eq!(check_version(CHECKPOINT_VERSION + 1), Err(2));
    assert_eq!(check_version(0), Err(0));
}
