use bananagrams::args::{after_flag_or, arg_exists, arg_pos, getarg};

fn args(list: &[&str]) -> Vec<String> {
    list.iter().map(|s| s.to_string()).collect()
}

#[test]
fn flag_presence() {
    let a = args(&["solver", "loremipsum", "-c", "-f", "common.txt"]);
    assert!(arg_exists(&a, &"-c".to_string()));
    assert!(arg_exists(&a, &"-f".to_string()));
    assert!(!arg_exists(&a, &"-r".to_string()));
    assert_eq!(arg_pos(&a, &"-c".to_string()), Some(2));
    assert_eq!(arg_pos(&a, &"-x".to_string()), None);
}

#[test]
fn value_after_flag() {
    let a = args(&["solver", "loremipsum", "-c", "-f", "common.txt"]);
    assert_eq!(after_flag_or(&a, &"-f".to_string(), "words.txt".to_string()), "common.txt");
    assert_eq!(after_flag_or(&a, &"-g".to_string(), "words.txt".to_string()), "words.txt");
    // a flag standing last falls back to the default
    let b = args(&["solver", "-f"]);
    assert_eq!(after_flag_or(&b, &"-f".to_string(), "words.txt".to_string()), "words.txt");
}

#[test]
fn argument_lookup_with_default() {
    let a = args(&["solver", "loremipsum"]);
    assert_eq!(getarg(&a, 1, "fallback".to_string()), "loremipsum");
    assert_eq!(getarg(&a, 5, "fallback".to_string()), "fallback");
}
