use rshell::utils::longest_common_prefix;

#[test]
fn get_lcp() {
    let word = "clear-";
    let completions = ["clear-fbo", "clear-fbo-scissor", "clear-fbo-tex"];

    let lcp = longest_common_prefix(
        word,
        &completions.iter().map(|s| s.to_string()).collect::<Vec<String>>(),
    );

    assert_eq!(lcp, "clear-fbo");
}

#[test]
fn lcp_stops_at_shortest_candidate() {
    let cands = vec!["ab".to_string(), "abc".to_string()];
    assert_eq!(longest_common_prefix("a", &cands), "ab");
}

#[test]
fn lcp_without_extension_is_the_word() {
    let cands = vec!["gitk".to_string(), "gits".to_string()];
    assert_eq!(longest_common_prefix("git", &cands), "git");
}

#[test]
fn lcp_compares_after_the_word_length() {
    let cands = vec!["xy".to_string()];
    assert_eq!(longest_common_prefix("ab", &cands), "ab");
    let cands = vec!["xycd".to_string(), "zzce".to_string()];
    assert_eq!(longest_common_prefix("ab", &cands), "abc");
}
