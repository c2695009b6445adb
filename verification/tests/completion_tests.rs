use shellcore::helpers::CompletionAction;
use shellcore::helpers::ShellHelper;
use shellcore::helpers::current_word;

fn helper_with(words: &[&str]) -> ShellHelper {
    let mut h = ShellHelper::new();
    for w in words {
        h.trie.insert(w);
    }
    h
}

#[test]
fn ambiguous_word_alerts_then_lists() {
    let mut h = helper_with(&["cd", "clear", "clone"]);
    // "cl" has two candidates whose common prefix is "cl" itself:
    // the first request alerts and stores the pending state.
    let first = h.complete("cl");
    assert!(matches!(first, CompletionAction::Alert));
    // The identical second request lists all candidates, sorted.
    let second = h.complete("cl");
    match second {
        CompletionAction::ListAll(v) => {
            assert_eq!(v, vec!["clear".to_string(), "clone".to_string()]);
        }
        other => panic!("expected ListAll, got {:?}", other),
    }
    // The pending state was cleared: the next request alerts again.
    let third = h.complete("cl");
    assert!(matches!(third, CompletionAction::Alert));
}

#[test]
fn common_prefix_equal_to_word_alerts() {
    let mut h = helper_with(&["cd", "clear", "clone"]);
    // "c" has three candidates; "cd" diverges at the second character, so
    // the common prefix is "c" itself and the first request alerts.
    let r = h.complete("c");
    assert!(matches!(r, CompletionAction::Alert));
}

#[test]
fn single_candidate_replaces_with_trailing_space() {
    let mut h = helper_with(&["cd", "clear", "clone"]);
    let r = h.complete("cd");
    match r {
        CompletionAction::Replace(t) => assert_eq!(t, "cd "),
        other => panic!("expected Replace, got {:?}", other),
    }
}

#[test]
fn longer_common_prefix_extends_silently() {
    let mut h = helper_with(&["clear", "clone"]);
    let r = h.complete("c");
    match r {
        CompletionAction::Extend(t) => assert_eq!(t, "cl"),
        other => panic!("expected Extend, got {:?}", other),
    }
    // Extension cleared any pending state; the next identical query alerts.
    let r2 = h.complete("cl");
    assert!(matches!(r2, CompletionAction::Alert));
}

#[test]
fn no_candidates_reports_no_match() {
    let mut h = helper_with(&["cd"]);
    let r = h.complete("zz");
    assert!(matches!(r, CompletionAction::NoMatch));
}

#[test]
fn differing_prefix_resets_the_protocol() {
    let mut h = helper_with(&["cd", "clear", "clone", "cat", "cap"]);
    assert!(matches!(h.complete("cl"), CompletionAction::Alert));
    // A different ambiguous word alerts instead of listing.
    assert!(matches!(h.complete("ca"), CompletionAction::Alert));
    // And now the repeat of "ca" lists its own candidates.
    match h.complete("ca") {
        CompletionAction::ListAll(v) => {
            assert_eq!(v, vec!["cap".to_string(), "cat".to_string()]);
        }
        other => panic!("expected ListAll, got {:?}", other),
    }
}

#[test]
fn longest_common_prefix_is_maximal() {
    let lcp = ShellHelper::longest_common_prefix(&vec![
        "interspecies".to_string(),
        "interstellar".to_string(),
        "interstate".to_string(),
    ]);
    assert_eq!(lcp, "inters");
    let lcp2 = ShellHelper::longest_common_prefix(&vec!["throne".to_string(), "dungeon".to_string()]);
    assert_eq!(lcp2, "");
    let lcp3 = ShellHelper::longest_common_prefix(&vec!["abc".to_string()]);
    assert_eq!(lcp3, "abc");
    let lcp4 = ShellHelper::longest_common_prefix(&vec!["ab".to_string(), "abcd".to_string()]);
    assert_eq!(lcp4, "ab");
    let lcp5 = ShellHelper::longest_common_prefix(&Vec::new());
    assert_eq!(lcp5, "");
}

#[test]
fn load_path_executables_happens_once() {
    let mut h = ShellHelper::new();
    h.load_path_executables(&vec!["ls".to_string(), "cat".to_string()]);
    let mut v = h.trie.find_completions("");
    v.sort();
    assert_eq!(v, vec!["cat".to_string(), "ls".to_string()]);
    // The scan is served from the cache afterwards: a second load with new
    // names changes nothing.
    h.load_path_executables(&vec!["newtool".to_string()]);
    assert_eq!(h.trie.find_completions("new"), Vec::<String>::new());
}

#[test]
fn current_word_is_last_token_of_line() {
    assert_eq!(current_word("ls fo"), "fo");
    assert_eq!(current_word("cl"), "cl");
    assert_eq!(current_word(""), "");
    assert_eq!(current_word("   "), "");
    assert_eq!(current_word("git add "), "add");
}
