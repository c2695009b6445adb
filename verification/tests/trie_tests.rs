use shellcore::trie::Trie;

fn sorted(mut v: Vec<String>) -> Vec<String> {
    v.sort();
    v
}

#[test]
fn completions_are_exactly_the_words_with_the_prefix() {
    let mut t = Trie::new();
    t.insert("cd");
    t.insert("clear");
    t.insert("clone");
    t.insert("pwd");
    assert_eq!(sorted(t.find_completions("cl")), vec!["clear".to_string(), "clone".to_string()]);
    assert_eq!(
        sorted(t.find_completions("c")),
        vec!["cd".to_string(), "clear".to_string(), "clone".to_string()]
    );
    assert_eq!(sorted(t.find_completions("pwd")), vec!["pwd".to_string()]);
    assert_eq!(sorted(t.find_completions("pwdx")), Vec::<String>::new());
    assert_eq!(sorted(t.find_completions("z")), Vec::<String>::new());
}

#[test]
fn empty_prefix_returns_all_words() {
    let mut t = Trie::new();
    t.insert("alpha");
    t.insert("beta");
    t.insert("gamma");
    assert_eq!(
        sorted(t.find_completions("")),
        vec!["alpha".to_string(), "beta".to_string(), "gamma".to_string()]
    );
}

#[test]
fn inserting_twice_does_not_duplicate() {
    let mut t = Trie::new();
    t.insert("ls");
    t.insert("ls");
    assert_eq!(t.find_completions("l"), vec!["ls".to_string()]);
    assert_eq!(t.find_completions(""), vec!["ls".to_string()]);
}

#[test]
fn insert_trims_surrounding_whitespace() {
    let mut t = Trie::new();
    t.insert("  ls \n");
    assert_eq!(t.find_completions("l"), vec!["ls".to_string()]);
}

#[test]
fn empty_word_insert_does_not_crash() {
    let mut t = Trie::new();
    t.insert("");
    t.insert("a");
    assert_eq!(
        sorted(t.find_completions("")),
        vec!["".to_string(), "a".to_string()]
    );
}

#[test]
fn shared_prefixes_stay_distinct_words() {
    let mut t = Trie::new();
    t.insert("git");
    t.insert("gitk");
    t.insert("git-shell");
    assert_eq!(
        sorted(t.find_completions("git")),
        vec!["git".to_string(), "git-shell".to_string(), "gitk".to_string()]
    );
    assert_eq!(sorted(t.find_completions("gitk")), vec!["gitk".to_string()]);
}

#[test]
fn get_single_completion_only_for_unique_matches() {
    let mut t = Trie::new();
    t.insert("cd");
    t.insert("clear");
    t.insert("clone");
    assert_eq!(t.get_single_completion("cd"), Some("cd".to_string()));
    assert_eq!(t.get_single_completion("cl"), None);
    assert_eq!(t.get_single_completion("zz"), None);
}
