use trie::Trie;

#[test]
fn insert() {
    let mut trie = Trie::new();
    trie.insert("a");
    assert!(trie.contains("a"))
}

#[test]
fn insert2() {
    let mut trie = Trie::new();
    trie.insert("ab");
    assert!(trie.contains("ab"))
}

#[test]
fn insert3() {
    let mut trie = Trie::new();
    trie.insert("abba");
    assert!(trie.contains("abba"))
}

#[test]
fn insert4() {
    let mut trie = Trie::new();
    trie.insert("abba");
    assert!(!trie.contains("ab"))
}

#[test]
fn insert_multiple() {
    let mut trie = Trie::new();
    trie.insert("abba");
    trie.insert("abc");
    assert!(trie.contains("abba"));
    assert!(trie.contains("abc"));
}

#[test]
fn insert_multiple_same() {
    let mut trie = Trie::new();
    trie.insert("abba");
    trie.insert("abba");
    assert!(trie.contains("abba"));
}

#[test]
fn insert_multiple_2() {
    let mut trie = Trie::new();
    trie.insert("abba");
    trie.insert("ab");
    assert!(trie.contains("abba"));
    assert!(trie.contains("ab"));
}

#[test]
fn completions1() {
    let mut trie = Trie::new();
    trie.insert("abba");
    trie.insert("ab");
    let completions = trie.get_completions("ab");
    assert_eq!(completions.len(), 2);
    assert_eq!(completions[0], "ab".to_string());
    assert_eq!(completions[1], "abba".to_string());
}

#[test]
fn completions2() {
    let mut trie = Trie::new();
    trie.insert("abba");
    trie.insert("ab");
    let completions = trie.get_completions("abc");
    assert_eq!(completions.len(), 0);
}

#[test]
fn from_iter() {
    let trie = Trie::from_iter(vec!["hello", "there", "general", "kenobi"]);
    assert!(trie.contains("hello"));
    assert!(trie.contains("there"));
    assert!(trie.contains("general"));
    assert!(trie.contains("kenobi"));
}

#[test]
fn complete_word_iter1() {
    let trie = Trie::from_iter(vec!["hello", "there"]);

    let mut iter = trie.into_iter();
    assert_eq!(iter.next(), Some("hello".to_string()));
    assert_eq!(iter.next(), Some("there".to_string()));
    assert_eq!(iter.next(), None);
}

#[test]
fn into_iter() {
    let trie = Trie::from_iter(vec!["hello", "there"]);

    let mut iter = trie.into_iter();
    assert_eq!(iter.next(), Some("hello".to_string()));
    assert_eq!(iter.next(), Some("there".to_string()));
    assert_eq!(iter.next(), None);
}

#[test]
fn remove1() {
    let mut trie = Trie::from_iter(vec!["hello"]);

    assert!(trie.remove("hello"));
    assert_eq!(trie.into_iter().next(), None)
}

#[test]
fn remove2() {
    let mut trie = Trie::from_iter(vec!["hello", "there"]);

    assert!(trie.remove("hello"));
    assert_eq!(trie.into_iter().next(), Some("there".to_string()))
}

#[test]
fn remove3() {
    let mut trie = Trie::from_iter(vec!["hello", "he"]);

    assert!(trie.remove("he"));
    assert_eq!(trie.into_iter().next(), Some("hello".to_string()))
}

#[test]
fn remove4() {
    let mut trie = Trie::from_iter(vec!["hello", "he"]);

    assert!(trie.remove("hello"));
    assert_eq!(trie.into_iter().next(), Some("he".to_string()))
}

#[test]
fn remove5() {
    let mut trie = Trie::from_iter(vec!["a"]);

    assert!(trie.remove("a"));
    assert_eq!(trie.into_iter().next(), None)
}

#[test]
fn remove6() {
    let mut trie = Trie::from_iter(vec!["a", "ab"]);

    assert!(trie.remove("a"));
    assert_eq!(trie.into_iter().next(), Some("ab".to_string()))
}

#[test]
fn remove7() {
    let mut trie = Trie::from_iter(vec!["a", "ab"]);

    assert!(trie.remove("ab"));
    assert_eq!(trie.into_iter().next(), Some("a".to_string()))
}

#[test]
fn remove8() {
    let mut trie = Trie::from_iter(vec!["a", "ab"]);

    assert!(!trie.remove("abc"));
    let mut iter = trie.into_iter();
    assert_eq!(iter.next(), Some("a".to_string()));
    assert_eq!(iter.next(), Some("ab".to_string()));
    assert_eq!(iter.next(), None)
}

#[test]
fn remove9() {
    let mut trie = Trie::new();

    assert!(!trie.remove("a"));
    let mut iter = trie.into_iter();
    assert_eq!(iter.next(), None)
}

#[test]
fn empty_string_is_a_no_op() {
    let mut trie = Trie::new();
    trie.insert("ab");
    trie.insert("");
    assert!(!trie.contains(""));
    assert!(!trie.remove(""));
    assert_eq!(trie.get_completions("").len(), 0);
    assert_eq!(trie.to_vec(), vec!["ab".to_string()]);
}

#[test]
fn eager_and_lazy_enumerations_agree() {
    let words = vec!["hello", "he", "hey", "there", "a", "ab"];
    let trie = Trie::from_iter(words);
    let eager = trie.to_vec();
    let mut lazy = Vec::new();
    let mut iter = trie.into_iter();
    while let Some(w) = iter.next() {
        lazy.push(w);
    }
    assert_eq!(eager, lazy);
}

#[test]
fn insert_twice_same_completions() {
    let mut once = Trie::new();
    once.insert("abba");
    let mut twice = Trie::new();
    twice.insert("abba");
    twice.insert("abba");
    assert_eq!(once.get_completions("ab"), twice.get_completions("ab"));
    assert_eq!(once.contains("abba"), twice.contains("abba"));
}

#[test]
fn single_character_prefix_completions() {
    let mut trie = Trie::new();
    trie.insert("a");
    trie.insert("ab");
    let completions = trie.get_completions("a");
    assert_eq!(completions, vec!["a".to_string(), "ab".to_string()]);
}

#[test]
fn enumeration_order_is_depth_first() {
    let trie = Trie::from_iter(vec!["b", "ba", "a", "ab"]);
    assert_eq!(
        trie.to_vec(),
        vec!["b".to_string(), "ba".to_string(), "a".to_string(), "ab".to_string()]
    );
}

#[test]
fn default_is_the_empty_trie() {
    let trie = Trie::default();
    assert!(!trie.contains("a"));
    assert_eq!(trie.to_vec().len(), 0);
}

#[test]
fn clone_keeps_the_words() {
    let trie = Trie::from_iter(vec!["hello", "he", "there"]);
    let copy = trie.clone();
    assert_eq!(trie.to_vec(), copy.to_vec());
    assert!(copy.contains("he"));
}

#[test]
fn remove_keeps_sibling_order() {
    let mut trie = Trie::from_iter(vec!["cat", "car", "dog"]);
    assert!(trie.remove("car"));
    assert_eq!(trie.to_vec(), vec!["cat".to_string(), "dog".to_string()]);
}
