use velogos::word_tree::{gen_line, gen_string_line, Node};

fn words(list: &[&str]) -> Vec<String> {
    list.iter().map(|w| w.to_string()).collect()
}

#[test]
fn gen_word_walks_the_trie() {
    let root = Node::new(&words(&["ab", "ac"]));
    for _ in 0..50 {
        let word = root.gen_word();
        assert!(word.output == "ab" || word.output == "ac", "foreign word {:?}", word.output);
        assert_eq!(word.letters.len(), 2);
        assert!(word.letters.iter().all(|l| l.correct.is_none()));
        assert!(word.time.is_none());
    }
}

#[test]
fn gen_word_with_space_appends_blank() {
    let root = Node::new(&words(&["hi"]));
    let word = root.gen_word_with_space();
    assert_eq!(word.output, "hi ");
    assert_eq!(word.letters.last().unwrap().letter, ' ');
}

#[test]
fn gen_word_with_contains_letter() {
    let root = Node::new(&words(&["ab", "cd", "ce"]));
    for _ in 0..20 {
        let word = root.gen_word_with('d');
        assert_eq!(word.output, "cd");
    }
}

#[test]
fn gen_word_with_space_includes_both() {
    let root = Node::new(&words(&["ab", "cd"]));
    let word = root.gen_word_with_space_includes('b');
    assert_eq!(word.output, "ab ");
}

#[test]
fn walk_visits_depth_first() {
    let root = Node::new(&words(&["ab"]));
    assert_eq!(root.walk(false), vec!['\0', 'a', 'b']);
    assert_eq!(root.walk(true), vec!['b', 'a', '\0']);
}

#[test]
fn shared_prefixes_share_nodes() {
    let root = Node::new(&words(&["ab", "ac"]));
    assert_eq!(root.children.len(), 1);
    assert_eq!(root.children[0].letter, 'a');
    assert_eq!(root.children[0].children.len(), 2);
}

#[test]
fn gen_line_makes_spaced_words() {
    let root = Node::new(&words(&["xy"]));
    let line = gen_line(&root, 4);
    assert_eq!(line.len(), 4);
    let text = gen_string_line(&line);
    assert_eq!(text, "xy xy xy xy ");
}
