use dotmake::identifier::{
    split, whitespace, Identifier, Identifiers, IdentifiersList, IdentifiersSet,
};
use dotmake::list::{List, ListEnum};
use dotmake::node::Node;

fn names(ids: &Vec<Identifier>) -> Vec<String> {
    ids.iter().map(|id| id.to_string()).collect()
}

#[test]
fn identifier_keeps_its_name() {
    let id = Identifier::new("neovim".to_string()).unwrap();
    assert_eq!(id.as_str(), "neovim");
    assert_eq!(id.to_string(), "neovim");
    assert_eq!(id.to_text(), "neovim");
    assert_eq!(id.clone(), id);
    assert_eq!(id.duplicate(), id);
    assert!(id.same(&Identifier::new("neovim".to_string()).unwrap()));
    assert!(!id.same(&Identifier::new("vim".to_string()).unwrap()));
}

#[test]
fn identifier_holds_no_whitespace() {
    assert_eq!(Identifier::new("a b".to_string()), Err("a b".to_string()));
    assert_eq!(Identifier::new(" ab".to_string()), Err(" ab".to_string()));
    assert_eq!(Identifier::new("ab\n".to_string()), Err("ab\n".to_string()));
    assert_eq!(Identifier::new("a\u{3000}b".to_string()), Err("a\u{3000}b".to_string()));
    assert!(Identifier::new("a\u{200B}b".to_string()).is_ok());
    assert!(Identifier::new("über-rule_1".to_string()).is_ok());
}

#[test]
fn identifier_is_not_empty() {
    assert_eq!(Identifier::new(String::new()), Err(String::new()));
}

#[test]
fn identifier_from_text() {
    assert_eq!(Identifier::from_str("zsh").unwrap().as_str(), "zsh");
    assert_eq!(
        Identifier::from_str("oh my zsh"),
        Err("invalid identifier: oh my zsh".to_string())
    );
    assert_eq!(Identifier::from_str(""), Err("invalid identifier: ".to_string()));
}

#[test]
fn whitespace_is_what_unicode_says() {
    for code in 0..=0x10FFFFu32 {
        if let Some(c) = char::from_u32(code) {
            assert_eq!(whitespace(c), c.is_whitespace(), "U+{:04X}", code);
        }
    }
}

#[test]
fn split_gives_the_words() {
    for text in [
        "",
        " ",
        "a",
        " a",
        "a ",
        "a b",
        "  git \t vim\n\nzsh  ",
        "one\u{2003}two\u{85}three",
        "äö ü\u{a0}ß",
        "x  y   z",
    ] {
        let expected: Vec<String> = text.split_whitespace().map(|w| w.to_string()).collect();
        assert_eq!(names(&split(text)), expected, "{:?}", text);
    }
    assert_eq!(names(&split("  git \t vim\n\nzsh  ")), vec!["git", "vim", "zsh"]);
}

#[test]
fn identifiers_lists() {
    let list = Identifiers::new("b a  b".to_string());
    assert_eq!(list.as_str(), "b a  b");
    assert_eq!(names(&list.to_vec()), vec!["b", "a", "b"]);
    assert!(IdentifiersList::new().as_vec().is_empty());
    assert_eq!(names(IdentifiersList::parse("b a  b").as_vec()), vec!["b", "a", "b"]);
}

#[test]
fn identifiers_set_holds_no_identifier_twice() {
    assert!(IdentifiersSet::new().as_vec().is_empty());
    let set = IdentifiersSet::parse(" c a b ").unwrap();
    assert_eq!(names(set.as_vec()), vec!["c", "a", "b"]);
    match IdentifiersSet::parse("c a b a c") {
        Err(word) => assert_eq!(word, "a"),
        Ok(_) => panic!("a stands twice"),
    }
}

#[test]
fn list_of_one_item_or_many() {
    assert_eq!(ListEnum::Sequence(vec![1, 2]).to_vec(), vec![1, 2]);
    assert_eq!(ListEnum::Singletone(7).to_vec(), vec![7]);
    assert_eq!(ListEnum::Sequence(Vec::<i32>::new()).to_vec(), Vec::<i32>::new());
    assert_eq!(ListEnum::Singletone("x").to_list().as_vec(), &vec!["x"]);
    assert_eq!(ListEnum::Sequence(vec![3, 4]).to_list().to_vec(), vec![3, 4]);
    assert!(List::<i32>::new().as_vec().is_empty());
    assert_eq!(List::<i32>::new().len(), 0);
    let list = List::from_vec(vec![1, 2, 3]);
    assert_eq!(list.len(), 3);
    assert_eq!(list.as_vec(), &vec![1, 2, 3]);
    assert_eq!(list.to_vec(), vec![1, 2, 3]);
}
