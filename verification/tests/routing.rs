use hayaku::pattern::get_match_len;
use hayaku::trie::TrieNode;

#[test]
fn match_len() {
    let a = "apple";
    let b = "ape";
    assert_eq!(get_match_len(a, b), 2);
    let c = "rat";
    assert_eq!(get_match_len(a, c), 0);
}

#[test]
fn single_insert() {
    let data = "Data";
    let mut trie = TrieNode::new();
    trie.insert("/", data).unwrap();

    // the tree is a single node binding "/" to the value
    assert_eq!(trie.key, "/");
    assert_eq!(trie.value, Some("Data"));
    assert!(trie.children.is_empty());
    assert!(trie.param.is_none());

    assert_eq!(trie.get("/").unwrap().0, Some(data));
}

#[test]
fn multiple_insert() {
    let mut trie = TrieNode::new();
    trie.insert("/", "Data").unwrap();
    trie.insert("/2", "Data2").unwrap();

    // the root holds "/" and its value; one child holds the "2" suffix
    assert_eq!(trie.key, "/");
    assert_eq!(trie.value, Some("Data"));
    assert_eq!(trie.children.len(), 1);
    assert!(trie.param.is_none());
    assert_eq!(trie.children[0].key, "2");
    assert_eq!(trie.children[0].value, Some("Data2"));
    assert!(trie.children[0].children.is_empty());
    assert!(trie.children[0].param.is_none());

    assert_eq!(trie.get("/").unwrap().0, Some("Data"));
    assert_eq!(trie.get("/2").unwrap().0, Some("Data2"));
}

#[test]
fn split_node() {
    let mut trie = TrieNode::new();
    trie.insert("/1", "Data").unwrap();
    trie.insert("/2", "Data2").unwrap();

    // the shared prefix "/" keeps the root, with no value of its own,
    // and the two suffixes hang below it
    assert_eq!(trie.key, "/");
    assert_eq!(trie.value, None);
    assert!(trie.param.is_none());
    assert_eq!(trie.children.len(), 2);
    assert_eq!(trie.children[0].key, "1");
    assert_eq!(trie.children[0].value, Some("Data"));
    assert!(trie.children[0].children.is_empty());
    assert!(trie.children[0].param.is_none());
    assert_eq!(trie.children[1].key, "2");
    assert_eq!(trie.children[1].value, Some("Data2"));
    assert!(trie.children[1].children.is_empty());
    assert!(trie.children[1].param.is_none());

    assert!(trie.get("/").is_none());
    assert_eq!(trie.get("/1").unwrap().0, Some("Data"));
    assert_eq!(trie.get("/2").unwrap().0, Some("Data2"));
}

#[test]
fn single_insert_param() {
    let mut trie = TrieNode::new();
    trie.insert("/{test}", "Data").unwrap();

    assert_eq!(trie.key, "/");
    assert_eq!(trie.value, None);
    assert!(trie.param.is_none());
    assert_eq!(trie.children.len(), 1);
    assert_eq!(trie.children[0].key, "test");
    assert_eq!(trie.children[0].value, Some("Data"));
    assert!(trie.children[0].children.is_empty());
    assert_eq!(trie.children[0].param.as_ref().unwrap().pattern().as_str(), ".+");

    assert!(trie.get("/").is_none());
    let (val, map) = trie.get("/cock").unwrap();
    assert_eq!(val, Some("Data"));
    let param = map.get("test");
    assert_eq!(param, Some("cock".to_string()));
}

#[test]
fn multiple_insert_param() {
    let mut trie = TrieNode::new();
    trie.insert("/", "Data").unwrap();
    trie.insert("/{test}", "Data2").unwrap();

    assert_eq!(trie.key, "/");
    assert_eq!(trie.value, Some("Data"));
    assert!(trie.param.is_none());
    assert_eq!(trie.children.len(), 1);
    assert_eq!(trie.children[0].key, "test");
    assert_eq!(trie.children[0].value, Some("Data2"));
    assert!(trie.children[0].children.is_empty());
    assert_eq!(trie.children[0].param.as_ref().unwrap().pattern().as_str(), ".+");

    assert_eq!(trie.get("/").unwrap().0, Some("Data"));
    let (val, map) = trie.get("/cock").unwrap();
    assert_eq!(val, Some("Data2"));
    let param = map.get("test");
    assert_eq!(param, Some("cock".to_string()));
}

#[test]
fn param_with_child() {
    let mut trie = TrieNode::new();
    trie.insert("/{test}", "Data").unwrap();
    trie.insert("/{test}/cock", "Data2").unwrap();

    assert_eq!(trie.key, "/");
    assert_eq!(trie.value, None);
    assert!(trie.param.is_none());
    assert_eq!(trie.children.len(), 1);
    let p = &trie.children[0];
    assert_eq!(p.key, "test");
    assert_eq!(p.value, Some("Data"));
    assert_eq!(p.param.as_ref().unwrap().pattern().as_str(), ".+");
    assert_eq!(p.children.len(), 1);
    assert_eq!(p.children[0].key, "/cock");
    assert_eq!(p.children[0].value, Some("Data2"));
    assert!(p.children[0].children.is_empty());
    assert!(p.children[0].param.is_none());

    let (val, map) = trie.get("/cock").unwrap();
    assert_eq!(val, Some("Data"));
    let param = map.get("test");
    assert_eq!(param, Some("cock".to_string()));

    let (val, map) = trie.get("/horse/cock").unwrap();
    assert_eq!(val, Some("Data2"));
    let param = map.get("test");
    assert_eq!(param, Some("horse".to_string()));
}

#[test]
fn senatus_01() {
    let mut trie = TrieNode::new();
    trie.insert("/", "/").unwrap();
    trie.insert("/b/{board}", "/b/:board").unwrap();
    trie.insert("/b/{board}/{thread}", "/b/:board/:thread").unwrap();

    assert_eq!(trie.key, "/");
    assert_eq!(trie.value, Some("/"));
    assert!(trie.param.is_none());
    assert_eq!(trie.children.len(), 1);
    let b = &trie.children[0];
    assert_eq!(b.key, "b/");
    assert_eq!(b.value, None);
    assert!(b.param.is_none());
    assert_eq!(b.children.len(), 1);
    let board = &b.children[0];
    assert_eq!(board.key, "board");
    assert_eq!(board.value, Some("/b/:board"));
    assert_eq!(board.param.as_ref().unwrap().pattern().as_str(), ".+");
    assert_eq!(board.children.len(), 1);
    let slash = &board.children[0];
    assert_eq!(slash.key, "/");
    assert_eq!(slash.value, None);
    assert!(slash.param.is_none());
    assert_eq!(slash.children.len(), 1);
    let thread = &slash.children[0];
    assert_eq!(thread.key, "thread");
    assert_eq!(thread.value, Some("/b/:board/:thread"));
    assert_eq!(thread.param.as_ref().unwrap().pattern().as_str(), ".+");
    assert!(thread.children.is_empty());
}

#[test]
fn regex_test() {
    let mut trie = TrieNode::new();
    trie.insert("/", "/").unwrap();
    trie.insert("/b/{board}", "/b/:board").unwrap();
    trie.insert("/b/{board}/{thread:[0-9]+}", "/b/:board/:thread").unwrap();

    assert_eq!(trie.key, "/");
    assert_eq!(trie.value, Some("/"));
    let b = &trie.children[0];
    assert_eq!(b.key, "b/");
    assert_eq!(b.value, None);
    let board = &b.children[0];
    assert_eq!(board.key, "board");
    assert_eq!(board.value, Some("/b/:board"));
    assert_eq!(board.param.as_ref().unwrap().pattern().as_str(), ".+");
    let slash = &board.children[0];
    assert_eq!(slash.key, "/");
    assert_eq!(slash.value, None);
    let thread = &slash.children[0];
    assert_eq!(thread.key, "thread");
    assert_eq!(thread.value, Some("/b/:board/:thread"));
    assert_eq!(thread.param.as_ref().unwrap().pattern().as_str(), "[0-9]+");
    assert!(thread.children.is_empty());

    let (val, map) = trie.get("/b/a/5").unwrap();
    assert_eq!(val, Some("/b/:board/:thread"));
    assert_eq!(map.get("thread"), Some("5".to_string()));

    assert!(trie.get("/b/a/b").is_none());
}

#[test]
fn param_capture_single_segment() {
    let mut trie = TrieNode::new();
    trie.insert("/b/{board}", 7usize).unwrap();

    let (val, map) = trie.get("/b/a").unwrap();
    assert_eq!(val, Some(7));
    assert_eq!(map.get("board"), Some("a".to_string()));

    assert!(trie.get("/b/").is_none());
    assert!(trie.get("/b").is_none());
}

#[test]
fn regex_constrained_child() {
    let mut trie = TrieNode::new();
    trie.insert("/b/{board}", 1usize).unwrap();
    trie.insert("/b/{board}/{thread:[0-9]+}", 2usize).unwrap();

    let (val, map) = trie.get("/b/a/5").unwrap();
    assert_eq!(val, Some(2));
    assert_eq!(map.get("thread"), Some("5".to_string()));
    assert_eq!(map.get("board"), Some("a".to_string()));

    assert!(trie.get("/b/a/x").is_none());
}

#[test]
fn literal_beats_param() {
    let mut trie = TrieNode::new();
    trie.insert("/b/static", 1usize).unwrap();
    trie.insert("/b/{dyn}", 2usize).unwrap();

    let (val, map) = trie.get("/b/static").unwrap();
    assert_eq!(val, Some(1));
    assert!(map.get("dyn").is_none());

    // the parameter route still serves everything else
    let (val, map) = trie.get("/b/other").unwrap();
    assert_eq!(val, Some(2));
    assert_eq!(map.get("dyn"), Some("other".to_string()));
}

#[test]
fn distinct_literals_resolve() {
    let paths = ["/", "/a", "/ab", "/abc", "/b/c", "/b/d", "/x/y/z"];
    let mut trie = TrieNode::new();
    for (i, p) in paths.iter().enumerate() {
        trie.insert(*p, i).unwrap();
    }
    for (i, p) in paths.iter().enumerate() {
        let (val, map) = trie.get(*p).unwrap();
        assert_eq!(val, Some(i));
        assert!(map.get("anything").is_none());
    }
}

#[test]
fn duplicate_route_rejected() {
    let mut trie = TrieNode::new();
    trie.insert("/a/b", 1usize).unwrap();
    assert_eq!(trie.insert("/a/b", 2usize), Err(hayaku::Error::DuplicateRoute));

    // the first registration still stands
    assert_eq!(trie.get("/a/b").unwrap().0, Some(1));

    let mut trie2 = TrieNode::new();
    trie2.insert("/b/{x}", 1usize).unwrap();
    assert_eq!(trie2.insert("/b/{x}", 2usize), Err(hayaku::Error::DuplicateRoute));
    assert_eq!(trie2.get("/b/q").unwrap().0, Some(1));
}

#[test]
fn pattern_errors() {
    let mut trie = TrieNode::<usize>::new();
    assert_eq!(trie.insert("b/x", 1), Err(hayaku::Error::StartWithSlash));
    assert_eq!(trie.insert("", 1), Err(hayaku::Error::StartWithSlash));
    assert_eq!(trie.insert("/a/{b", 1), Err(hayaku::Error::UnbalancedBrace));
    assert_eq!(trie.insert("/a/b}", 1), Err(hayaku::Error::UnbalancedBrace));
    assert_eq!(trie.insert("/a/{}", 1), Err(hayaku::Error::MissingNameOrPattern));
    assert_eq!(trie.insert("/a/{:x}", 1), Err(hayaku::Error::MissingNameOrPattern));
    assert_eq!(trie.insert("/a/{x:[}", 1), Err(hayaku::Error::InvalidRegex));

    // a rejected pattern leaves the trie untouched: still empty
    assert_eq!(trie.key, "");
    assert!(trie.children.is_empty());
    assert!(trie.get("/a/b").is_none());
}

#[test]
fn empty_path_no_match() {
    let mut trie = TrieNode::new();
    trie.insert("/", 1usize).unwrap();
    assert!(trie.get("").is_none());
}

#[test]
fn repeated_param_name_inner_wins() {
    let mut trie = TrieNode::new();
    trie.insert("/{x}/{x}", 1usize).unwrap();
    let (val, map) = trie.get("/a/b").unwrap();
    assert_eq!(val, Some(1));
    // the deeper capture shadows the outer one
    assert_eq!(map.get("x"), Some("b".to_string()));
}
