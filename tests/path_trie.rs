use wireroute::path_trie::{common_str, compare_keys, parse_key, until, Node, PathParseError};

fn keys(path: &str) -> Vec<String> {
    parse_key(path).unwrap()
}

#[test]
fn test_node() {
    let mut node = Node::new(Vec::new());

    let keys = parse_key("/api/hello/:name").unwrap();
    node.insert(&keys, 1);

    let keys = parse_key("/api/goodbye/:name/:age").unwrap();
    node.insert(&keys, 2);

    let keys = parse_key("/api/hello/:name/:age").unwrap();
    node.insert(&keys, 3);

    let keys = parse_key("/api/hello/:name/:age").unwrap();
    node.insert(&keys, 6);

    let keys = parse_key("/a/b/*").unwrap();
    node.insert(&keys, 4);

    let keys = parse_key("/api/hello").unwrap();
    node.insert(&keys, 0);

    let keys = parse_key("/:id/collections").unwrap();
    node.insert(&keys, 8);

    let res = Node {
        path: vec![],
        data: None,
        children: vec![
            Node {
                path: vec![":id".to_string(), "collections/".to_string()],
                data: Some(8),
                children: vec![],
            },
            Node {
                path: vec!["/a".to_string()],
                data: None,
                children: vec![
                    Node {
                        path: vec!["/b/".to_string(), "*".to_string()],
                        data: Some(4),
                        children: vec![],
                    },
                    Node {
                        path: vec!["pi/".to_string()],
                        data: None,
                        children: vec![
                            Node {
                                path: vec![
                                    "goodbye/".to_string(),
                                    ":name".to_string(),
                                    ":age".to_string(),
                                ],
                                data: Some(2),
                                children: vec![],
                            },
                            Node {
                                path: vec!["hello/".to_string()],
                                data: Some(0),
                                children: vec![Node {
                                    path: vec![":name".to_string()],
                                    data: Some(1),
                                    children: vec![Node {
                                        path: vec![":age".to_string()],
                                        data: Some(6),
                                        children: vec![],
                                    }],
                                }],
                            },
                        ],
                    },
                ],
            },
        ],
    };

    assert_eq!(node, res);
}

#[test]
fn lookup_in_a_built_tree() {
    let trie = Node {
        path: vec![],
        data: None,
        children: vec![Node {
            path: vec!["/a".to_string()],
            data: None,
            children: vec![
                Node {
                    path: vec!["/b/".to_string(), "*".to_string()],
                    data: Some(6),
                    children: vec![],
                },
                Node {
                    path: vec!["pi/".to_string()],
                    data: None,
                    children: vec![
                        Node {
                            path: vec![
                                "goodbye/".to_string(),
                                ":name".to_string(),
                                ":age".to_string(),
                            ],
                            data: Some(2),
                            children: vec![],
                        },
                        Node {
                            path: vec!["hello".to_string()],
                            data: Some(0),
                            children: vec![Node {
                                path: vec![":name".to_string()],
                                data: Some(1),
                                children: vec![Node {
                                    path: vec![":age".to_string()],
                                    data: Some(3),
                                    children: vec![],
                                }],
                            }],
                        },
                    ],
                },
            ],
        }],
    };

    let (r, params) = trie.get("/api/hello/world").unwrap();
    assert_eq!(*r, 1);
    assert_eq!(params.get("name"), Some("world"));

    let (r, params) = trie.get("/api/goodbye/world/2").unwrap();
    assert_eq!(*r, 2);
    assert_eq!(params.get("name"), Some("world"));
    assert_eq!(params.get("age"), Some("2"));

    let (r, params) = trie.get("/api/hello/world/2").unwrap();
    assert_eq!(*r, 3);
    assert_eq!(params.get("name"), Some("world"));
    assert_eq!(params.get("age"), Some("2"));

    let (r, _params) = trie.get("/a/b/string").unwrap();
    assert_eq!(*r, 6);
}

#[test]
fn parse_literals_params_and_wildcard() {
    assert_eq!(
        keys("/api/hello/:name/:age/*"),
        vec!["/api/hello/".to_string(), ":name".to_string(), ":age".to_string(), "*".to_string()]
    );
    assert_eq!(keys("/api/hello/*"), vec!["/api/hello/".to_string(), "*".to_string()]);
    assert_eq!(keys("/query/*"), vec!["/query/".to_string(), "*".to_string()]);
    assert_eq!(keys("/:id/collections"), vec![":id".to_string(), "collections/".to_string()]);
    assert_eq!(keys("//a///b/"), vec!["/a/b/".to_string()]);
    assert_eq!(keys("/"), Vec::<String>::new());
    assert_eq!(keys(""), Vec::<String>::new());
}

#[test]
fn parse_rejects_segment_after_wildcard() {
    match parse_key("/api/hello/*/err") {
        Err(PathParseError::UnexpectedToken(t)) => assert_eq!(t, "err"),
        other => panic!("unexpected {:?}", other),
    }
}

#[test]
fn parse_rejects_nameless_parameter() {
    assert!(matches!(parse_key("/api/:/x"), Err(PathParseError::InsufficientLength)));
}

#[test]
fn parse_rejects_marker_inside_literal() {
    match parse_key("/a*b") {
        Err(PathParseError::UnexpectedToken(t)) => assert_eq!(t, "a*b"),
        other => panic!("unexpected {:?}", other),
    }
}

fn sample_trie() -> Node<i32> {
    let mut node = Node::new(Vec::new());
    node.insert(&keys("/api/hello/:name"), 1);
    node.insert(&keys("/api/goodbye/:name/:age"), 2);
    node.insert(&keys("/api/hello/:name/:age"), 3);
    node.insert(&keys("/a/b/*"), 4);
    node.insert(&keys("/api/hello"), 0);
    node.insert(&keys("/:id/collections"), 8);
    node
}

#[test]
fn prefix_split_keeps_parameter_route() {
    let node = sample_trie();
    let (v, params) = node.get("/api/hello/world").unwrap();
    assert_eq!(*v, 1);
    assert_eq!(params.get("name"), Some("world"));
    assert_eq!(params.len(), 1);
}

#[test]
fn wildcard_takes_the_rest() {
    let node = sample_trie();
    let (v, params) = node.get("/a/b/anything/with/slashes").unwrap();
    assert_eq!(*v, 4);
    assert_eq!(params.len(), 0);
}

#[test]
fn every_registered_route_finds_its_value() {
    let node = sample_trie();
    assert_eq!(*node.get("/api/hello").unwrap().0, 0);
    assert_eq!(*node.get("/api/hello/").unwrap().0, 0);
    let (v, p) = node.get("/api/goodbye/bob/42").unwrap();
    assert_eq!(*v, 2);
    assert_eq!(p.get("name"), Some("bob"));
    assert_eq!(p.get("age"), Some("42"));
    let (v, p) = node.get("/api/hello/ann/7").unwrap();
    assert_eq!(*v, 3);
    assert_eq!(p.get("name"), Some("ann"));
    assert_eq!(p.get("age"), Some("7"));
    let (v, p) = node.get("/17/collections").unwrap();
    assert_eq!(*v, 8);
    assert_eq!(p.get("id"), Some("17"));
}

#[test]
fn unregistered_sibling_has_no_match() {
    let node = sample_trie();
    assert!(node.get("/api/hi").is_none());
    assert!(node.get("/api/goodbye/bob").is_none());
    assert!(node.get("/a/c/x").is_none());
    assert!(node.get("/17/other").is_none());
    assert!(node.get("/api").is_none());
}

#[test]
fn same_route_twice_keeps_the_last_value() {
    let mut node = Node::new(Vec::new());
    node.insert(&keys("/x/:id"), 1);
    node.insert(&keys("/x/:id"), 2);
    assert_eq!(*node.get("/x/5").unwrap().0, 2);
}

#[test]
fn common_prefix_of_texts() {
    assert_eq!(common_str("/api/hello/", "/api/goodbye/"), "/api/");
    assert_eq!(common_str("abc", "xyz"), "");
    assert_eq!(common_str("ab", "abc"), "ab");
}

#[test]
fn text_until_separator() {
    assert_eq!(until("world/2", "/"), "world");
    assert_eq!(until("world", "/"), "world");
    assert_eq!(until("a/b", "ab"), "a/b");
}

#[test]
fn leading_equal_tokens() {
    let a = vec!["hello/".to_string(), ":name".to_string()];
    let b = vec!["hello/".to_string(), ":name".to_string(), ":age".to_string()];
    let c = vec!["hello/".to_string(), ":id".to_string()];
    assert_eq!(compare_keys(&a, &b), 2);
    assert_eq!(compare_keys(&a, &c), 1);
    assert_eq!(compare_keys(&c, &[]), 0);
}

#[test]
fn differently_named_parameter_replaces_subtree() {
    let mut node = Node::new(Vec::new());
    node.insert(&keys("/:id/x"), 1);
    node.insert(&keys("/:slug/y"), 2);
    let (v, p) = node.get("/5/y").unwrap();
    assert_eq!(*v, 2);
    assert_eq!(p.get("slug"), Some("5"));
    assert!(node.get("/5/x").is_none());
}

#[test]
fn same_parameter_name_shares_the_node() {
    let mut node = Node::new(Vec::new());
    node.insert(&keys("/u/:id/a"), 1);
    node.insert(&keys("/u/:id/b"), 2);
    assert_eq!(*node.get("/u/7/a").unwrap().0, 1);
    assert_eq!(*node.get("/u/7/b").unwrap().0, 2);
    assert_eq!(node.children.len(), 1);
    assert_eq!(node.children[0].path, vec!["/u/".to_string(), ":id".to_string()]);
}
