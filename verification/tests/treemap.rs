use raindeer::treemap::TreeMap;

#[test]
fn test_tree() {
    let mut tree_map = TreeMap::new("root", 32);

    tree_map.insert("root", "seventeen", 17);
    assert_eq!(tree_map.get("seventeen"), Some(&17));

    tree_map.remove("seventeen");
    assert_eq!(tree_map.get("seventeen"), None);

    tree_map.insert("root", "seventeen", 17);
    tree_map.insert("seventeen", "eighteen", 18);
    tree_map.insert("eighteen", "nineteen", 19);
    tree_map.insert("nineteen", "twenty", 20);
    tree_map.insert("twenty", "twenty one", 21);

    assert_eq!(tree_map.get("seventeen"), Some(&17));
    assert_eq!(tree_map.get("eighteen"), Some(&18));
    assert_eq!(tree_map.get("nineteen"), Some(&19));
    assert_eq!(tree_map.get("twenty"), Some(&20));
    assert_eq!(tree_map.get("twenty one"), Some(&21));

    let deepest = tree_map
        .traverse("root", |traverse| {
            assert_eq!(traverse.get_name(), Some("root".into()));

            for child in traverse.children() {
                assert_eq!(Some("seventeen".into()), child.get_name());

                let parent = child.parent();

                assert_eq!(Some("root".into()), parent.get_name());

                for child in child.children() {
                    assert_eq!(Some("eighteen".into()), child.get_name());

                    for child in child.children() {
                        assert_eq!(Some("nineteen".into()), child.get_name());

                        let parent = child.parent();

                        assert_eq!(Some("eighteen".into()), parent.get_name());

                        for child in child.children() {
                            assert_eq!(Some("twenty".into()), child.get_name());

                            let parent = child.parent();

                            assert_eq!(Some("nineteen".into()), parent.get_name());

                            return child.get_name();
                        }
                    }
                }
            }

            None
        })
        .unwrap();
    assert_eq!(deepest, Some("twenty".to_string()));

    tree_map.remove("eighteen");

    assert_eq!(tree_map.get("seventeen"), Some(&17));
    assert_eq!(tree_map.get("eighteen"), None);
    assert_eq!(tree_map.get("nineteen"), None);
    assert_eq!(tree_map.get("twenty"), None);
    assert_eq!(tree_map.get("twenty one"), None);
}

fn child_names(tree: &TreeMap<i32>, id: &str) -> Vec<String> {
    tree.traverse(id, |t| {
        t.children().iter().map(|c| c.get_name().unwrap()).collect::<Vec<String>>()
    })
    .unwrap()
}

fn parent_name(tree: &TreeMap<i32>, id: &str) -> String {
    tree.traverse(id, |t| t.parent().get_name().unwrap()).unwrap()
}

#[test]
fn new_tree_holds_only_its_root() {
    let tree = TreeMap::new("root", 1);
    assert!(tree.contains("root"));
    assert!(!tree.contains("other"));
    assert_eq!(tree.get("root"), Some(&1));
    assert_eq!(tree.get("other"), None);
    assert_eq!(child_names(&tree, "root"), Vec::<String>::new());
}

#[test]
fn traverse_of_a_missing_name_calls_nothing() {
    let tree = TreeMap::new("root", 1);
    let mut called = false;
    let got = tree.traverse("nobody", |_| {
        called = true;
        5
    });
    assert_eq!(got, None);
    assert!(!called);
}

#[test]
fn children_keep_insertion_order() {
    let mut tree = TreeMap::new("root", 0);
    tree.insert("root", "a", 1);
    tree.insert("root", "b", 2);
    tree.insert("root", "c", 3);
    tree.insert("b", "b1", 21);
    tree.insert("b", "b2", 22);
    assert_eq!(child_names(&tree, "root"), vec!["a", "b", "c"]);
    assert_eq!(child_names(&tree, "b"), vec!["b1", "b2"]);
    assert_eq!(parent_name(&tree, "b2"), "b");
    assert_eq!(parent_name(&tree, "c"), "root");
}

#[test]
fn remove_takes_the_whole_subtree_and_nothing_else() {
    let mut tree = TreeMap::new("root", 0);
    tree.insert("root", "a", 1);
    tree.insert("root", "b", 2);
    tree.insert("a", "a1", 11);
    tree.insert("b", "b1", 21);
    tree.insert("a", "a2", 12);
    tree.insert("a1", "a11", 111);
    tree.insert("root", "c", 3);
    tree.insert("b1", "b11", 211);

    tree.remove("a");

    for gone in ["a", "a1", "a2", "a11"] {
        assert!(!tree.contains(gone));
        assert_eq!(tree.get(gone), None);
    }
    assert_eq!(tree.get("root"), Some(&0));
    assert_eq!(tree.get("b"), Some(&2));
    assert_eq!(tree.get("b1"), Some(&21));
    assert_eq!(tree.get("b11"), Some(&211));
    assert_eq!(tree.get("c"), Some(&3));
    assert_eq!(child_names(&tree, "root"), vec!["b", "c"]);
    assert_eq!(child_names(&tree, "b"), vec!["b1"]);
    assert_eq!(child_names(&tree, "b1"), vec!["b11"]);
    assert_eq!(parent_name(&tree, "b11"), "b1");
    assert_eq!(parent_name(&tree, "b1"), "b");
    assert_eq!(parent_name(&tree, "c"), "root");
}

#[test]
fn remove_a_middle_child_keeps_its_siblings_in_order() {
    let mut tree = TreeMap::new("root", 0);
    tree.insert("root", "a", 1);
    tree.insert("root", "b", 2);
    tree.insert("root", "c", 3);
    tree.insert("root", "d", 4);
    tree.remove("b");
    assert_eq!(child_names(&tree, "root"), vec!["a", "c", "d"]);
    tree.remove("d");
    assert_eq!(child_names(&tree, "root"), vec!["a", "c"]);
    tree.insert("c", "b", 20);
    assert_eq!(tree.get("b"), Some(&20));
    assert_eq!(parent_name(&tree, "b"), "c");
}

#[test]
fn names_can_be_reused_after_removal() {
    let mut tree = TreeMap::new("r", 0);
    for round in 0..5 {
        tree.insert("r", "x", round);
        tree.insert("x", "y", round + 100);
        tree.insert("r", "z", round + 200);
        assert_eq!(tree.get("y"), Some(&(round + 100)));
        tree.remove("x");
        assert!(!tree.contains("x"));
        assert!(!tree.contains("y"));
        assert_eq!(tree.get("z"), Some(&(round + 200)));
        tree.remove("z");
        assert_eq!(child_names(&tree, "r"), Vec::<String>::new());
    }
}

#[test]
fn remove_a_parent_whose_children_sit_at_the_end() {
    // The walk down from "t" meets "t2" before "t1": the places come out
    // unordered and have to be sorted before they are given up one by one.
    let mut tree = TreeMap::new("root", 0);
    tree.insert("root", "t", 1);
    tree.insert("t", "t1", 2);
    tree.insert("t", "t2", 3);
    tree.remove("t");
    for gone in ["t", "t1", "t2"] {
        assert!(!tree.contains(gone));
    }
    assert_eq!(tree.get("root"), Some(&0));
    assert_eq!(child_names(&tree, "root"), Vec::<String>::new());

    tree.insert("root", "a", 10);
    tree.insert("root", "t", 11);
    tree.insert("t", "t1", 12);
    tree.insert("t1", "t11", 13);
    tree.insert("t", "t2", 14);
    tree.insert("a", "a1", 15);
    tree.insert("t2", "t21", 16);
    tree.insert("t", "t3", 17);
    tree.remove("t");
    for gone in ["t", "t1", "t11", "t2", "t21", "t3"] {
        assert!(!tree.contains(gone));
    }
    assert_eq!(child_names(&tree, "root"), vec!["a"]);
    assert_eq!(child_names(&tree, "a"), vec!["a1"]);
    assert_eq!(parent_name(&tree, "a1"), "a");
    assert_eq!(tree.get("a1"), Some(&15));
}

#[test]
fn only_the_root_is_the_root() {
    let mut tree = TreeMap::new("root", 0);
    tree.insert("root", "a", 1);
    assert!(tree.is_root("root"));
    assert!(!tree.is_root("a"));
    assert!(!tree.is_root("nobody"));
}

// A plain model of the tree: name, value, parent, in insertion order.
fn model_children(model: &Vec<(String, i32, Option<String>)>, id: &str) -> Vec<String> {
    model.iter().filter(|e| e.2.as_deref() == Some(id)).map(|e| e.0.clone()).collect()
}

fn model_remove(model: &mut Vec<(String, i32, Option<String>)>, id: &str) {
    let mut gone = vec![id.to_string()];
    let mut i = 0;
    while i < gone.len() {
        let kids = model_children(model, &gone[i]);
        gone.extend(kids);
        i += 1;
    }
    model.retain(|e| !gone.contains(&e.0));
}

#[test]
fn many_inserts_and_removes_agree_with_a_plain_model() {
    let mut tree = TreeMap::new("n0", 0);
    let mut model: Vec<(String, i32, Option<String>)> = vec![("n0".to_string(), 0, None)];
    let mut state: u64 = 0x2545_f491_4f6c_dd1d;
    let mut next = move || {
        state ^= state << 13;
        state ^= state >> 7;
        state ^= state << 17;
        state
    };
    let mut fresh = 1;
    for step in 0..600 {
        let pick = (next() % model.len() as u64) as usize;
        if step % 3 != 2 || model.len() < 4 {
            let name = format!("n{}", fresh);
            fresh += 1;
            let parent = model[pick].0.clone();
            tree.insert(&parent, &name, fresh);
            model.push((name, fresh, Some(parent)));
        } else if pick != 0 {
            let name = model[pick].0.clone();
            tree.remove(&name);
            model_remove(&mut model, &name);
        }
        for (name, value, parent) in &model {
            assert_eq!(tree.get(name), Some(value));
            assert_eq!(child_names(&tree, name), model_children(&model, name));
            match parent {
                Some(p) => assert_eq!(&parent_name(&tree, name), p),
                None => assert!(tree.is_root(name)),
            }
        }
    }
    for i in 0..fresh {
        let name = format!("n{}", i);
        assert_eq!(tree.contains(&name), model.iter().any(|e| e.0 == name));
    }
}
