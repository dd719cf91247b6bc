use arboriter::binary::BinaryNode;
use arboriter::filesystem::{filesystem_listing, get_depth, sample_filesystem, FileSystemNode};
use arboriter::sample::{create_sample_tree, find_value, preorder_values, prune_negative};

#[test]
fn new_node_has_no_children() {
    let node = BinaryNode::new(42);
    assert_eq!(node.value, 42);
    assert!(node.left.is_none());
    assert!(node.right.is_none());
}

#[test]
fn with_children_keeps_its_children() {
    let node = BinaryNode::with_children(
        1,
        Some(Box::new(BinaryNode::new(2))),
        Some(Box::new(BinaryNode::new(3))),
    );
    assert_eq!(node.value, 1);
    assert_eq!(node.left.as_ref().unwrap().value, 2);
    assert_eq!(node.right.as_ref().unwrap().value, 3);
    let values: Vec<i32> = node.children().iter().map(|c| c.value).collect();
    assert_eq!(values, vec![2, 3]);
}

#[test]
fn sample_tree_values_in_preorder() {
    let root = create_sample_tree();
    let values: Vec<i32> = preorder_values(&root).into_iter().copied().collect();
    assert_eq!(values, vec![1, 2, 4, -8, 9, 5, 3, -7, 6]);
}

#[test]
fn find_value_stops_at_target() {
    let root = create_sample_tree();
    let (checked, found) = find_value(&root, 5);
    assert!(found);
    assert_eq!(checked, vec![1, 2, 4, -8, 9, 5]);
}

#[test]
fn find_value_missing_checks_everything() {
    let root = create_sample_tree();
    let (checked, found) = find_value(&root, 42);
    assert!(!found);
    assert_eq!(checked, vec![1, 2, 4, -8, 9, 5, 3, -7, 6]);
}

#[test]
fn find_value_at_root() {
    let root = create_sample_tree();
    let (checked, found) = find_value(&root, 1);
    assert!(found);
    assert_eq!(checked, vec![1]);
}

#[test]
fn prune_negative_on_sample_tree() {
    let root = create_sample_tree();
    assert_eq!(prune_negative(&root), vec![1, 2, 4, -8, 9, 5, 3, -7, 6]);
}

#[test]
fn prune_negative_skips_below_negative_node() {
    let root = BinaryNode::with_children(
        1,
        Some(Box::new(BinaryNode::with_children(
            -2,
            Some(Box::new(BinaryNode::new(4))),
            Some(Box::new(BinaryNode::new(5))),
        ))),
        Some(Box::new(BinaryNode::with_children(3, Some(Box::new(BinaryNode::new(-6))), None))),
    );
    assert_eq!(prune_negative(&root), vec![1, -2, 3, -6]);
}

fn child<'a>(node: &'a FileSystemNode, name: &str) -> &'a FileSystemNode {
    node.children.iter().find(|c| c.name == name).unwrap()
}

#[test]
fn get_depth_of_sample_nodes() {
    let root = sample_filesystem();
    let documents = child(&root, "documents");
    let pictures = child(&root, "pictures");
    assert_eq!(get_depth(&root, &root), 0);
    assert_eq!(get_depth(documents, &root), 1);
    assert_eq!(get_depth(pictures, &root), 1);
    assert_eq!(get_depth(child(documents, "data.xlsx"), &root), 2);
    // only the chain of first children is searched
    assert_eq!(get_depth(child(pictures, "vacation.jpg"), &root), 3);
}

#[test]
fn filesystem_listing_in_preorder() {
    let root = sample_filesystem();
    let listing = filesystem_listing(&root);
    let expected: Vec<(usize, bool, String)> = vec![
        (0, true, "root".to_string()),
        (1, true, "documents".to_string()),
        (2, false, "report.docx".to_string()),
        (2, false, "data.xlsx".to_string()),
        (1, true, "pictures".to_string()),
        (3, false, "vacation.jpg".to_string()),
        (1, false, "config.cfg".to_string()),
    ];
    assert_eq!(listing, expected);
}

#[test]
fn files_are_not_entered() {
    let file = FileSystemNode {
        name: "notes".to_string(),
        is_directory: false,
        children: vec![FileSystemNode {
            name: "hidden".to_string(),
            is_directory: false,
            children: vec![],
        }],
    };
    assert!(file.entries().is_empty());
    let listing = filesystem_listing(&file);
    assert_eq!(listing, vec![(0, false, "notes".to_string())]);
}

#[test]
fn generate_strings_up_to_two_letters() {
    let words = arboriter::words::generate_strings(2);
    assert_eq!(words.len(), 13);
    assert_eq!(&words[..5], &["", "a", "aa", "ab", "ac"]);
    assert_eq!(words[12], "cc");
}

#[test]
fn generate_strings_empty_only() {
    assert_eq!(arboriter::words::generate_strings(0), vec![String::new()]);
}

#[test]
fn fibonacci_below_thousand() {
    let numbers = arboriter::fibonacci::fibonacci_below(1000);
    assert_eq!(numbers, vec![1, 1, 2, 3, 5, 8, 13, 21, 34, 55, 89, 144, 233, 377, 610, 987]);
}

#[test]
fn fibonacci_below_one_is_empty() {
    assert!(arboriter::fibonacci::fibonacci_below(1).is_empty());
    assert_eq!(arboriter::fibonacci::fibonacci_below(2), vec![1, 1]);
}

#[test]
fn levels_of_sample_tree() {
    let root = create_sample_tree();
    let expected = vec![(0, 1), (1, 2), (2, 4), (3, -8), (3, 9), (2, 5), (1, 3), (2, -7), (2, 6)];
    assert_eq!(arboriter::levels::levels(&root), expected);
}

#[test]
fn sample_tree_shape() {
    let root = create_sample_tree();
    let two = root.left.as_ref().unwrap();
    let four = two.left.as_ref().unwrap();
    assert_eq!((root.value, two.value, four.value), (1, 2, 4));
    let minus_eight = four.left.as_ref().unwrap();
    assert_eq!(minus_eight.value, -8);
    assert!(minus_eight.left.is_none() && minus_eight.right.is_none());
    let three = root.right.as_ref().unwrap();
    assert_eq!(three.left.as_ref().unwrap().value, -7);
    assert_eq!(three.right.as_ref().unwrap().value, 6);
}

#[test]
fn sample_filesystem_shape() {
    let root = sample_filesystem();
    let names: Vec<&str> = root.children.iter().map(|c| c.name.as_str()).collect();
    assert_eq!(names, vec!["documents", "pictures", "config.cfg"]);
    assert!(root.children[0].is_directory && root.children[1].is_directory);
    assert!(!root.children[2].is_directory);
    assert_eq!(root.children[1].children[0].name, "vacation.jpg");
}
