use snippets::procon::red_black_tree::Color;
use snippets::procon::red_black_tree::DuplicateKeyError;
use snippets::procon::red_black_tree::Node;
use snippets::procon::red_black_tree::RedBlackTree;

fn draw(tree: &RedBlackTree<String>) -> String {
    match &tree.root {
        None => "(empty)".to_owned(),
        Some(node) => draw_node(node).1.join("\n"),
    }
}

fn draw_node(node: &Node<String>) -> (usize, Vec<String>) {
    let k = node.key.to_string();
    let s = match (node.color, node.size) {
        (Color::Black, 1) => format!("({})", k),
        (Color::Red, 1) => format!("[{}]", k),
        (Color::Black, size) => format!("({} #{})", k, size),
        (Color::Red, size) => format!("[{} #{}])", k, size),
    };
    if node.left.is_none() && node.right.is_none() {
        return (s.len(), vec![s]);
    }

    let (lw, l): (usize, Vec<String>) =
        node.left.as_ref().map(|n| draw_node(n)).unwrap_or((0, vec![]));
    let (rw, r): (usize, Vec<String>) =
        node.right.as_ref().map(|n| draw_node(n)).unwrap_or((0, vec![]));

    let replicate = |n: usize, x: char| std::iter::repeat(x).take(n).collect::<String>();
    let shift = |s: &str, width: usize| {
        std::iter::repeat(' ').take(width).chain(s.chars()).collect::<String>()
    };

    let w: usize = std::cmp::max(lw + rw, s.len()) + 1;

    let root_row = shift(&s, (w - s.len()) / 2);
    let edge_row = format!(
        "{}{}{}{}",
        replicate(lw / 2, ' '),
        if !l.is_empty() { '/' } else { ' ' },
        replicate((lw + 1) / 2 + rw / 2, ' '),
        if !r.is_empty() { '\\' } else { ' ' }
    );
    let h: usize = std::cmp::max(l.len(), r.len());
    let v: Vec<String> = l
        .into_iter()
        .chain(std::iter::repeat(String::default()))
        .zip(r.into_iter().chain(std::iter::repeat(String::default())))
        .take(h)
        .map(|(ls, rs)| format!("{}{}", ls, shift(&rs, w - rw - ls.len())))
        .collect();

    let lines: Vec<String> = vec![root_row, edge_row]
        .into_iter()
        .chain(v.into_iter())
        .map(|line| line.trim_end().to_owned())
        .collect();

    (w, lines)
}

fn height(node: &Option<Box<Node<String>>>) -> usize {
    match node {
        None => 0,
        Some(n) => 1 + std::cmp::max(height(&n.left), height(&n.right)),
    }
}

fn in_order(node: &Option<Box<Node<String>>>, out: &mut Vec<(u64, String)>) {
    if let Some(n) = node {
        in_order(&n.left, out);
        out.push((n.key, n.value.clone()));
        in_order(&n.right, out);
    }
}

#[test]
fn test_draw() {
    let mut t = RedBlackTree::new();

    for n in 1..17u64 {
        t.insert(n, (('a' as u8 + n as u8) as char).to_string()).unwrap();
    }

    assert_eq!(
        r#"               (8 #16)
       /                   \
    (4 #7)             (12 #8)
   /       \        /          \
(2 #3)  (6 #3)  (10 #3)     (14 #4)
 /   \   /   \   /    \    /      \
(1) (3) (5) (7) (9) (11) (13) (15 #2)
                                 \
                                  [16]"#,
        draw(&t)
    );
}

#[test]
fn insert_two_keys_shape() {
    let mut t = RedBlackTree::new();
    t.insert(3, "b".to_string()).unwrap();
    t.insert(2, "a".to_string()).unwrap();
    let root = t.root.as_ref().unwrap();
    assert_eq!(root.key, 3);
    assert_eq!(root.color, Color::Black);
    assert_eq!(root.value, "b");
    let left = root.left.as_ref().unwrap();
    assert_eq!(left.key, 2);
    assert_eq!(left.color, Color::Red);
    assert_eq!(left.value, "a");
    assert!(root.right.is_none());
    assert_eq!(t.size(), 2);
}

#[test]
fn ascending_inserts_stay_balanced() {
    let mut t = RedBlackTree::new();
    for n in 1..=16u64 {
        t.insert(n, n.to_string()).unwrap();
    }
    assert_eq!(t.size(), 16);
    assert!(height(&t.root) <= 5);
}

#[test]
fn fresh_tree_is_empty() {
    let mut t: RedBlackTree<String> = RedBlackTree::new();
    assert!(t.is_empty());
    assert_eq!(t.size(), 0);
    t.insert(7, "x".to_string()).unwrap();
    assert!(!t.is_empty());
    assert_eq!(t.size(), 1);
}

#[test]
fn duplicate_insert_changes_nothing() {
    let mut t = RedBlackTree::new();
    for &k in &[5u64, 2, 8, 1, 9, 3] {
        t.insert(k, format!("v{}", k)).unwrap();
    }
    let before_draw = draw(&t);
    let mut before_entries: Vec<(u64, String)> = Vec::new();
    in_order(&t.root, &mut before_entries);

    let res = t.insert(8, "other".to_string());
    assert_eq!(res, Err(DuplicateKeyError));
    assert_eq!(t.size(), 6);
    assert_eq!(draw(&t), before_draw);

    let mut after_entries: Vec<(u64, String)> = Vec::new();
    in_order(&t.root, &mut after_entries);
    assert_eq!(after_entries, before_entries);
    let keys: Vec<u64> = after_entries.iter().map(|p| p.0).collect();
    assert_eq!(keys, vec![1, 2, 3, 5, 8, 9]);
}

#[test]
fn size_counts_distinct_inserts() {
    let mut t = RedBlackTree::new();
    let keys = [10u64, 4, 17, 1, 6, 12, 25, 3, 5, 20];
    for (i, &k) in keys.iter().enumerate() {
        t.insert(k, i.to_string()).unwrap();
        assert_eq!(t.size(), i + 1);
    }
}

#[test]
fn in_order_keys_sorted_after_mixed_inserts() {
    let mut t = RedBlackTree::new();
    for &k in &[13u64, 7, 21, 3, 9, 17, 27, 1, 5, 8, 11] {
        t.insert(k, k.to_string()).unwrap();
    }
    let mut entries: Vec<(u64, String)> = Vec::new();
    in_order(&t.root, &mut entries);
    let keys: Vec<u64> = entries.iter().map(|p| p.0).collect();
    assert_eq!(keys, vec![1, 3, 5, 7, 8, 9, 11, 13, 17, 21, 27]);
    let values: Vec<String> = entries.iter().map(|p| p.1.clone()).collect();
    let expected: Vec<String> = keys.iter().map(|k| k.to_string()).collect();
    assert_eq!(values, expected);
}
