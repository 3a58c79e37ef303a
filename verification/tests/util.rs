use tush::util::bytes::same_bytes;
use tush::util::graph::DependencyGraph;
use tush::util::ring::LocalRingBuffer;
use tush::util::text::{
    contains_char, copy_texts, decimal, find_char, one_char, owned, same_text, split_once,
    strip_suffix, trim,
};
use tush::util::utf8::{floor_char_boundary, is_partial, scalar_width, utf8_width};

fn graph(nodes: &[usize], edges: &[(usize, usize)]) -> DependencyGraph {
    let mut graph = DependencyGraph::new();
    for node in nodes {
        graph.insert(*node);
    }
    for (from, to) in edges {
        graph.add_dependency(*from, *to);
    }
    graph
}

/// Everything comes after what it depends on, and otherwise as it was added.
#[test]
fn an_order_puts_dependencies_first() {
    let graph = graph(&[1, 2, 3, 4], &[(1, 3), (3, 4), (2, 4)]);
    let all = graph.resolve();
    assert_eq!(all.order(), &[4, 2, 3, 1]);
    assert!(all.cycles().is_empty());
    assert_eq!(graph.resolve_from_many(&[3]).order(), &[4, 3]);
    assert_eq!(graph.resolve_from_many(&[2, 3]).order(), &[4, 2, 3]);
    assert!(graph.resolve_from_many(&[9]).order().is_empty());
    assert_eq!(graph.dependencies(1), [3]);
    assert!(graph.dependencies(4).is_empty());
    assert!(graph.contains(2) && !graph.contains(9));
}

/// What is in a circle is left out of the order, and so is what needs it.
#[test]
fn a_circle_is_reported_and_not_placed() {
    let graph = graph(&[1, 2, 3, 4, 5], &[(1, 2), (2, 1), (3, 1), (5, 5)]);
    let all = graph.resolve();
    assert_eq!(all.order(), &[4]);
    assert_eq!(all.cycles(), &[vec![1, 2], vec![5]]);
}

#[test]
fn a_node_or_an_edge_is_added_once() {
    let graph = graph(&[1, 1, 2], &[(1, 2), (1, 2)]);
    assert_eq!(graph.dependencies(1), [2]);
    assert_eq!(graph.resolve().order(), &[2, 1]);
}

#[test]
fn a_ring_keeps_the_newest() {
    let mut ring = LocalRingBuffer::new(3);
    assert!(ring.is_empty());
    for n in 0..3 {
        assert_eq!(ring.push(n), None);
    }
    assert_eq!(ring.push(3), Some(0));
    assert_eq!((0..ring.len()).map(|n| *ring.get(n)).collect::<Vec<_>>(), [1, 2, 3]);
    ring.set_capacity(2);
    assert_eq!((0..ring.len()).map(|n| *ring.get(n)).collect::<Vec<_>>(), [2, 3]);
    ring.set_capacity(9);
    assert_eq!((ring.capacity(), ring.max_capacity()), (3, 3));
    ring.clear();
    assert_eq!(ring.len(), 0);
}

#[test]
fn text_is_taken_apart() {
    assert!(same_text("olá", "olá") && !same_text("olá", "ola"));
    assert!(same_bytes(b"ab", b"ab") && !same_bytes(b"ab", b"abc"));
    assert_eq!(find_char("olá!", '!'), Some(3));
    assert_eq!(find_char("olá", '!'), None);
    assert!(contains_char("a:b", ':') && !contains_char("ab", ':'));
    assert_eq!(split_once("á:b:c", ':'), Some(("á", "b:c")));
    assert_eq!(split_once("abc", ':'), None);
    assert_eq!(strip_suffix("100ms", "ms"), Some("100"));
    assert_eq!(strip_suffix("100", "ms"), None);
    assert_eq!(strip_suffix("s", "ms"), None);
    assert_eq!(trim(" \u{3000}a b\t\n"), "a b");
    assert_eq!(trim("  "), "");
    assert_eq!(decimal(0), "0");
    assert_eq!(decimal(10203), "10203");
    assert_eq!(decimal(usize::MAX), usize::MAX.to_string());
    assert_eq!(one_char('á'), "á");
    assert_eq!(owned("a"), "a".to_string());
    assert_eq!(copy_texts(&vec!["a".to_string()]), ["a"]);
}

#[test]
fn a_character_is_measured_by_its_bytes() {
    assert_eq!(utf8_width(b'a'), 1);
    assert_eq!(utf8_width(0xc3), 2);
    assert_eq!(utf8_width(0xe2), 3);
    assert_eq!(utf8_width(0xf0), 4);
    assert_eq!(utf8_width(0x80), 0);
    assert_eq!(utf8_width(0xff), 0);
    assert_eq!(scalar_width("á!".as_bytes()), 2);
    assert_eq!(scalar_width(b"\xc3"), 0);
    assert_eq!(scalar_width(b"\xc3("), 0);
    assert_eq!(scalar_width(b"\xed\xa0\x80"), 0, "a surrogate is no character");
    assert!(is_partial(b"\xe2\x82"));
    assert!(!is_partial("á".as_bytes()));
    assert!(!is_partial(b"\xff"));
    assert_eq!(floor_char_boundary("aá".as_bytes(), 2), 1);
    assert_eq!(floor_char_boundary("aá".as_bytes(), 3), 3);
    assert_eq!(floor_char_boundary("aá".as_bytes(), 9), 3);
}
