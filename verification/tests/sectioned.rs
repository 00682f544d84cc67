use rs_pider::meta::SitemapRef;
use rs_pider::sectioned_list::{Backing, SectionedList};

fn entry(loc: &str) -> SitemapRef {
    SitemapRef::new(String::from(loc))
}

#[test]
fn test_sectioned_something() {}

#[test]
fn push_and_len() {
    let mut q = SectionedList::new();
    assert!(q.is_empty());
    assert!(!q.has_main());
    assert!(!q.has_stale());
    assert_eq!(q.len(), 0);

    assert!(q.push_main(entry("https://example.com/a.xml")));
    assert!(q.push_main(entry("https://example.com/b.xml")));
    assert!(!q.is_empty());
    assert!(q.has_main());
    assert_eq!(q.len(), 2);
    assert_eq!(
        q.peek_main().unwrap().location.as_str(),
        "https://example.com/a.xml"
    );
}

#[test]
fn dedup_within_section() {
    let mut q = SectionedList::new();
    assert!(q.push_main(entry("https://example.com/a.xml")));
    assert!(!q.push_main(entry("https://example.com/a.xml")));
    assert!(q.push_main(entry("https://example.com/b.xml")));
    assert!(!q.push_main(entry("https://example.com/a.xml")));
    assert_eq!(q.len(), 2);
}

#[test]
fn dedup_across_sections() {
    let mut q = SectionedList::new();
    assert!(q.push_main(entry("https://example.com/a.xml")));
    q.skip_main();
    assert!(!q.has_main());
    assert!(q.has_stale());
    // the key is in the stale section now, and still blocks insertion
    assert!(!q.push_main(entry("https://example.com/a.xml")));
    assert_eq!(q.len(), 0);
    assert_eq!(q.stale_len(), 1);
}

#[test]
fn dedup_after_consume() {
    let mut q = SectionedList::new();
    assert!(q.push_main(entry("https://example.com/a.xml")));
    q.consume_main();
    assert!(!q.has_main());
    assert!(!q.has_stale());
    // a consumed entry stays in the arena and still blocks duplicates
    assert!(!q.push_main(entry("https://example.com/a.xml")));
    assert!(!q.is_empty());
}

#[test]
fn skip_moves_front_to_stale() {
    let mut q = SectionedList::new();
    q.push_main(entry("https://example.com/a.xml"));
    q.push_main(entry("https://example.com/b.xml"));
    q.skip_main();
    assert_eq!(q.len(), 1);
    assert_eq!(q.stale_len(), 1);
    assert_eq!(
        q.peek_main().unwrap().location.as_str(),
        "https://example.com/b.xml"
    );
}

#[test]
fn merge_preserves_order() {
    let mut q = SectionedList::new();
    q.push_main(entry("https://example.com/a.xml"));
    q.push_main(entry("https://example.com/b.xml"));
    q.push_main(entry("https://example.com/c.xml"));
    // park a, then b, in the stale section
    q.skip_main();
    q.skip_main();
    assert_eq!(q.len(), 1);
    assert_eq!(q.stale_len(), 2);
    // merge splices the stale entries after the main ones, in order:
    // main becomes c, a, b
    q.merge();
    assert_eq!(q.len(), 3);
    assert_eq!(q.stale_len(), 0);
    assert_eq!(
        q.peek_main().unwrap().location.as_str(),
        "https://example.com/c.xml"
    );
    q.consume_main();
    assert_eq!(
        q.peek_main().unwrap().location.as_str(),
        "https://example.com/a.xml"
    );
    q.consume_main();
    assert_eq!(
        q.peek_main().unwrap().location.as_str(),
        "https://example.com/b.xml"
    );
}

#[test]
fn cyclic_advance_returns_to_origin() {
    // an entry advanced through all N sections of a backing queue comes
    // back to its original section with its payload intact
    let n: usize = 3;
    let mut b = Backing::new(n);
    b.push(entry("https://example.com/x.xml"));
    assert!(b.check_section(0));
    let mut current: usize = 0;
    for _ in 0..n {
        b.advance_section(current);
        current = if current + 1 == n { 0 } else { current + 1 };
    }
    assert_eq!(current, 0);
    assert!(b.check_section(0));
    assert!(!b.check_section(1));
    assert!(!b.check_section(2));
    assert_eq!(
        b.peek_section(0).unwrap().location.as_str(),
        "https://example.com/x.xml"
    );
    assert_eq!(b.len(), 1);
}

#[test]
fn backing_advance_rotates_front() {
    let mut b = Backing::new(2);
    b.push(entry("https://example.com/a.xml"));
    b.push(entry("https://example.com/b.xml"));
    b.advance(); // a moves to section 1
    assert_eq!(
        b.peek_section(0).unwrap().location.as_str(),
        "https://example.com/b.xml"
    );
    assert_eq!(
        b.peek_section(1).unwrap().location.as_str(),
        "https://example.com/a.xml"
    );
    assert_eq!(b.section_len(0), 1);
    assert_eq!(b.section_len(1), 1);
}

#[test]
fn backing_merge_sections_order() {
    let mut b = Backing::new(2);
    b.push(entry("https://example.com/a.xml"));
    b.push(entry("https://example.com/b.xml"));
    b.push(entry("https://example.com/c.xml"));
    b.advance(); // a -> section 1
    b.advance(); // b -> section 1
    b.merge_sections(0, 1);
    assert!(!b.check_section(1));
    assert_eq!(b.section_len(0), 3);
    // order: c (stayed), then a, b (spliced after, original order kept)
    assert_eq!(
        b.peek_section(0).unwrap().location.as_str(),
        "https://example.com/c.xml"
    );
}
