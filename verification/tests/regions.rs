use org_tools_core::rules::format::regions::{is_protected, protected_regions};

#[test]
fn detects_src_block() {
    let content = "text\n#+BEGIN_SRC python\ncode\n#+END_SRC\ntext";
    let regions = protected_regions(content);
    assert_eq!(regions, vec![(1, 3)]);
    assert!(!is_protected(0, &regions));
    assert!(is_protected(1, &regions));
    assert!(is_protected(2, &regions));
    assert!(is_protected(3, &regions));
    assert!(!is_protected(4, &regions));
}

#[test]
fn detects_lowercase_blocks() {
    let content = "#+begin_example\nstuff\n#+end_example";
    let regions = protected_regions(content);
    assert_eq!(regions, vec![(0, 2)]);
}

#[test]
fn multiple_blocks() {
    let content = "#+BEGIN_SRC\na\n#+END_SRC\ntext\n#+BEGIN_EXAMPLE\nb\n#+END_EXAMPLE";
    let regions = protected_regions(content);
    assert_eq!(regions, vec![(0, 2), (4, 6)]);
}

#[test]
fn no_blocks() {
    let content = "just\nplain\ntext";
    let regions = protected_regions(content);
    assert!(regions.is_empty());
}
