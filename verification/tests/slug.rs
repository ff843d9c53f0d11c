use dioxus_press::slug::{slugify, SlugAllocator};

#[test]
fn slugify_strips_punctuation_and_case() {
    assert_eq!(slugify("Hello, World!"), "hello-world");
    assert_eq!(slugify("  spaced  out  "), "spaced-out");
    assert_eq!(slugify("!!!"), "section");
}

#[test]
fn allocator_dedupes() {
    let mut alloc = SlugAllocator::default();
    assert_eq!(alloc.allocate("Example"), "example");
    assert_eq!(alloc.allocate("Example"), "example-1");
    assert_eq!(alloc.allocate("Example"), "example-2");
}

#[test]
fn slugs_never_end_with_a_dash() {
    for text in ["a-", "x!!", "Ends in space ", "--", "é-"] {
        let slug = slugify(text);
        assert!(!slug.is_empty());
        assert!(!slug.ends_with('-'), "{slug}");
    }
}

#[test]
fn different_texts_count_separately() {
    let mut alloc = SlugAllocator::new();
    assert_eq!(alloc.allocate("One"), "one");
    assert_eq!(alloc.allocate("Two"), "two");
    assert_eq!(alloc.allocate("one"), "one-1");
}

#[test]
fn allocated_slugs_are_unique_within_a_page() {
    let mut alloc = SlugAllocator::default();
    assert_eq!(alloc.allocate("Example"), "example");
    assert_eq!(alloc.allocate("Example"), "example-1");
    assert_eq!(alloc.allocate("Example 1"), "example-1-1");
    assert_eq!(alloc.allocate("Example"), "example-2");
}

#[test]
fn numbering_skips_taken_slugs() {
    let mut alloc = SlugAllocator::default();
    assert_eq!(alloc.allocate("a 1"), "a-1");
    assert_eq!(alloc.allocate("a"), "a");
    assert_eq!(alloc.allocate("a"), "a-2");
}

#[test]
fn ascii_slugs_are_lowercase_words_joined_by_single_dashes() {
    for text in ["Hello, World!", "  --Lead and trail--  ", "A  B__C", "x1 - y2"] {
        let slug = slugify(text);
        assert!(!slug.is_empty());
        assert!(slug.chars().all(|c| c.is_ascii_lowercase() || c.is_ascii_digit() || c == '-'));
        assert!(!slug.starts_with('-') && !slug.ends_with('-') && !slug.contains("--"));
        assert_eq!(slugify(&slug), slug);
    }
}
