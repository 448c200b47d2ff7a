use post_service::sorting::sort_posts;
use post_service::{
    CategorySource, FilterTag, Post, PostFile, PostInput, PostMetadata, PostsContainer, PostsError,
};

fn post(pined: bool, date: &str, filename: &str) -> Post {
    Post {
        metadata: PostMetadata { pined },
        raw_content: String::from("raw"),
        desc: String::from("desc"),
        modified_time: String::from(date),
        filename: String::from(filename),
    }
}

fn input(pined: bool, filename: &str, content: &str, modified_time: u64) -> PostInput {
    PostInput {
        file: PostFile {
            filename: String::from(filename),
            content: String::from(content),
            modified_time,
        },
        metadata: Some(PostMetadata { pined }),
    }
}

fn source(key: &str, posts: Vec<PostInput>) -> CategorySource {
    CategorySource {
        key: String::from(key),
        posts,
    }
}

#[test]
fn sort_puts_pinned_first() {
    let v = vec![
        post(false, "Mon, Apr  1 2024", "u1"),
        post(true, "Tue, Apr  2 2024", "p1"),
        post(false, "Mon, Apr  1 2024", "u2"),
        post(true, "Mon, Apr  1 2024", "p2"),
    ];
    let sorted = sort_posts(&v);
    let pinned: Vec<bool> = sorted.iter().map(|p| p.metadata.pined).collect();
    assert_eq!(pinned, vec![true, true, false, false]);
}

#[test]
fn sort_orders_by_formatted_date_within_pin_class() {
    let v = vec![
        post(false, "Tue, Apr  2 2024", "b"),
        post(false, "Mon, Apr  1 2024", "a"),
    ];
    let sorted = sort_posts(&v);
    assert_eq!(sorted[0].filename, "a");
    assert_eq!(sorted[1].filename, "b");
}

#[test]
fn sort_is_stable_on_ties() {
    let v = vec![
        post(false, "Mon, Apr  1 2024", "first"),
        post(true, "Mon, Apr  1 2024", "pin-first"),
        post(false, "Mon, Apr  1 2024", "second"),
        post(true, "Mon, Apr  1 2024", "pin-second"),
        post(false, "Mon, Apr  1 2024", "third"),
    ];
    let sorted = sort_posts(&v);
    let names: Vec<&str> = sorted.iter().map(|p| p.filename.as_str()).collect();
    assert_eq!(
        names,
        vec!["pin-first", "pin-second", "first", "second", "third"]
    );
}

#[test]
fn epoch_timestamp_formats_to_epoch_date() {
    let inp = input(false, "epoch.md", "hello", 0);
    let p = post_service::post::derive_post(&inp).unwrap();
    assert_eq!(p.modified_time, "Thu, Jan  1 1970");
}

#[test]
fn milliseconds_truncate_to_seconds_before_formatting() {
    // 999 ms is still within the epoch second
    let p = post_service::post::derive_post(&input(false, "f.md", "x", 999)).unwrap();
    assert_eq!(p.modified_time, "Thu, Jan  1 1970");
}

#[test]
fn derive_post_keeps_raw_content_and_filename() {
    let inp = input(true, "a.md", "line one\nline `two`", 1700000000000);
    let p = post_service::post::derive_post(&inp).unwrap();
    assert_eq!(p.raw_content, "line one\nline `two`");
    assert_eq!(p.filename, "a.md");
    assert_eq!(p.desc, "line oneline ");
    assert!(p.metadata.pined);
    assert_eq!(p.modified_time, "Tue, Nov 14 2023");
}

#[test]
fn derive_post_without_metadata_fails() {
    let mut inp = input(false, "bare.md", "no front matter", 0);
    inp.metadata = None;
    let e = post_service::post::derive_post(&inp).unwrap_err();
    assert_eq!(e, PostsError::MissingMetadata(String::from("bare.md")));
}

#[test]
fn end_to_end_blog_category() {
    let body_a = "x".repeat(700);
    let body_b = "y".repeat(50);
    let sources = vec![source(
        "blog",
        vec![
            input(true, "a.md", &body_a, 1700000000000),
            input(false, "b.md", &body_b, 1600000000000),
        ],
    )];
    let container = PostsContainer::new(sources).unwrap();
    let posts = container.get_posts_by_key(String::from("blog"));
    assert_eq!(posts.len(), 2);
    assert_eq!(posts[0].filename, "a.md");
    assert_eq!(posts[1].filename, "b.md");
    assert_eq!(posts[0].desc.len(), 600);
    assert_eq!(posts[0].desc, "x".repeat(600));
    assert_eq!(posts[1].desc, body_b);
    assert_eq!(posts[0].modified_time, "Tue, Nov 14 2023");
    assert_eq!(posts[1].modified_time, "Sun, Sep 13 2020");
}

#[test]
fn absent_key_is_reported() {
    let container = PostsContainer::new(vec![source("blog", vec![])]).unwrap();
    let e = container
        .try_get_posts_by_key(String::from("missing"))
        .unwrap_err();
    assert_eq!(e, PostsError::UnknownKey(String::from("missing")));
}

#[test]
fn missing_metadata_fails_the_whole_build() {
    let mut bad = input(false, "bad.md", "text", 0);
    bad.metadata = None;
    let sources = vec![
        source("ok", vec![input(false, "fine.md", "text", 0)]),
        source("broken", vec![input(false, "fine2.md", "text", 0), bad]),
    ];
    let e = PostsContainer::new(sources).unwrap_err();
    assert_eq!(e, PostsError::MissingMetadata(String::from("bad.md")));
}

#[test]
fn later_source_with_same_key_replaces_the_earlier() {
    let sources = vec![
        source("blog", vec![input(false, "old.md", "old", 0)]),
        source("notes", vec![input(false, "note.md", "note", 0)]),
        source("blog", vec![input(false, "new.md", "new", 0)]),
    ];
    let container = PostsContainer::new(sources).unwrap();
    let posts = container.get_posts_by_key(String::from("blog"));
    assert_eq!(posts.len(), 1);
    assert_eq!(posts[0].filename, "new.md");
}

#[test]
fn get_posts_concatenates_all_categories() {
    let sources = vec![
        source("a", vec![input(false, "a1.md", "1", 0), input(false, "a2.md", "2", 0)]),
        source("b", vec![input(false, "b1.md", "3", 0)]),
    ];
    let container = PostsContainer::new(sources).unwrap();
    let all = container.get_posts();
    let names: Vec<&str> = all.iter().map(|p| p.filename.as_str()).collect();
    assert_eq!(names, vec!["a1.md", "a2.md", "b1.md"]);
}

#[test]
fn empty_container_has_no_posts() {
    let container = PostsContainer::new(vec![]).unwrap();
    assert!(container.get_posts().is_empty());
}

#[test]
fn sort_of_empty_and_singleton() {
    assert!(sort_posts(&vec![]).is_empty());
    let one = vec![post(true, "Thu, Jan  1 1970", "only")];
    let sorted = sort_posts(&one);
    assert_eq!(sorted.len(), 1);
    assert_eq!(sorted[0].filename, "only");
}

#[test]
fn filter_tag_variants() {
    let all = FilterTag::All;
    let tag = FilterTag::Tag(String::from("rust"));
    assert!(matches!(all, FilterTag::All));
    match tag {
        FilterTag::Tag(t) => assert_eq!(t, "rust"),
        FilterTag::All => panic!("expected a tag"),
    }
}
