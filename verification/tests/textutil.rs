use rustlab::text::greet;
use rustlab::text::markdown_to_html;
use rustlab::text::slugify;

#[test]
fn test_slugify() {
    assert_eq!(slugify("Hello World"), "hello-world");
    assert_eq!(slugify("Rust Programming!"), "rust-programming");
    assert_eq!(slugify("Test-123"), "test-123");
}

#[test]
fn slugify_collapses_runs_and_trims() {
    assert_eq!(slugify("  A  lot   of---punct!!  "), "a-lot-of-punct");
    assert_eq!(slugify(""), "");
    assert_eq!(slugify("!!!"), "");
}

#[test]
fn test_greet() {
    assert_eq!(greet("Alice"), "Hello, Alice!");
    assert_eq!(greet("Bob"), "Hello, Bob!");
}

#[test]
fn test_greet_empty() {
    assert_eq!(greet(""), "Hello, !");
}

#[test]
fn test_markdown_to_html() {
    let md = "# Hello\n\nThis is **bold** text.";
    let html = markdown_to_html(md);
    assert!(html.contains("<h1>"));
    assert!(html.contains("<strong>"));
}
