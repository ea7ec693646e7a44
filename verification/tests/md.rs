use blog_core::md::{html_escape, render_post_html};
use blog_core::post::Post;
use blog_core::ts::{Timestamp, TzOffset};
use blog_core::tz::resolve_timezone;

#[test]
fn html_escape_neutralises_markup() {
    assert_eq!(html_escape("a < b & c > \"d\""), "a &lt; b &amp; c &gt; &quot;d&quot;");
    assert_eq!(html_escape("plain text"), "plain text");
}

#[test]
fn post_page_renders_markdown_and_escapes_the_title() {
    let post = Post {
        title: String::from("Tags <& done>"),
        body: String::from("# Heading\n\nA *paragraph*."),
        image_url: String::new(),
        summary: String::new(),
        publish_at: Timestamp {
            year: 2024,
            month: 1,
            day: 15,
            hour: 10,
            minute: 30,
            second: 0,
            frac_len: 0,
            frac_val: 0,
            offset: TzOffset::Zulu,
        },
        tags: vec![],
        slug: String::from("tags"),
    };
    let utc = resolve_timezone(None, None);
    let html = render_post_html(&post, &utc);
    // The Markdown went through a real renderer, not through an echo.
    assert!(html.contains("<h1>Heading</h1>"), "html: {}", html);
    assert!(html.contains("<em>paragraph</em>"), "html: {}", html);
    assert!(!html.contains("# Heading"), "html: {}", html);
    // The title is escaped text.
    assert!(html.contains("Tags &lt;&amp; done&gt;"), "html: {}", html);
    // The formatted instant appears.
    assert!(html.contains("Jan 15, 2024 10:30 AM UTC"), "html: {}", html);
}
