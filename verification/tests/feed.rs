use blog_core::feed::render_feed;
use blog_core::post::Post;
use blog_core::ts::{Timestamp, TzOffset};
use blog_core::tz::resolve_timezone;

fn ts(year: u16, month: u8, day: u8, hour: u8) -> Timestamp {
    Timestamp {
        year,
        month,
        day,
        hour,
        minute: 30,
        second: 0,
        frac_len: 0,
        frac_val: 0,
        offset: TzOffset::Zulu,
    }
}

fn post(title: &str, slug: &str, publish_at: Timestamp, tags: &[&str]) -> Post {
    Post {
        title: String::from(title),
        body: String::from("body"),
        image_url: String::from("/assets/img.png"),
        summary: String::from("summary"),
        publish_at,
        tags: tags.iter().map(|t| String::from(*t)).collect(),
        slug: String::from(slug),
    }
}

// 2024-01-15T10:30:00Z.
const NOW: i64 = 1705314600;

#[test]
fn future_posts_are_excluded_whatever_the_filter() {
    let posts = vec![
        post("past", "past", ts(2024, 1, 1, 0), &["software"]),
        post("future", "future", ts(2025, 1, 1, 0), &["software"]),
    ];
    let utc = resolve_timezone(None, None);
    let all = render_feed(&posts, NOW, &utc, None);
    assert_eq!(all.len(), 1);
    assert_eq!(all[0].title, "past");
    let tag = String::from("software");
    let filtered = render_feed(&posts, NOW, &utc, Some(&tag));
    assert_eq!(filtered.len(), 1);
    assert_eq!(filtered[0].title, "past");
}

#[test]
fn publish_gate_includes_the_exact_instant() {
    let posts = vec![post("now", "now", ts(2024, 1, 15, 10), &[])];
    let utc = resolve_timezone(None, None);
    // publish_at == now: not strictly in the future, so it is shown.
    let out = render_feed(&posts, NOW, &utc, None);
    assert_eq!(out.len(), 1);
    let out = render_feed(&posts, NOW - 1, &utc, None);
    assert_eq!(out.len(), 0);
}

#[test]
fn tag_filter_selects_exactly_the_tagged_posts() {
    let posts = vec![
        post("a", "a", ts(2024, 1, 1, 0), &["software", "science"]),
        post("b", "b", ts(2024, 1, 2, 0), &["hardware"]),
        post("c", "c", ts(2024, 1, 3, 0), &["software"]),
    ];
    let utc = resolve_timezone(None, None);
    let tag = String::from("software");
    let filtered = render_feed(&posts, NOW, &utc, Some(&tag));
    let titles: Vec<&str> = filtered.iter().map(|v| v.title.as_str()).collect();
    assert_eq!(titles, vec!["a", "c"]);
    // The filtered feed is a subset of the unfiltered one, in order.
    let all = render_feed(&posts, NOW, &utc, None);
    let all_titles: Vec<&str> = all.iter().map(|v| v.title.as_str()).collect();
    assert_eq!(all_titles, vec!["a", "b", "c"]);
    // Case-sensitive exact match only.
    let tag = String::from("Software");
    assert_eq!(render_feed(&posts, NOW, &utc, Some(&tag)).len(), 0);
}

#[test]
fn feed_end_to_end_with_tags_and_future_post() {
    let posts = vec![
        post("tagged", "tagged-post", ts(2024, 1, 1, 0), &["software"]),
        post("scheduled", "scheduled", ts(2025, 1, 15, 10), &[]),
    ];
    let utc = resolve_timezone(None, None);
    let software = String::from("software");
    let hardware = String::from("hardware");
    let with_software = render_feed(&posts, NOW, &utc, Some(&software));
    assert_eq!(with_software.len(), 1);
    assert_eq!(with_software[0].title, "tagged");
    assert_eq!(with_software[0].link, "/post/tagged-post");
    let with_hardware = render_feed(&posts, NOW, &utc, Some(&hardware));
    assert_eq!(with_hardware.len(), 0);
    // A post a year in the future never shows without a filter either.
    let unfiltered = render_feed(&posts, NOW, &utc, None);
    assert_eq!(unfiltered.len(), 1);
    assert_eq!(unfiltered[0].title, "tagged");
}

#[test]
fn feed_formats_instants_in_the_viewer_zone() {
    let posts = vec![post("p", "p", ts(2024, 1, 15, 10), &[])];
    let ny = resolve_timezone(Some("America/New_York"), None);
    let out = render_feed(&posts, NOW, &ny, None);
    assert_eq!(out[0].formatted_time, "Jan 15, 2024 5:30 AM EST");
    let utc = resolve_timezone(None, None);
    let out = render_feed(&posts, NOW, &utc, None);
    assert_eq!(out[0].formatted_time, "Jan 15, 2024 10:30 AM UTC");
    // The stored instant itself is untouched.
    assert_eq!(posts[0].publish_at.epoch_seconds(), NOW);
}
