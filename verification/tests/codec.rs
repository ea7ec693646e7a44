use blog_core::post::{load_post, serialize_post, stem, FileRead, Post};
use blog_core::PostError;
use blog_core::ts::{Timestamp, TzOffset};

fn sample_ts() -> Timestamp {
    Timestamp {
        year: 2024,
        month: 1,
        day: 15,
        hour: 10,
        minute: 30,
        second: 0,
        frac_len: 0,
        frac_val: 0,
        offset: TzOffset::Zulu,
    }
}

fn sample_post() -> Post {
    Post {
        title: String::from("First \"post\" <here>"),
        body: String::from("# Heading\n\nSome *text* with a \\ backslash."),
        image_url: String::from("/assets/cover.png"),
        summary: String::from("A short teaser"),
        publish_at: sample_ts(),
        tags: vec![String::from("software"), String::from("science")],
        slug: String::new(),
    }
}

#[test]
fn roundtrip_preserves_every_field_but_slug() {
    let post = sample_post();
    let json = serialize_post(&post);
    let loaded = load_post("first-post.json", &FileRead::Content(json)).unwrap();
    assert_eq!(loaded.title, post.title);
    assert_eq!(loaded.body, post.body);
    assert_eq!(loaded.image_url, post.image_url);
    assert_eq!(loaded.summary, post.summary);
    assert_eq!(loaded.publish_at, post.publish_at);
    assert_eq!(loaded.tags, post.tags);
    assert_eq!(loaded.slug, "first-post");
}

#[test]
fn roundtrip_keeps_fractional_seconds_and_offset() {
    let mut post = sample_post();
    post.publish_at = Timestamp {
        year: 1999,
        month: 12,
        day: 31,
        hour: 23,
        minute: 59,
        second: 59,
        frac_len: 3,
        frac_val: 50,
        offset: TzOffset::Minus { hours: 5, minutes: 30 },
    };
    let json = serialize_post(&post);
    assert!(json.contains("1999-12-31T23:59:59.050-05:30"));
    let loaded = load_post("y2k.json", &FileRead::Content(json)).unwrap();
    assert_eq!(loaded.publish_at, post.publish_at);
}

#[test]
fn parse_accepts_whitespace_field_order_and_unknown_members() {
    let json = r#" {
        "tags" : [ "a" , "b" ],
        "timestamp": "2024-01-15T10:30:00Z",
        "url_name": "ignored-name",
        "summary": "s",
        "extra": { "nested": [1, true, null, {"deep": "x"}] },
        "body": "b",
        "image_url": "i",
        "title": "t"
    } "#;
    let loaded = load_post("real.json", &FileRead::Content(String::from(json))).unwrap();
    assert_eq!(loaded.title, "t");
    assert_eq!(loaded.tags, vec![String::from("a"), String::from("b")]);
    assert_eq!(loaded.slug, "real");
}

#[test]
fn parse_decodes_escapes() {
    let json = r#"{"title":"a\"b\\c\ndAe","body":"b","image_url":"i","summary":"s","timestamp":"2024-01-15T10:30:00Z","tags":[]}"#;
    let loaded = load_post("esc.json", &FileRead::Content(String::from(json))).unwrap();
    assert_eq!(loaded.title, "a\"b\\c\ndAe");
    let json = r#"{"title":"a\u0041b \u00e9","body":"b","image_url":"i","summary":"s","timestamp":"2024-01-15T10:30:00Z","tags":[]}"#;
    let loaded = load_post("u.json", &FileRead::Content(String::from(json))).unwrap();
    assert_eq!(loaded.title, "aAb \u{00e9}");
}

#[test]
fn traversal_identifier_is_not_found() {
    let json = serialize_post(&sample_post());
    let r = load_post("../secrets.json", &FileRead::Content(json));
    assert_eq!(r.unwrap_err(), PostError::NotFound);
}

#[test]
fn missing_file_is_not_found_and_io_failure_is_upstream() {
    assert_eq!(load_post("a.json", &FileRead::Missing).unwrap_err(), PostError::NotFound);
    assert_eq!(load_post("a.json", &FileRead::Failed).unwrap_err(), PostError::UpstreamIo);
}

#[test]
fn malformed_content_is_reported() {
    let cases = [
        "not json at all",
        "{}",
        r#"{"title":"t"}"#,
        // Empty titles are refused: a record must have a display string.
        r#"{"title":"","body":"b","image_url":"i","summary":"s","timestamp":"2024-01-15T10:30:00Z","tags":[]}"#,
        // A timestamp that is not an instant.
        r#"{"title":"t","body":"b","image_url":"i","summary":"s","timestamp":"2024-13-15T10:30:00Z","tags":[]}"#,
        r#"{"title":"t","body":"b","image_url":"i","summary":"s","timestamp":"2024-02-30T10:30:00Z","tags":[]}"#,
        // Trailing garbage after the record.
        r#"{"title":"t","body":"b","image_url":"i","summary":"s","timestamp":"2024-01-15T10:30:00Z","tags":[]} x"#,
        // A tag that is not a string.
        r#"{"title":"t","body":"b","image_url":"i","summary":"s","timestamp":"2024-01-15T10:30:00Z","tags":[1]}"#,
        // Surrogate escapes are refused.
        r#"{"title":"\ud834x","body":"b","image_url":"i","summary":"s","timestamp":"2024-01-15T10:30:00Z","tags":[]}"#,
    ];
    for c in cases.iter() {
        let r = load_post("x.json", &FileRead::Content(String::from(*c)));
        assert_eq!(r.unwrap_err(), PostError::MalformedContent, "case: {}", c);
    }
}

#[test]
fn leap_year_dates_parse() {
    let json = r#"{"title":"t","body":"b","image_url":"i","summary":"s","timestamp":"2024-02-29T00:00:00Z","tags":[]}"#;
    assert!(load_post("x.json", &FileRead::Content(String::from(json))).is_ok());
    let json = r#"{"title":"t","body":"b","image_url":"i","summary":"s","timestamp":"2023-02-29T00:00:00Z","tags":[]}"#;
    assert!(load_post("x.json", &FileRead::Content(String::from(json))).is_err());
}

#[test]
fn epoch_seconds_match_known_instants() {
    assert_eq!(sample_ts().epoch_seconds(), 1705314600);
    let epoch_start = Timestamp {
        year: 1970,
        month: 1,
        day: 1,
        hour: 0,
        minute: 0,
        second: 0,
        frac_len: 0,
        frac_val: 0,
        offset: TzOffset::Zulu,
    };
    assert_eq!(epoch_start.epoch_seconds(), 0);
    let offset_east = Timestamp {
        year: 2024,
        month: 1,
        day: 15,
        hour: 10,
        minute: 30,
        second: 0,
        frac_len: 0,
        frac_val: 0,
        offset: TzOffset::Plus { hours: 5, minutes: 30 },
    };
    assert_eq!(offset_east.epoch_seconds(), 1705314600 - 5 * 3600 - 30 * 60);
}

#[test]
fn stem_strips_one_json_extension() {
    assert_eq!(stem("hello.json"), "hello");
    assert_eq!(stem("hello"), "hello");
    assert_eq!(stem("a.json.json"), "a.json");
    assert_eq!(stem("nested.tar"), "nested.tar");
}
