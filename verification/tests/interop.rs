use blog_core::post::{load_post, serialize_post, FileRead, Post};
use blog_core::ts::{Timestamp, TzOffset};

fn sample() -> Post {
    Post {
        title: String::from("Inter \"op\" \u{00e9}\n"),
        body: String::from("line one\nline two \\ end"),
        image_url: String::from("/assets/x.png"),
        summary: String::from("short"),
        publish_at: Timestamp {
            year: 2024,
            month: 6,
            day: 1,
            hour: 12,
            minute: 0,
            second: 5,
            frac_len: 0,
            frac_val: 0,
            offset: TzOffset::Zulu,
        },
        tags: vec![String::from("a"), String::from("b")],
        slug: String::new(),
    }
}

#[test]
fn written_records_are_json_that_serde_reads_identically() {
    let post = sample();
    let text = serialize_post(&post);
    let v: serde_json::Value = serde_json::from_str(&text).unwrap();
    assert_eq!(v.get("title").unwrap().as_str().unwrap(), post.title);
    assert_eq!(v.get("body").unwrap().as_str().unwrap(), post.body);
    assert_eq!(v.get("image_url").unwrap().as_str().unwrap(), post.image_url);
    assert_eq!(v.get("summary").unwrap().as_str().unwrap(), post.summary);
    assert_eq!(v.get("timestamp").unwrap().as_str().unwrap(), "2024-06-01T12:00:05Z");
    let tags: Vec<&str> = v.get("tags").unwrap().as_array().unwrap().iter().map(
        |t| t.as_str().unwrap(),
    ).collect();
    assert_eq!(tags, vec!["a", "b"]);
    // No slug travels in the payload.
    assert!(v.get("slug").is_none());
    assert!(v.get("url_name").is_none());
}

#[test]
fn json_written_by_serde_loads_identically() {
    let mut map = serde_json::Map::new();
    map.insert(String::from("title"), serde_json::Value::String(String::from("T \u{2603}")));
    map.insert(String::from("body"), serde_json::Value::String(String::from("b\"q\""))) ;
    map.insert(String::from("image_url"), serde_json::Value::String(String::from("i")));
    map.insert(String::from("summary"), serde_json::Value::String(String::from("s")));
    map.insert(
        String::from("timestamp"),
        serde_json::Value::String(String::from("2023-03-04T05:06:07+02:00")),
    );
    map.insert(
        String::from("tags"),
        serde_json::Value::Array(vec![serde_json::Value::String(String::from("x"))]),
    );
    map.insert(String::from("url_name"), serde_json::Value::String(String::from("spoofed")));
    let text = serde_json::Value::Object(map).to_string();
    let post = load_post("from-serde.json", &FileRead::Content(text)).unwrap();
    assert_eq!(post.title, "T \u{2603}");
    assert_eq!(post.body, "b\"q\"");
    assert_eq!(post.slug, "from-serde");
    assert_eq!(post.tags, vec![String::from("x")]);
    assert_eq!(post.publish_at.offset, TzOffset::Plus { hours: 2, minutes: 0 });
}

#[test]
fn timestamps_agree_with_chrono() {
    let post = sample();
    let text = serialize_post(&post);
    let v: serde_json::Value = serde_json::from_str(&text).unwrap();
    let ts_text = v.get("timestamp").unwrap().as_str().unwrap();
    let parsed = chrono::DateTime::parse_from_rfc3339(ts_text).unwrap();
    assert_eq!(parsed.timestamp(), post.publish_at.epoch_seconds());
    let offset = chrono::DateTime::parse_from_rfc3339("2023-03-04T05:06:07+02:00").unwrap();
    let loaded = load_post(
        "t.json",
        &FileRead::Content(String::from(
            r#"{"title":"t","body":"b","image_url":"i","summary":"s","timestamp":"2023-03-04T05:06:07+02:00","tags":[]}"#,
        )),
    ).unwrap();
    assert_eq!(loaded.publish_at.epoch_seconds(), offset.timestamp());
}
