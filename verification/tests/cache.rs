use blog_core::cache::{AssetCache, AssetDecision};
use blog_core::paths::join_under_root;

/// Serves an asset the way a handler would: consult the cache, and only
/// on a miss fall back to the reader, counting how often that happens.
fn get_asset(
    cache: &mut AssetCache,
    name: &str,
    backing: &[(&str, &[u8])],
    reads: &mut u32,
) -> Option<Vec<u8>> {
    match cache.decide(name) {
        AssetDecision::Reject => None,
        AssetDecision::Serve(bytes) => Some(bytes),
        AssetDecision::Load => {
            *reads += 1;
            let found = backing.iter().find(|(n, _)| *n == name)?;
            let bytes: Vec<u8> = found.1.to_vec();
            cache.store(String::from(name), bytes.clone());
            Some(bytes)
        },
    }
}

#[test]
fn second_read_is_served_from_memory() {
    let backing: &[(&str, &[u8])] = &[("style.css", b"body { color: red }")];
    let mut cache = AssetCache::new();
    let mut reads: u32 = 0;
    let first = get_asset(&mut cache, "style.css", backing, &mut reads).unwrap();
    assert_eq!(reads, 1);
    let second = get_asset(&mut cache, "style.css", backing, &mut reads).unwrap();
    // Byte-identical content, and the second call performed no read.
    assert_eq!(first, second);
    assert_eq!(reads, 1);
}

#[test]
fn distinct_names_are_cached_separately() {
    let backing: &[(&str, &[u8])] = &[("a.js", b"aa"), ("b.js", b"bb")];
    let mut cache = AssetCache::new();
    let mut reads: u32 = 0;
    assert_eq!(get_asset(&mut cache, "a.js", backing, &mut reads).unwrap(), b"aa");
    assert_eq!(get_asset(&mut cache, "b.js", backing, &mut reads).unwrap(), b"bb");
    assert_eq!(reads, 2);
    assert_eq!(get_asset(&mut cache, "a.js", backing, &mut reads).unwrap(), b"aa");
    assert_eq!(get_asset(&mut cache, "b.js", backing, &mut reads).unwrap(), b"bb");
    assert_eq!(reads, 2);
}

#[test]
fn traversal_names_are_rejected_without_any_read() {
    let backing: &[(&str, &[u8])] = &[("../etc/passwd", b"nope")];
    let mut cache = AssetCache::new();
    let mut reads: u32 = 0;
    assert!(get_asset(&mut cache, "../etc/passwd", backing, &mut reads).is_none());
    assert_eq!(reads, 0);
}

#[test]
fn missing_asset_is_none() {
    let backing: &[(&str, &[u8])] = &[];
    let mut cache = AssetCache::new();
    let mut reads: u32 = 0;
    assert!(get_asset(&mut cache, "ghost.png", backing, &mut reads).is_none());
    assert_eq!(reads, 1);
}

#[test]
fn join_builds_the_display_path() {
    assert_eq!(join_under_root("./caden-blog/assets", "htmx.min.js").unwrap(), "./caden-blog/assets/htmx.min.js");
    assert!(join_under_root("./caden-blog/assets", "../../etc/passwd").is_none());
    assert!(join_under_root("./caden-blog/assets", "a/..b").is_none());
}
