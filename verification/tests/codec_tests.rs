use icon_resolver::codec::{encode_record, decode_record};
use icon_resolver::icon_map::IconMap;
use icon_resolver::record::{CacheMetadata, PersistentCache};
use icon_resolver::entry::IconEntry;
use icon_resolver::resolver::IconResolver;

fn entry(path: &str, size: u32, is_svg: bool, theme_priority: usize) -> IconEntry {
    IconEntry { path: path.to_string(), size, is_svg, theme_priority }
}

fn sample_resolver() -> IconResolver {
    let mut r = IconResolver::new(
        "Papirus-Dark".to_string(),
        "/usr/share/icons".to_string(),
        vec!["/opt/icons".to_string(), "/home/u/.icons".to_string()],
    );
    let batch = vec![
        ("firefox".to_string(), entry("/usr/share/icons/f.svg", 0, true, 0)),
        ("gimp".to_string(), entry("/usr/share/icons/g.png", 48, false, 2)),
    ];
    r.build_cache(&batch);
    r
}

#[test]
fn save_then_load_round_trips_and_validates() {
    let r = sample_resolver();
    let rec = r.make_record(1700000000);
    let text = encode_record(&rec);
    let back = decode_record(text.as_str()).expect("decodes");
    assert_eq!(back.metadata, rec.metadata);
    assert_eq!(back.icons.len(), 2);
    // the loaded record is accepted against the same configuration
    assert!(r.is_cache_valid(&back.metadata, Some(1699999999)));
    assert!(r.is_cache_valid(&back.metadata, None));
}

#[test]
fn stale_descriptor_invalidates() {
    let r = sample_resolver();
    let rec = r.make_record(1700000000);
    assert!(!r.is_cache_valid(&rec.metadata, Some(1700000001)));
}

#[test]
fn changed_configuration_invalidates() {
    let r = sample_resolver();
    let rec = r.make_record(1700000000);
    let other_theme = IconResolver::new(
        "Adwaita".to_string(),
        "/usr/share/icons".to_string(),
        vec!["/opt/icons".to_string(), "/home/u/.icons".to_string()],
    );
    assert!(!other_theme.is_cache_valid(&rec.metadata, None));
    let other_roots = IconResolver::new(
        "Papirus-Dark".to_string(),
        "/usr/share/icons".to_string(),
        vec!["/opt/icons".to_string()],
    );
    assert!(!other_roots.is_cache_valid(&rec.metadata, None));
    let reordered = IconResolver::new(
        "Papirus-Dark".to_string(),
        "/usr/share/icons".to_string(),
        vec!["/home/u/.icons".to_string(), "/opt/icons".to_string()],
    );
    assert!(!reordered.is_cache_valid(&rec.metadata, None));
}

#[test]
fn wrong_version_invalidates() {
    let r = sample_resolver();
    let mut rec = r.make_record(1700000000);
    rec.metadata.cache_version = 0;
    assert!(!r.is_cache_valid(&rec.metadata, None));
}

#[test]
fn rebuild_from_same_scan_gives_identical_bytes() {
    // two resolvers, different prior state, same scan results
    let batch = vec![
        ("a".to_string(), entry("/r/a.svg", 0, true, 0)),
        ("b".to_string(), entry("/r/b.png", 32, false, 1)),
        ("a".to_string(), entry("/r/a2.png", 16, false, 3)),
    ];
    let mut r1 = IconResolver::new("T".to_string(), "/r".to_string(), vec![]);
    let mut r2 = IconResolver::new("T".to_string(), "/r".to_string(), vec![]);
    let noise = vec![("zzz".to_string(), entry("/r/z.svg", 0, true, 0))];
    r2.build_cache(&noise);
    r1.build_cache(&batch);
    r2.build_cache(&batch);
    let rec1 = r1.make_record(42);
    let rec2 = r2.make_record(42);
    assert_eq!(encode_record(&rec1), encode_record(&rec2));
}

#[test]
fn decode_rejects_malformed_text() {
    assert!(decode_record("").is_none());
    assert!(decode_record("not a cache").is_none());
    assert!(decode_record("1;").is_none());
    let r = sample_resolver();
    let text = encode_record(&r.make_record(7));
    // truncation is rejected
    let cut = &text[..text.len() - 1];
    assert!(decode_record(cut).is_none());
    // trailing garbage is rejected
    let mut long = text.clone();
    long.push('x');
    assert!(decode_record(long.as_str()).is_none());
}

#[test]
fn round_trip_preserves_entry_fields() {
    let mut r = IconResolver::new("T".to_string(), "/base".to_string(), vec![]);
    let batch = vec![(
        "odd:name;with punct".to_string(),
        entry("/pa th/77:x;y.svg", 123, true, 9),
    )];
    r.build_cache(&batch);
    let rec = r.make_record(5);
    let back = decode_record(encode_record(&rec).as_str()).expect("decodes");
    let e = back.icons.get("odd:name;with punct").expect("present");
    assert_eq!(e.path, "/pa th/77:x;y.svg");
    assert_eq!(e.size, 123);
    assert!(e.is_svg);
    assert_eq!(e.theme_priority, 9);
}

#[test]
fn decode_duplicate_names_last_wins() {
    let mut icons = IconMap::new();
    icons.set("dup".to_string(), entry("/first.svg", 0, true, 0));
    icons.set("xxx".to_string(), entry("/second.png", 32, false, 2));
    let md = CacheMetadata {
        cache_version: 1,
        theme: "T".to_string(),
        base_path: "/r".to_string(),
        additional_paths: vec![],
        cache_time: 1,
        icon_count: 2,
    };
    let rec = PersistentCache { metadata: md, icons };
    // rewrite the second entry's name to collide with the first
    let spliced = encode_record(&rec).replace("3:xxx", "3:dup");
    let back = decode_record(spliced.as_str()).expect("decodes");
    assert_eq!(back.icons.len(), 1);
    let e = back.icons.get("dup").expect("bound");
    assert_eq!(e.path, "/second.png");
}
