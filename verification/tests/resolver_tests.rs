use icon_resolver::entry::IconEntry;
use icon_resolver::resolver::IconResolver;

fn entry(path: &str, size: u32, is_svg: bool, theme_priority: usize) -> IconEntry {
    IconEntry { path: path.to_string(), size, is_svg, theme_priority }
}

fn resolver_with(scanned: Vec<(&str, IconEntry)>) -> IconResolver {
    let mut r = IconResolver::new("Adwaita".to_string(), "/usr/share/icons".to_string(), vec![]);
    let batch: Vec<(String, IconEntry)> =
        scanned.into_iter().map(|(n, e)| (n.to_string(), e)).collect();
    r.build_cache(&batch);
    r
}

#[test]
fn resolve_browser_variation() {
    let r = resolver_with(vec![(
        "firefox-browser",
        entry("/icons/a/firefox-browser.svg", 0, true, 0),
    )]);
    assert_eq!(r.resolve("firefox", false), "/icons/a/firefox-browser.svg");
}

#[test]
fn resolve_compound_name_via_lowercase_base() {
    let r = resolver_with(vec![("telegram", entry("/icons/a/telegram.png", 48, false, 0))]);
    assert_eq!(r.resolve("Telegram Desktop 4.1", false), "/icons/a/telegram.png");
}

#[test]
fn resolve_absolute_path_short_circuits() {
    let r = resolver_with(vec![("icon", entry("/icons/a/icon.png", 48, false, 0))]);
    assert_eq!(r.resolve("/opt/app/icon.png", true), "/opt/app/icon.png");
    assert_eq!(r.resolve("/opt/app/icon.png", false), "");
}

#[test]
fn resolve_exact_hit() {
    let r = resolver_with(vec![("gimp", entry("/icons/a/gimp.svg", 0, true, 1))]);
    assert_eq!(r.resolve("gimp", false), "/icons/a/gimp.svg");
}

#[test]
fn resolve_miss_is_empty() {
    let r = resolver_with(vec![("gimp", entry("/icons/a/gimp.svg", 0, true, 1))]);
    assert_eq!(r.resolve("unknown-program-xyz", false), "");
}

#[test]
fn resolve_prefers_better_variation_hit() {
    // the exact hit loses to a variation hit of lower theme priority
    let r = resolver_with(vec![
        ("mail", entry("/icons/b/mail.png", 48, false, 3)),
        ("mail-client", entry("/icons/a/mail-client.svg", 0, true, 0)),
    ]);
    assert_eq!(r.resolve("mail", false), "/icons/a/mail-client.svg");
}

#[test]
fn resolve_reverse_domain_segment() {
    let r = resolver_with(vec![("Maps", entry("/icons/a/Maps.svg", 0, true, 0))]);
    assert_eq!(r.resolve("org.gnome.Maps", false), "/icons/a/Maps.svg");
}

#[test]
fn resolve_underscore_to_hyphen() {
    let r = resolver_with(vec![("image-viewer", entry("/icons/a/iv.svg", 0, true, 0))]);
    assert_eq!(r.try_variations("image_viewer"), Some("image-viewer".to_string()));
}

#[test]
fn resolve_org_prefix_guess() {
    let r = resolver_with(vec![(
        "org.inkscape.Inkscape",
        entry("/icons/a/ink.svg", 0, true, 0),
    )]);
    assert_eq!(r.try_variations("inkscape"), Some("org.inkscape.Inkscape".to_string()));
}

#[test]
fn try_variations_prefix_rungs() {
    let r = resolver_with(vec![(
        "preferences-system",
        entry("/icons/a/ps.svg", 0, true, 0),
    )]);
    assert_eq!(r.try_variations("system"), Some("preferences-system".to_string()));
}

#[test]
fn try_variations_none() {
    let r = resolver_with(vec![("gimp", entry("/icons/a/gimp.svg", 0, true, 0))]);
    assert_eq!(r.try_variations("nothing-here"), None);
}

#[test]
fn search_is_case_insensitive_and_sorted() {
    let r = resolver_with(vec![
        ("Firefox", entry("/icons/a/Firefox.svg", 0, true, 0)),
        ("firefox-browser", entry("/icons/a/fb.svg", 0, true, 0)),
        ("thunderbird", entry("/icons/a/tb.svg", 0, true, 0)),
    ]);
    assert_eq!(
        r.search("fire"),
        vec!["Firefox".to_string(), "firefox-browser".to_string()]
    );
}

#[test]
fn merge_lower_priority_wins() {
    let r = resolver_with(vec![
        ("app", entry("/icons/b/app.svg", 0, true, 2)),
        ("app", entry("/icons/a/app.png", 16, false, 1)),
    ]);
    assert_eq!(r.resolve("app", false), "/icons/a/app.png");
}

#[test]
fn merge_svg_beats_png_at_equal_priority() {
    let r = resolver_with(vec![
        ("app", entry("/icons/a/app.png", 128, false, 1)),
        ("app", entry("/icons/a/app.svg", 0, true, 1)),
    ]);
    assert_eq!(r.resolve("app", false), "/icons/a/app.svg");
}

#[test]
fn merge_sized_vector_beats_scalable() {
    let r = resolver_with(vec![
        ("app", entry("/icons/a/scalable/app.svg", 0, true, 1)),
        ("app", entry("/icons/a/48/app.svg", 48, true, 1)),
    ]);
    assert_eq!(r.resolve("app", false), "/icons/a/48/app.svg");
}

#[test]
fn merge_larger_raster_wins() {
    let r = resolver_with(vec![
        ("app", entry("/icons/a/32/app.png", 32, false, 1)),
        ("app", entry("/icons/a/64/app.png", 64, false, 1)),
        ("app", entry("/icons/a/16/app.png", 16, false, 1)),
    ]);
    assert_eq!(r.resolve("app", false), "/icons/a/64/app.png");
}

#[test]
fn reload_returns_entry_count() {
    let mut r = IconResolver::new("T".to_string(), "/r".to_string(), vec![]);
    let batch = vec![
        ("a".to_string(), entry("/r/a.svg", 0, true, 0)),
        ("b".to_string(), entry("/r/b.svg", 0, true, 0)),
        ("a".to_string(), entry("/r/a2.svg", 0, true, 5)),
    ];
    assert_eq!(r.reload(&batch), 2);
}

#[test]
fn build_cache_clears_previous_mapping() {
    let mut r = IconResolver::new("T".to_string(), "/r".to_string(), vec![]);
    let first = vec![("old".to_string(), entry("/r/old.svg", 0, true, 0))];
    r.build_cache(&first);
    let second = vec![("new".to_string(), entry("/r/new.svg", 0, true, 0))];
    r.build_cache(&second);
    assert_eq!(r.resolve("old", false), "");
    assert_eq!(r.resolve("new", false), "/r/new.svg");
}

#[test]
fn ladder_order_browser_before_client() {
    let r = resolver_with(vec![
        ("x-client", entry("/icons/a/xc.svg", 0, true, 0)),
        ("x-browser", entry("/icons/a/xb.svg", 0, true, 0)),
    ]);
    assert_eq!(r.try_variations("x"), Some("x-browser".to_string()));
}

#[test]
fn ladder_reverse_domain_lowercase_rung() {
    let r = resolver_with(vec![("maps", entry("/icons/a/maps.svg", 0, true, 0))]);
    assert_eq!(r.try_variations("org.gnome.Maps"), Some("maps".to_string()));
}

#[test]
fn search_empty_pattern_lists_every_key_sorted() {
    let r = resolver_with(vec![
        ("b", entry("/icons/a/b.svg", 0, true, 0)),
        ("a", entry("/icons/a/a.svg", 0, true, 0)),
    ]);
    assert_eq!(r.search(""), vec!["a".to_string(), "b".to_string()]);
}
