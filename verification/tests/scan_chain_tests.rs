use icon_resolver::chain::ChainBuilder;
use icon_resolver::scan::{scan_plan, unit_dirs, entries_from_listing, subdirectories};
use icon_resolver::theme_index::parse_inherits;

#[test]
fn chain_appends_universal_fallback_once() {
    let mut b = ChainBuilder::new("Papirus-Dark".to_string());
    assert_eq!(b.next_theme(), Some("Papirus-Dark".to_string()));
    b.add_inherits(parse_inherits("[Icon Theme]\nInherits=breeze\n"));
    assert_eq!(b.next_theme(), Some("breeze".to_string()));
    assert_eq!(b.next_theme(), None);
    let chain = b.finish();
    assert_eq!(
        chain,
        vec!["Papirus-Dark".to_string(), "breeze".to_string(), "hicolor".to_string()]
    );
    assert_eq!(chain.iter().filter(|t| t.as_str() == "hicolor").count(), 1);
}

#[test]
fn chain_keeps_explicitly_inherited_fallback_in_place() {
    let mut b = ChainBuilder::new("A".to_string());
    assert_eq!(b.next_theme(), Some("A".to_string()));
    b.add_inherits(vec!["hicolor".to_string(), "B".to_string()]);
    assert_eq!(b.next_theme(), Some("hicolor".to_string()));
    assert_eq!(b.next_theme(), Some("B".to_string()));
    assert_eq!(b.next_theme(), None);
    let chain = b.finish();
    assert_eq!(chain, vec!["A".to_string(), "hicolor".to_string(), "B".to_string()]);
}

#[test]
fn chain_walks_depth_first_and_ignores_cycles() {
    // A inherits B and C; B inherits A (a cycle) and D
    let mut b = ChainBuilder::new("A".to_string());
    assert_eq!(b.next_theme(), Some("A".to_string()));
    b.add_inherits(vec!["B".to_string(), "C".to_string()]);
    assert_eq!(b.next_theme(), Some("B".to_string()));
    b.add_inherits(vec!["A".to_string(), "D".to_string()]);
    assert_eq!(b.next_theme(), Some("D".to_string()));
    assert_eq!(b.next_theme(), Some("C".to_string()));
    assert_eq!(b.next_theme(), None);
    let chain = b.finish();
    assert_eq!(
        chain,
        vec![
            "A".to_string(),
            "B".to_string(),
            "D".to_string(),
            "C".to_string(),
            "hicolor".to_string(),
        ]
    );
}

#[test]
fn plan_orders_roots_and_priorities() {
    let plan = scan_plan(2, 1);
    assert_eq!(plan.len(), 4);
    assert_eq!((plan[0].root_idx, plan[0].theme_idx, plan[0].priority), (0, 0, 0));
    assert_eq!((plan[1].root_idx, plan[1].theme_idx, plan[1].priority), (0, 1, 1));
    assert_eq!((plan[2].root_idx, plan[2].theme_idx, plan[2].priority), (1, 0, 2));
    assert_eq!((plan[3].root_idx, plan[3].theme_idx, plan[3].priority), (1, 1, 3));
}

#[test]
fn unit_dirs_cross_product_and_qualified_buckets() {
    let buckets = vec![("48x48".to_string(), 48), ("apps/64".to_string(), 64)];
    let dirs = unit_dirs(&buckets);
    let subs = subdirectories();
    assert_eq!(dirs.len(), subs.len() + 1);
    assert_eq!(dirs[0], ("48x48/apps".to_string(), 48));
    assert_eq!(dirs[1], ("48x48/actions".to_string(), 48));
    assert_eq!(dirs[subs.len()], ("apps/64".to_string(), 64));
}

#[test]
fn listing_filters_by_extension_case_insensitively() {
    let files = vec![
        "firefox.svg".to_string(),
        "gimp.SVG".to_string(),
        "photo.png".to_string(),
        "noext".to_string(),
        ".hidden".to_string(),
        "archive.tar.svg".to_string(),
    ];
    let got = entries_from_listing("/t/48/apps", &files, true, 48, 3);
    let names: Vec<&str> = got.iter().map(|p| p.0.as_str()).collect();
    assert_eq!(names, vec!["firefox", "gimp", "archive.tar"]);
    assert_eq!(got[0].1.path, "/t/48/apps/firefox.svg");
    assert_eq!(got[0].1.size, 48);
    assert!(got[0].1.is_svg);
    assert_eq!(got[0].1.theme_priority, 3);
}

#[test]
fn listing_png_entries_are_raster() {
    let files = vec!["a.PNG".to_string(), "b.svg".to_string()];
    let got = entries_from_listing("/d", &files, false, 32, 0);
    assert_eq!(got.len(), 1);
    assert_eq!(got[0].0, "a");
    assert!(!got[0].1.is_svg);
}
