use icon_resolver::theme_index::{parse_inherits, parse_theme_directories, fallback_buckets,
    effective_buckets};

const SAMPLE: &str = "\
[Icon Theme]\n\
Name=Sample\n\
Inherits=breeze,hicolor\n\
Directories=48x48/apps,scalable/apps,16x16/apps,apps/64\n\
\n\
[48x48/apps]\n\
Size=48\n\
\n\
[scalable/apps]\n\
Size=0\n\
\n\
[apps/64]\n\
Size=64\n";

#[test]
fn inherits_are_parsed_in_order() {
    assert_eq!(parse_inherits(SAMPLE), vec!["breeze".to_string(), "hicolor".to_string()]);
}

#[test]
fn inherits_ignores_other_sections() {
    let content = "[Other]\nInherits=nope\n[Icon Theme]\nInherits=one\n";
    assert_eq!(parse_inherits(content), vec!["one".to_string()]);
}

#[test]
fn inherits_trims_and_drops_empty_fields() {
    let content = "[Icon Theme]\nInherits= a , ,b,\n";
    assert_eq!(parse_inherits(content), vec!["a".to_string(), "b".to_string()]);
}

#[test]
fn inherits_empty_when_no_descriptor_line() {
    assert_eq!(parse_inherits(""), Vec::<String>::new());
    assert_eq!(parse_inherits("[Icon Theme]\nName=x\n"), Vec::<String>::new());
}

#[test]
fn directories_sorted_descending_scalable_last() {
    let d = parse_theme_directories(SAMPLE);
    let got: Vec<(String, u32)> = d;
    assert_eq!(
        got,
        vec![
            ("apps/64".to_string(), 64),
            ("48x48/apps".to_string(), 48),
            ("16x16/apps".to_string(), 16),
            ("scalable/apps".to_string(), 0),
        ]
    );
}

#[test]
fn directories_size_from_name_when_not_declared() {
    // 16x16/apps has no section; its size comes from the WxH name
    let content = "[Icon Theme]\nDirectories=16x16/apps,weird\n";
    let d = parse_theme_directories(content);
    assert_eq!(d, vec![("16x16/apps".to_string(), 16)]);
}

#[test]
fn directories_scalable_name_is_size_zero() {
    let content = "[Icon Theme]\nDirectories=scalable/apps\n";
    let d = parse_theme_directories(content);
    assert_eq!(d, vec![("scalable/apps".to_string(), 0)]);
}

#[test]
fn directories_unrecognized_bucket_skipped() {
    let content = "[Icon Theme]\nDirectories=symbolic,cursors\n";
    assert_eq!(parse_theme_directories(content), Vec::<(String, u32)>::new());
}

#[test]
fn fallback_bucket_list_is_fixed() {
    assert_eq!(
        fallback_buckets(),
        vec![
            ("48x48".to_string(), 48),
            ("64x64".to_string(), 64),
            ("32x32".to_string(), 32),
            ("24x24".to_string(), 24),
            ("22x22".to_string(), 22),
            ("16x16".to_string(), 16),
            ("scalable".to_string(), 0),
        ]
    );
}

#[test]
fn effective_buckets_falls_back_when_missing_or_empty() {
    assert_eq!(effective_buckets(None), fallback_buckets());
    assert_eq!(effective_buckets(Some("")), fallback_buckets());
    assert_eq!(
        effective_buckets(Some("[Icon Theme]\nDirectories=48x48/apps\n")),
        vec![("48x48/apps".to_string(), 48)]
    );
}

#[test]
fn stable_order_for_equal_sizes() {
    let content = "[Icon Theme]\nDirectories=a,b,c\n[a]\nSize=32\n[b]\nSize=32\n[c]\nSize=64\n";
    let d = parse_theme_directories(content);
    assert_eq!(
        d,
        vec![("c".to_string(), 64), ("a".to_string(), 32), ("b".to_string(), 32)]
    );
}
