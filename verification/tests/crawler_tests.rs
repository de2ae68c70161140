use ipchecker::builtin_crawler_sources;
use ipchecker::get_all_crawler_sources;
use ipchecker::get_crawler_sources_by_name;
use ipchecker::sample_config_sources;
use ipchecker::sources_with_additional;
use ipchecker::CrawlerIpSource;

#[test]
fn test_crawler_sources_list_not_empty() {
    let builtins = builtin_crawler_sources();
    assert!(!builtins.is_empty());
    assert!(builtins.len() >= 4);
}

#[test]
fn test_get_all_crawler_sources() {
    let sources = get_all_crawler_sources();
    assert!(!sources.is_empty());
    assert!(sources.len() >= builtin_crawler_sources().len());
}

#[test]
fn test_get_crawler_sources_by_name() {
    let googlebot_sources = get_crawler_sources_by_name("googlebot");
    assert!(!googlebot_sources.is_empty());

    let all_sources = get_crawler_sources_by_name("IP");
    assert!(all_sources.len() >= googlebot_sources.len());

    let no_sources = get_crawler_sources_by_name("nonexistent");
    assert!(no_sources.is_empty());
}

#[test]
fn test_crawler_source_structure() {
    for source in builtin_crawler_sources() {
        assert!(!source.name.is_empty());
        assert!(!source.url.is_empty());
        assert!(!source.description.is_empty());
        assert!(source.url.starts_with("https://"));
        assert!(!source.format.is_empty());
    }
}

#[test]
fn name_filter_folds_case() {
    // would fail if the lower-casing handed its argument back unchanged
    let shouting = get_crawler_sources_by_name("GOOGLEBOT");
    assert!(!shouting.is_empty());
    assert_eq!(shouting.len(), get_crawler_sources_by_name("googlebot").len());
    for source in shouting {
        assert!(source.name.to_lowercase().contains("googlebot"));
    }
}

#[test]
fn additional_sources_follow_builtins() {
    let extra = vec![CrawlerIpSource {
        name: "Test Bot".to_string(),
        url: "https://example.org/ranges.json".to_string(),
        description: "test entry".to_string(),
        format: "JSON".to_string(),
    }];
    let combined = sources_with_additional(extra);
    assert_eq!(combined.len(), builtin_crawler_sources().len() + 1);
    assert_eq!(combined.last().unwrap().name, "Test Bot");
}

#[test]
fn sample_config_has_two_entries() {
    let sample = sample_config_sources();
    assert_eq!(sample.len(), 2);
    assert_eq!(sample[0].name, "Example Bot");
    assert_eq!(sample[1].name, "Another Bot");
    for s in sample {
        assert!(s.url.starts_with("https://"));
    }
}
