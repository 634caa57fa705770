use jirapush::config::parse_tw_config;
use jirapush::version::{parse_version, version_lt};

#[test]
fn config_value_keeps_colons() {
    let conf = parse_tw_config("twjp.url: https://myjira.atlassian.net\n");
    assert_eq!(
        conf.get("twjp.url").unwrap().as_str(),
        "https://myjira.atlassian.net"
    );
}

#[test]
fn config_later_binding_overwrites() {
    let conf = parse_tw_config("a: 1\nb: 2\na: 3\n");
    assert_eq!(conf.len(), 2);
    assert_eq!(conf.get("a").unwrap().as_str(), "3");
    assert_eq!(conf.get("b").unwrap().as_str(), "2");
}

#[test]
fn config_skips_lines_without_colon() {
    let conf = parse_tw_config("no colon here\nkey: value\n\n");
    assert_eq!(conf.len(), 1);
    assert_eq!(conf.get("key").unwrap().as_str(), "value");
    assert_eq!(conf.get("missing"), None);
}

#[test]
fn config_trims_segments() {
    let conf = parse_tw_config("  spaced.key  :   a : b  \n");
    assert_eq!(conf.get("spaced.key").unwrap().as_str(), "a:b");
}

#[test]
fn version_parsing() {
    let v = parse_version("1.4.2").unwrap();
    assert_eq!((v.major, v.minor, v.patch, v.pre), (1, 4, 2, false));
    let pre = parse_version("1.3.0-alpha.1+build-7").unwrap();
    assert_eq!((pre.major, pre.minor, pre.patch, pre.pre), (1, 3, 0, true));
    assert!(parse_version("1.4").is_none());
    assert!(parse_version("1.04.2").is_none());
    assert!(parse_version("1.4.2.9").is_none());
    assert!(parse_version("not.a.version").is_none());
    assert!(parse_version("1.3.0-").is_none());
}

#[test]
fn version_threshold() {
    let below = parse_version("1.2.9").unwrap();
    let pre = parse_version("1.3.0-rc.1").unwrap();
    let exact = parse_version("1.3.0").unwrap();
    let above = parse_version("1.4.2").unwrap();
    assert!(version_lt(&below, 1, 3, 0));
    assert!(version_lt(&pre, 1, 3, 0));
    assert!(!version_lt(&exact, 1, 3, 0));
    assert!(!version_lt(&above, 1, 3, 0));
}

#[test]
fn config_block_cutoff_counts_bytes() {
    // A one-character multi-byte line is still over one byte after
    // trimming, so it belongs to the configuration block.
    let input = "\u{e9}\na: b\n\n[]\n";
    let (conf, logs) = jirapush::timewarrior::parse_tw_input(input).unwrap();
    assert_eq!(conf.len(), 1);
    assert_eq!(conf.get("a").unwrap().as_str(), "b");
    assert!(logs.is_empty());
}
