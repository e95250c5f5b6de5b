use kanso::hako::{best_release, cached, list, parse_u64, release, split_name};

fn chars(s: &str) -> Vec<char> {
    s.chars().collect()
}

#[test]
fn a_hako_name_is_owner_and_repo() {
    assert_eq!(split_name("clay/json"), Some(("clay/json".to_string(), None)));
    assert_eq!(split_name("clay/json/value"), Some(("clay/json".to_string(), Some("value".to_string()))));
    assert_eq!(split_name("clay/json/v2/a/b"), Some(("clay/json/v2".to_string(), Some("a/b".to_string()))));
    assert_eq!(split_name("clay/json/v"), Some(("clay/json".to_string(), Some("v".to_string()))));
    assert_eq!(split_name("json"), None);
    assert_eq!(split_name("/json"), None);
    assert_eq!(split_name("github.com/json"), None);
}

#[test]
fn a_release_is_vx_y_z() {
    assert_eq!(release(&chars("v1.2.3")), Some((1, 2, 3)));
    assert_eq!(release(&chars("v10.0.12")), Some((10, 0, 12)));
    assert_eq!(release(&chars("1.2.3")), None);
    assert_eq!(release(&chars("v1.2")), None);
    assert_eq!(release(&chars("v1.2.3.4")), None);
    assert_eq!(release(&chars("v1.x.3")), None);
    assert_eq!(parse_u64(&chars("+7")), Some(7));
    assert_eq!(parse_u64(&chars("18446744073709551616")), None);
}

#[test]
fn the_highest_release_wins() {
    let listing = "aaa\trefs/tags/v1.2.0\nbbb\trefs/tags/v1.10.0\nccc\trefs/tags/v1.10.0^{}\nddd\trefs/heads/main\neee\trefs/tags/nightly\n";
    assert_eq!(best_release(listing), Some(("v1.10.0".to_string(), "bbb".to_string())));
    assert_eq!(best_release("ddd\trefs/heads/main\n"), None);
}

#[test]
fn the_cache_is_keyed_by_name_and_sha() {
    assert_eq!(cached("/home/u/.kanso/hako", "clay/json", "abc123"), "/home/u/.kanso/hako/clay/json@abc123");
    assert_eq!(cached("cache/", "clay/json", "abc"), "cache/clay/json@abc");
}

#[test]
fn the_list_marks_stale_and_unreachable_pins() {
    let locked = vec![
        ("a/one".to_string(), ("v1.0.0".to_string(), "0123456789abcdef".to_string())),
        ("b/two".to_string(), ("v2.0.0".to_string(), "feed".to_string())),
        ("c/three".to_string(), ("v3.0.0".to_string(), "cafe".to_string())),
    ];
    let latest = vec![Ok("v1.1.0".to_string()), Ok("v2.0.0".to_string()), Err("offline".to_string())];
    assert_eq!(
        list(&locked, &latest),
        Ok("a/one v1.0.0 0123456789ab (stale: v1.1.0 is out)\nb/two v2.0.0 feed\nc/three v3.0.0 cafe (unreachable)\n"
            .to_string())
    );
    assert_eq!(list(&vec![], &vec![]), Ok("hako.lock pins nothing \u{2014} run `kanso install`\n".to_string()));
}

#[test]
fn a_split_name_rebuilds_its_path() {
    for path in ["owner/repo", "owner/repo/v2", "owner/repo/v2/net/http", "owner/repo/util", "owner/repo/"] {
        let (name, module) = split_name(path).expect("a hako name");
        match module {
            None => assert_eq!(name, path),
            Some(m) => assert_eq!(format!("{name}/{m}"), path),
        }
    }
}
