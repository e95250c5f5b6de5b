use kanso::handed::{forget_sources, hand_source, HandedSources};

fn files(name: &str, text: &str) -> Vec<(String, String)> {
    vec![(name.to_string(), text.to_string())]
}

#[test]
fn a_handed_module_is_found_by_its_import() {
    let mut s = HandedSources::new();
    hand_source(&mut s, "json", files("json.kso", "fn a\n  1\n"));
    assert_eq!(s.handed("./json"), Some(&files("json.kso", "fn a\n  1\n")));
    assert_eq!(s.handed("json"), Some(&files("json.kso", "fn a\n  1\n")));
    assert_eq!(s.handed("./other"), None);
}

#[test]
fn handing_again_replaces_and_forgetting_clears() {
    let mut s = HandedSources::new();
    hand_source(&mut s, "m", files("a.kso", "x"));
    hand_source(&mut s, "n", files("b.kso", "y"));
    hand_source(&mut s, "m", files("c.kso", "z"));
    assert_eq!(s.handed("m"), Some(&files("c.kso", "z")));
    assert_eq!(s.handed("n"), Some(&files("b.kso", "y")));
    forget_sources(&mut s);
    assert_eq!(s.handed("m"), None);
    assert_eq!(s.handed("n"), None);
}
