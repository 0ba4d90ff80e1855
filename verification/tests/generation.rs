use linkpage::generate::generate_site;
use linkpage::parse::parse_links;
use linkpage::state::{AppState, Link, User};

fn ada() -> User {
    User { name: b"Ada".to_vec(), bio: Vec::new(), avatar: Vec::new() }
}

fn link(id: usize, title: &str, url: &str) -> Link {
    Link { id, title: title.as_bytes().to_vec(), url: url.as_bytes().to_vec() }
}

#[test]
fn generated_config_reflects_exactly_the_content() {
    let state = AppState { user: ada(), links: vec![link(1, "Blog", "https://example.org")] };
    let docs = generate_site(&state);
    let v: serde_json::Value = serde_json::from_slice(&docs.config).unwrap();
    assert_eq!(v["user"]["name"], serde_json::Value::String("Ada".to_string()));
    let links = v["links"].as_array().unwrap();
    assert_eq!(links.len(), 1);
    assert_eq!(links[0]["id"], serde_json::Value::from(1u64));
    assert_eq!(links[0]["title"], serde_json::Value::String("Blog".to_string()));
}

#[test]
fn generated_links_file_is_the_canonical_encoding() {
    let state = AppState { user: ada(), links: vec![link(1, "Blog", "https://example.org")] };
    let docs = generate_site(&state);
    let back = parse_links(&docs.links_file).unwrap();
    assert_eq!(back.len(), 1);
    assert_eq!(back[0].id, 1);
    assert_eq!(back[0].url, b"https://example.org".to_vec());
}

#[test]
fn regenerating_replaces_rather_than_merges() {
    let mut state = AppState { user: ada(), links: vec![link(1, "Blog", "https://example.org")] };
    let first = generate_site(&state);
    state.add_link(link(2, "Code", "https://example.net"));
    let second = generate_site(&state);
    assert_ne!(first.config, second.config);
    let v: serde_json::Value = serde_json::from_slice(&second.config).unwrap();
    assert_eq!(v["links"].as_array().unwrap().len(), 2);

    // A third run from the same snapshot reproduces the second exactly: each
    // run is a function of the snapshot alone, nothing of an earlier bundle.
    let third = generate_site(&state);
    assert_eq!(second.config, third.config);
    assert_eq!(second.links_file, third.links_file);
}
