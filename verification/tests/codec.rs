use linkpage::json::{content_json, links_json, user_json};
use linkpage::parse::{parse_links, parse_user};
use linkpage::state::{Link, User};

fn user(name: &str, bio: &str, avatar: &str) -> User {
    User { name: name.as_bytes().to_vec(), bio: bio.as_bytes().to_vec(), avatar: avatar.as_bytes().to_vec() }
}

fn link(id: usize, title: &str, url: &str) -> Link {
    Link { id, title: title.as_bytes().to_vec(), url: url.as_bytes().to_vec() }
}

#[test]
fn user_json_exact_bytes() {
    let u = user("Ada", "pioneer", "ada.png");
    let enc = user_json(&u);
    assert_eq!(enc, br#"{"name":"Ada","bio":"pioneer","avatar":"ada.png"}"#.to_vec());
}

#[test]
fn user_json_escapes_quote_backslash_and_controls() {
    let u = user("A\"B", "a\\b", "line\nbreak\x01");
    let enc = user_json(&u);
    assert_eq!(
        enc,
        br#"{"name":"A\"B","bio":"a\\b","avatar":"line\u000abreak\u0001"}"#.to_vec()
    );
}

#[test]
fn links_json_exact_bytes() {
    let ls = vec![link(1, "Blog", "https://example.org"), link(20, "Code", "https://example.net")];
    let enc = links_json(&ls);
    assert_eq!(
        enc,
        br#"[{"id":1,"title":"Blog","url":"https://example.org"},{"id":20,"title":"Code","url":"https://example.net"}]"#.to_vec()
    );
}

#[test]
fn links_json_empty_collection() {
    let enc = links_json(&Vec::new());
    assert_eq!(enc, b"[]".to_vec());
}

#[test]
fn decimal_ids_render_exactly() {
    let enc = links_json(&vec![link(0, "z", ""), link(1234567890, "n", "")]);
    assert_eq!(
        enc,
        br#"[{"id":0,"title":"z","url":""},{"id":1234567890,"title":"n","url":""}]"#.to_vec()
    );
}

#[test]
fn content_json_is_valid_json_with_exact_fields() {
    let u = user("Ada", "pioneer", "ada.png");
    let ls = vec![link(1, "Blog", "https://example.org")];
    let enc = content_json(&u, &ls);
    let v: serde_json::Value = serde_json::from_slice(&enc).unwrap();
    assert_eq!(v["user"]["name"], serde_json::Value::String("Ada".to_string()));
    assert_eq!(v["user"]["bio"], serde_json::Value::String("pioneer".to_string()));
    assert_eq!(v["links"][0]["id"], serde_json::Value::from(1u64));
    assert_eq!(v["links"][0]["url"], serde_json::Value::String("https://example.org".to_string()));
    assert_eq!(v["links"].as_array().unwrap().len(), 1);
}

#[test]
fn escaped_output_is_valid_json_for_serde() {
    let u = user("A\"B\\C", "\x00\x1f", "ok");
    let enc = user_json(&u);
    let v: serde_json::Value = serde_json::from_slice(&enc).unwrap();
    assert_eq!(v["name"], serde_json::Value::String("A\"B\\C".to_string()));
    assert_eq!(v["bio"], serde_json::Value::String("\x00\x1f".to_string()));
}

#[test]
fn parse_user_round_trip() {
    let u = user("Ada", "pio\"neer", "a\\b\n.png");
    let enc = user_json(&u);
    let back = parse_user(&enc).unwrap();
    assert_eq!(back.name, u.name);
    assert_eq!(back.bio, u.bio);
    assert_eq!(back.avatar, u.avatar);
}

#[test]
fn parse_user_rejects_corrupted_bytes() {
    assert!(parse_user(&b"{not json at all".to_vec()).is_none());
    assert!(parse_user(&b"".to_vec()).is_none());
    assert!(parse_user(&br#"{"name":"Ada"}"#.to_vec()).is_none());
    assert!(parse_user(&br#"{"name":"Ada","bio":"","avatar":""} "#.to_vec()).is_none());
}

#[test]
fn parse_links_round_trip() {
    let ls = vec![link(1, "Blog", "https://example.org"), link(2, "B\"s", "u\\v")];
    let enc = links_json(&ls);
    let back = parse_links(&enc).unwrap();
    assert_eq!(back.len(), 2);
    assert_eq!(back[0].id, 1);
    assert_eq!(back[1].title, ls[1].title);
    assert_eq!(back[1].url, ls[1].url);
}

#[test]
fn parse_links_empty_and_corrupted() {
    assert_eq!(parse_links(&b"[]".to_vec()).unwrap().len(), 0);
    assert!(parse_links(&b"[".to_vec()).is_none());
    assert!(parse_links(&br#"[{"id":1,"title":"a","url":"u"},]"#.to_vec()).is_none());
    assert!(parse_links(&br#"{"id":1}"#.to_vec()).is_none());
}

#[test]
fn largest_id_round_trips() {
    let ls = vec![link(usize::MAX, "m", "u")];
    let enc = links_json(&ls);
    assert_eq!(
        enc,
        br#"[{"id":18446744073709551615,"title":"m","url":"u"}]"#.to_vec()
    );
    let back = parse_links(&enc).unwrap();
    assert_eq!(back[0].id, usize::MAX);
}

#[test]
fn oversized_id_is_rejected_not_wrapped() {
    let enc = br#"[{"id":99999999999999999999,"title":"m","url":"u"}]"#.to_vec();
    assert!(parse_links(&enc).is_none());
}
