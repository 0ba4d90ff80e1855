use linkpage::state::{AppState, Link, User};

fn user(name: &str, bio: &str, avatar: &str) -> User {
    User { name: name.as_bytes().to_vec(), bio: bio.as_bytes().to_vec(), avatar: avatar.as_bytes().to_vec() }
}

fn link(id: usize, title: &str, url: &str) -> Link {
    Link { id, title: title.as_bytes().to_vec(), url: url.as_bytes().to_vec() }
}

fn ids(state: &AppState) -> Vec<usize> {
    state.links.iter().map(|l| l.id).collect()
}

#[test]
fn add_then_remove_restores_collection() {
    let mut state = AppState { user: user("Ada", "", ""), links: vec![link(1, "a", "u1"), link(2, "b", "u2")] };
    state.add_link(link(3, "c", "u3"));
    assert_eq!(ids(&state), vec![1, 2, 3]);
    state.remove_link(3);
    assert_eq!(ids(&state), vec![1, 2]);
    assert_eq!(state.links[0].title, b"a".to_vec());
    assert_eq!(state.links[1].title, b"b".to_vec());
}

#[test]
fn remove_absent_id_is_a_no_op() {
    let mut state = AppState { user: user("Ada", "", ""), links: vec![link(1, "a", "u1"), link(2, "b", "u2")] };
    state.remove_link(7);
    assert_eq!(ids(&state), vec![1, 2]);
    state.remove_link(7);
    assert_eq!(ids(&state), vec![1, 2]);
}

#[test]
fn remove_existing_id_removes_exactly_one() {
    let mut state = AppState {
        user: user("Ada", "", ""),
        links: vec![link(1, "a", "u1"), link(2, "b", "u2"), link(3, "c", "u3")],
    };
    state.remove_link(2);
    assert_eq!(ids(&state), vec![1, 3]);
    state.remove_link(2);
    assert_eq!(ids(&state), vec![1, 3]);
}

#[test]
fn update_user_failed_write_keeps_memory() {
    let mut state = AppState { user: user("Ada", "b", "a.png"), links: vec![] };
    state.update_user(user("Grace", "x", "g.png"), false);
    assert_eq!(state.user.name, b"Ada".to_vec());
    assert_eq!(state.user.bio, b"b".to_vec());
}

#[test]
fn update_user_successful_write_replaces_memory() {
    let mut state = AppState { user: user("Ada", "b", "a.png"), links: vec![] };
    state.update_user(user("Grace", "x", "g.png"), true);
    assert_eq!(state.user.name, b"Grace".to_vec());
    assert_eq!(state.user.avatar, b"g.png".to_vec());
}

#[test]
fn get_user_fallback_keeps_cached_value() {
    let mut state = AppState { user: user("Ada", "b", "a.png"), links: vec![] };
    let got = state.get_user(None);
    assert_eq!(got.name, b"Ada".to_vec());
    assert_eq!(state.user.name, b"Ada".to_vec());
}

#[test]
fn get_user_success_replaces_cached_value() {
    let mut state = AppState { user: user("Ada", "b", "a.png"), links: vec![] };
    let got = state.get_user(Some(user("Grace", "", "")));
    assert_eq!(got.name, b"Grace".to_vec());
    assert_eq!(state.user.name, b"Grace".to_vec());
}

#[test]
fn get_links_fallback_keeps_cached_collection() {
    let mut state = AppState { user: user("Ada", "", ""), links: vec![link(1, "a", "u1")] };
    let got = state.get_links(None);
    assert_eq!(got.len(), 1);
    assert_eq!(got[0].id, 1);
    assert_eq!(ids(&state), vec![1]);
}

#[test]
fn get_links_success_replaces_cached_collection() {
    let mut state = AppState { user: user("Ada", "", ""), links: vec![link(1, "a", "u1")] };
    let got = state.get_links(Some(vec![link(5, "e", "u5"), link(6, "f", "u6")]));
    assert_eq!(got.len(), 2);
    assert_eq!(ids(&state), vec![5, 6]);
}

#[test]
fn default_state_is_empty() {
    let state = AppState::default();
    assert_eq!(state.user.name, Vec::<u8>::new());
    assert_eq!(state.user.bio, Vec::<u8>::new());
    assert_eq!(state.user.avatar, Vec::<u8>::new());
    assert_eq!(state.links.len(), 0);
}
