use user_registry::registry::UserRegistry;
use user_registry::user::{AddUserArgs, Identity};
use user_registry::Error;

fn ident(bytes: &[u8]) -> Identity {
    Identity::from_bytes(bytes.to_vec()).unwrap()
}

fn args(username: Option<&str>, logo_url: Option<&str>, neuron_id: Option<u64>) -> AddUserArgs {
    AddUserArgs {
        username: username.map(|s| s.to_string()),
        logo_url: logo_url.map(|s| s.to_string()),
        neuron_id,
    }
}

#[test]
fn get_none_before_add_and_some_after() {
    let mut reg = UserRegistry::new(0).unwrap();
    let id = ident(&[1, 2, 3]);
    assert!(reg.get_user(&id).is_none());
    let r = reg.add_user(&id, args(Some("alice"), None, Some(42)), 1000);
    assert_eq!(r.unwrap(), "User added successfully");
    let u = reg.get_user(&id).unwrap();
    assert_eq!(u.principal.as_bytes(), &vec![1, 2, 3]);
    assert_eq!(u.username, Some("alice".to_string()));
    assert_eq!(u.logo_url, None);
    assert_eq!(u.neuron_id, Some(42));
    assert!(u.followed_topics.is_empty());
    assert_eq!(u.created_at, 1000);
    assert_eq!(u.updated_at, 1000);
}

#[test]
fn second_add_fails_and_keeps_record() {
    let mut reg = UserRegistry::new(0).unwrap();
    let id = ident(&[7]);
    reg.add_user(&id, args(Some("first"), None, None), 1000).unwrap();
    let r = reg.add_user(&id, args(Some("second"), Some("logo"), Some(9)), 2000);
    assert_eq!(r.unwrap_err(), Error::AlreadyExists);
    let u = reg.get_user(&id).unwrap();
    assert_eq!(u.username, Some("first".to_string()));
    assert_eq!(u.logo_url, None);
    assert_eq!(u.created_at, 1000);
    assert_eq!(u.updated_at, 1000);
    assert_eq!(reg.get_user_count(), 1);
}

#[test]
fn update_absent_fails_without_side_effect() {
    let mut reg = UserRegistry::new(0).unwrap();
    let id = ident(&[9, 9]);
    let r = reg.update_user(&id, args(Some("ghost"), None, None), 500);
    assert_eq!(r.unwrap_err(), Error::NotFound);
    assert_eq!(reg.get_user_count(), 0);
    assert!(reg.get_user(&id).is_none());
}

#[test]
fn update_replaces_fields_and_keeps_created_at() {
    let mut reg = UserRegistry::new(0).unwrap();
    let id = ident(&[4]);
    reg.add_user(&id, args(Some("old"), Some("logo"), Some(1)), 100).unwrap();
    reg.follow_topic(&id, "news".to_string()).unwrap();
    reg.update_user(&id, args(Some("new"), None, None), 200).unwrap();
    let u = reg.get_user(&id).unwrap();
    assert_eq!(u.username, Some("new".to_string()));
    assert_eq!(u.logo_url, None);
    assert_eq!(u.neuron_id, None);
    assert_eq!(u.followed_topics, vec!["news".to_string()]);
    assert_eq!(u.created_at, 100);
    assert_eq!(u.updated_at, 200);
}

#[test]
fn remove_then_get_yields_none_and_absent_remove_is_noop() {
    let mut reg = UserRegistry::new(0).unwrap();
    let id = ident(&[5]);
    reg.add_user(&id, args(None, None, None), 10).unwrap();
    assert_eq!(reg.get_user_count(), 1);
    reg.remove_user(&id);
    assert!(reg.get_user(&id).is_none());
    assert_eq!(reg.get_user_count(), 0);
    reg.remove_user(&id);
    assert_eq!(reg.get_user_count(), 0);
}

#[test]
fn follow_twice_keeps_topic_once() {
    let mut reg = UserRegistry::new(0).unwrap();
    let id = ident(&[6]);
    reg.add_user(&id, args(None, None, None), 10).unwrap();
    reg.follow_topic(&id, "rust".to_string()).unwrap();
    reg.follow_topic(&id, "rust".to_string()).unwrap();
    let u = reg.get_user(&id).unwrap();
    assert_eq!(u.followed_topics, vec!["rust".to_string()]);
}

#[test]
fn unfollow_removes_topic_and_tolerates_absent_topic() {
    let mut reg = UserRegistry::new(0).unwrap();
    let id = ident(&[6, 6]);
    reg.add_user(&id, args(None, None, None), 10).unwrap();
    reg.follow_topic(&id, "a".to_string()).unwrap();
    reg.follow_topic(&id, "b".to_string()).unwrap();
    reg.unfollow_topic(&id, "a".to_string()).unwrap();
    let u = reg.get_user(&id).unwrap();
    assert_eq!(u.followed_topics, vec!["b".to_string()]);
    reg.unfollow_topic(&id, "zzz".to_string()).unwrap();
    let u2 = reg.get_user(&id).unwrap();
    assert_eq!(u2.followed_topics, vec!["b".to_string()]);
}

#[test]
fn follow_topic_on_absent_identity_fails() {
    let mut reg = UserRegistry::new(0).unwrap();
    let id = ident(&[8]);
    let r = reg.follow_topic(&id, "rust".to_string());
    assert_eq!(r.unwrap_err(), Error::NotFound);
    let r2 = reg.unfollow_topic(&id, "rust".to_string());
    assert_eq!(r2.unwrap_err(), Error::NotFound);
}

#[test]
fn list_is_ascending_regardless_of_insertion_order() {
    let mut reg = UserRegistry::new(0).unwrap();
    let a = ident(&[1]);
    let b = ident(&[2]);
    let c = ident(&[3]);
    reg.add_user(&c, args(Some("c"), None, None), 30).unwrap();
    reg.add_user(&a, args(Some("a"), None, None), 10).unwrap();
    reg.add_user(&b, args(Some("b"), None, None), 20).unwrap();
    let all = reg.get_users(0, 10);
    let names: Vec<Option<String>> = all.iter().map(|u| u.username.clone()).collect();
    assert_eq!(
        names,
        vec![
            Some("a".to_string()),
            Some("b".to_string()),
            Some("c".to_string())
        ]
    );
    let page = reg.get_users(1, 1);
    assert_eq!(page.len(), 1);
    assert_eq!(page[0].username, Some("b".to_string()));
    assert!(reg.get_users(5, 10).is_empty());
    assert!(reg.get_users(0, 0).is_empty());
}

#[test]
fn oversized_record_fails_with_encoding_failure() {
    let mut reg = UserRegistry::new(0).unwrap();
    let id = ident(&[11]);
    let huge = "x".repeat(3000);
    let r = reg.add_user(&id, args(Some(&huge), None, None), 1);
    assert_eq!(r.unwrap_err(), Error::EncodingFailure);
    assert_eq!(reg.get_user_count(), 0);
    reg.add_user(&id, args(Some("small"), None, None), 1).unwrap();
    let r2 = reg.update_user(&id, args(Some(&huge), None, None), 2);
    assert_eq!(r2.unwrap_err(), Error::EncodingFailure);
    assert_eq!(reg.get_user(&id).unwrap().username, Some("small".to_string()));
}

#[test]
fn identity_rejects_oversized_bytes() {
    assert!(Identity::from_bytes(vec![0u8; 29]).is_some());
    assert!(Identity::from_bytes(vec![0u8; 30]).is_none());
}

#[test]
fn separate_regions_do_not_alias() {
    let mut reg1 = UserRegistry::new(0).unwrap();
    let mut reg2 = UserRegistry::new(1).unwrap();
    let id = ident(&[1]);
    reg1.add_user(&id, args(Some("only-in-one"), None, None), 1).unwrap();
    assert!(reg2.get_user(&id).is_none());
    reg2.add_user(&id, args(Some("other"), None, None), 2).unwrap();
    assert_eq!(reg1.get_user(&id).unwrap().username, Some("only-in-one".to_string()));
}
