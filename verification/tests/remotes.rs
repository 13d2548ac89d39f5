use pijul_core::commands::remote::{
    delete_plan, deletion_overruns, find_target, listing, remove_named, DeleteError, FoundBy,
};
use pijul_core::config::{RemoteConfig, RemoteHttpHeader, Shell};
use pijul_core::remotes::{aggregate_remote_info, IdMap, RemoteId, RemoteInfo, RemoteInfos};

fn ssh(name: &str, url: &str) -> RemoteConfig {
    RemoteConfig::Ssh { name: name.to_string(), ssh: url.to_string() }
}

fn http(name: &str, url: &str, headers: &[(&str, &str)]) -> RemoteConfig {
    RemoteConfig::Http {
        name: name.to_string(),
        http: url.to_string(),
        headers: headers
            .iter()
            .map(|(k, v)| (k.to_string(), RemoteHttpHeader::String(v.to_string())))
            .collect(),
    }
}

fn names(info: &RemoteInfo) -> Vec<&str> {
    info.configs.entries.iter().map(|e| e.0.as_str()).collect()
}

#[test]
fn remote_ids_are_written_in_base32() {
    assert_eq!(RemoteId(0).to_base32(), "AAAAAAAAAAAAAAAAAAAAAAAAAA");
    assert_eq!(RemoteId(u128::MAX).to_base32(), "77777777777777777777777774");
    // "foobar" in sixteen bytes: zeros, then the six letters
    let id = RemoteId(0x666f6f626172);
    assert_eq!(id.to_base32(), "AAAAAAAAAAAAAAAAMZXW6YTBOI");
    // the bytes 00 01 .. 0f
    let id = RemoteId(0x000102030405060708090a0b0c0d0e0f);
    assert_eq!(id.to_base32(), "AAAQEAYEAUDAOCAJBIFQYDIOB4");
}

#[test]
fn remote_ids_are_read_back() {
    for v in [0u128, 1, 7, 8, 0x666f6f626172, u128::MAX, 1 << 127, 0x0123456789abcdef0123456789abcdef] {
        let id = RemoteId(v);
        assert_eq!(RemoteId::from_base32(&id.to_base32()), Some(id));
    }
    assert_eq!(RemoteId::from_base32(""), None);
    assert_eq!(RemoteId::from_base32("AAAA"), None);
    assert_eq!(RemoteId::from_base32("AAAAAAAAAAAAAAAAAAAAAAAAAAA"), None);
    // the last digit holds three bits only
    assert_eq!(RemoteId::from_base32("AAAAAAAAAAAAAAAAAAAAAAAAAB"), None);
    assert_eq!(RemoteId::from_base32("AAAAAAAAAAAAAAAAAAAAAAAAAE"), Some(RemoteId(1)));
    assert_eq!(RemoteId::from_base32("aaaaaaaaaaaaaaaaaaaaaaaaaa"), None);
    assert_eq!(RemoteId::from_base32("AAAAAAAAAAAAAAAAAAAAAAAA1A"), None);
}

#[test]
fn id_map_maps_each_identifier_once() {
    let mut m = IdMap::new();
    assert_eq!(m.get(RemoteId(1)), None);
    m.insert(RemoteId(1), 10);
    m.insert(RemoteId(2), 20);
    m.insert(RemoteId(1), 11);
    assert_eq!(m.get(RemoteId(1)), Some(11));
    assert_eq!(m.get(RemoteId(2)), Some(20));
    assert_eq!(m.entries.len(), 2);
}

#[test]
fn nothing_is_gathered_from_nothing() {
    let infos = aggregate_remote_info(&vec![], &vec![], None);
    assert!(infos.data.is_empty());
    assert!(infos.by_url.is_empty());
    assert!(infos.by_label.is_empty());
    assert!(infos.by_id.entries.is_empty());
}

#[test]
fn named_remotes_with_one_address_are_one_remote() {
    let remotes = vec![
        ssh("origin", "me@host:repo"),
        http("web", "https://host/repo", &[("Authorization", "token")]),
        ssh("alias", "me@host:repo"),
    ];
    let infos = aggregate_remote_info(&remotes, &vec![], None);
    assert_eq!(infos.data.len(), 2);
    assert_eq!(infos.data[0].path, "me@host:repo");
    assert_eq!(names(&infos.data[0]), vec!["alias", "origin"]);
    assert_eq!(infos.data[1].path, "https://host/repo");
    assert_eq!(names(&infos.data[1]), vec!["web"]);
    assert_eq!(infos.by_label.get("origin"), Some(&0));
    assert_eq!(infos.by_label.get("alias"), Some(&0));
    assert_eq!(infos.by_label.get("web"), Some(&1));
    assert_eq!(infos.by_url.get("me@host:repo"), Some(&0));
    assert_eq!(infos.by_url.get("https://host/repo"), Some(&1));
    let web = infos.data[1].configs.get("web").unwrap();
    assert_eq!(web.headers.get("Authorization"), Some(&"token".to_string()));
    assert!(!web.default);
    assert!(!infos.data[0].default);
}

#[test]
fn shell_headers_show_their_command() {
    let remotes = vec![RemoteConfig::Http {
        name: "web".to_string(),
        http: "https://h".to_string(),
        headers: vec![
            ("B".to_string(), RemoteHttpHeader::Shell(Shell { shell: "pass show x".to_string() })),
            ("A".to_string(), RemoteHttpHeader::String("plain".to_string())),
        ],
    }];
    let infos = aggregate_remote_info(&remotes, &vec![], None);
    let web = infos.data[0].configs.get("web").unwrap();
    let headers: Vec<(&str, &str)> =
        web.headers.entries.iter().map(|e| (e.0.as_str(), e.1.as_str())).collect();
    assert_eq!(headers, vec![("A", "plain"), ("B", "pass show x")]);
}

#[test]
fn database_remotes_join_the_remote_they_are_known_as() {
    let remotes = vec![ssh("origin", "me@host:repo"), http("web", "https://host/repo", &[])];
    let db = vec![
        (RemoteId(5), "me@host:repo".to_string()),
        // an HTTP remote is known to the database by its name
        (RemoteId(3), "web".to_string()),
        (RemoteId(9), "elsewhere".to_string()),
        (RemoteId(4), "me@host:repo".to_string()),
        // an SSH remote is not known by its name
        (RemoteId(7), "origin".to_string()),
    ];
    let infos = aggregate_remote_info(&remotes, &db, None);
    assert_eq!(infos.data.len(), 4);
    assert_eq!(infos.data[0].id, vec![RemoteId(4), RemoteId(5)]);
    assert_eq!(infos.data[1].id, vec![RemoteId(3)]);
    assert_eq!(infos.data[2].path, "elsewhere");
    assert_eq!(infos.data[2].id, vec![RemoteId(9)]);
    assert!(infos.data[2].configs.is_empty());
    assert_eq!(infos.data[3].path, "origin");
    assert_eq!(infos.by_id.get(RemoteId(5)), Some(0));
    assert_eq!(infos.by_id.get(RemoteId(4)), Some(0));
    assert_eq!(infos.by_id.get(RemoteId(3)), Some(1));
    assert_eq!(infos.by_id.get(RemoteId(9)), Some(2));
    assert_eq!(infos.by_id.get(RemoteId(7)), Some(3));
    assert_eq!(infos.by_url.get("elsewhere"), Some(&2));
    assert_eq!(infos.by_url.get("origin"), Some(&3));
}

#[test]
fn the_default_remote_is_marked() {
    let remotes = vec![ssh("origin", "me@host:repo"), ssh("alias", "me@host:repo")];
    // by its name
    let infos = aggregate_remote_info(&remotes, &vec![], Some("alias"));
    assert!(infos.data[0].default);
    assert!(infos.data[0].configs.get("alias").unwrap().default);
    assert!(!infos.data[0].configs.get("origin").unwrap().default);
    // by its address
    let infos = aggregate_remote_info(&remotes, &vec![], Some("me@host:repo"));
    assert!(infos.data[0].default);
    assert!(!infos.data[0].configs.get("alias").unwrap().default);
    // a default that is neither is a remote of its own
    let infos = aggregate_remote_info(&remotes, &vec![], Some("https://new"));
    assert_eq!(infos.data.len(), 2);
    assert!(!infos.data[0].default);
    assert!(infos.data[1].default);
    assert_eq!(infos.data[1].path, "https://new");
    assert_eq!(infos.by_url.get("https://new"), Some(&1));
}

#[test]
fn remotes_are_listed() {
    let remotes = vec![
        ssh("origin", "me@host:repo"),
        http("web", "https://host/repo", &[("Authorization", "token"), ("Accept", "*/*")]),
        http("mirror", "https://host/repo", &[]),
    ];
    let db = vec![
        (RemoteId(0), "me@host:repo".to_string()),
        (RemoteId(u128::MAX), "me@host:repo".to_string()),
        (RemoteId(1), "me@host:repo".to_string()),
        (RemoteId(2), "dangling".to_string()),
    ];
    let infos = aggregate_remote_info(&remotes, &db, Some("web"));
    let expected = [
        "  AAAAAAAAAAAAAAAAAAAAAAAAAA: «origin» me@host:repo\n",
        "  (also registered as AAAAAAAAAAAAAAAAAAAAAAAAAE, 77777777777777777777777774)\n",
        "  (no ID)                   : https://host/repo\n",
        "  «mirror»\n",
        "* «web»\n",
        "    Headers:\n",
        "    - Accept: */*\n",
        "    - Authorization: token\n",
        "  AAAAAAAAAAAAAAAAAAAAAAAAAI: dangling\n",
    ]
    .join("");
    assert_eq!(listing(&infos), expected);
}

#[test]
fn a_default_remote_on_one_line_is_starred() {
    let remotes = vec![ssh("origin", "me@host:repo")];
    let infos = aggregate_remote_info(&remotes, &vec![], Some("origin"));
    assert_eq!(listing(&infos), "* (no ID)                   : «origin» me@host:repo\n");
    let infos = aggregate_remote_info(&vec![], &vec![], Some("somewhere"));
    assert_eq!(listing(&infos), "* (no ID)                   : somewhere\n");
    assert_eq!(listing(&aggregate_remote_info(&vec![], &vec![], None)), "");
}

#[test]
fn a_remote_found_by_its_address_with_several_names_is_starred_itself() {
    let remotes = vec![http("a", "https://h", &[("X", "1")]), http("b", "https://h", &[])];
    let infos = aggregate_remote_info(&remotes, &vec![], Some("https://h"));
    let expected = [
        "* (no ID)                   : https://h\n",
        "  «a»\n",
        "    Headers:\n",
        "    - X: 1\n",
        "  «b»\n",
    ]
    .join("");
    assert_eq!(listing(&infos), expected);
}

fn sample() -> RemoteInfos {
    let remotes = vec![
        ssh("origin", "me@host:repo"),
        ssh("alias", "me@host:repo"),
        http("web", "https://host/repo", &[]),
    ];
    let db = vec![
        (RemoteId(8), "me@host:repo".to_string()),
        (RemoteId(16), "web".to_string()),
        (RemoteId(24), "lonely".to_string()),
        (RemoteId(32), "lonely2".to_string()),
        (RemoteId(40), "lonely2".to_string()),
    ];
    aggregate_remote_info(&remotes, &db, Some("origin"))
}

#[test]
fn the_remote_to_delete_is_found_by_name_then_id_then_address() {
    let db = sample();
    assert_eq!(find_target(&db, "origin"), Some((0, FoundBy::Label)));
    assert_eq!(find_target(&db, "web"), Some((1, FoundBy::Label)));
    let id = RemoteId(16).to_base32();
    assert_eq!(find_target(&db, &id), Some((1, FoundBy::Id(RemoteId(16)))));
    assert_eq!(find_target(&db, "lonely"), Some((2, FoundBy::Url)));
    assert_eq!(find_target(&db, "me@host:repo"), Some((0, FoundBy::Url)));
    assert_eq!(find_target(&db, "nothing"), None);
    assert_eq!(find_target(&db, &RemoteId(17).to_base32()), None);
}

#[test]
fn deleting_an_unknown_remote_fails() {
    let db = sample();
    match delete_plan(&db, "nothing", false, false) {
        Err(e @ DeleteError::NoSuchRemote(_)) => assert_eq!(e.message(), "No such remote: nothing"),
        other => panic!("{:?}", other),
    }
}

#[test]
fn deleting_a_small_remote_takes_all_of_it() {
    let db = sample();
    let plan = delete_plan(&db, "web", false, false).unwrap();
    assert_eq!(plan.drop_ids, vec![RemoteId(16)]);
    assert_eq!(plan.remove_names, vec!["web".to_string()]);
    assert!(!plan.clear_default);
    let plan = delete_plan(&db, &RemoteId(16).to_base32(), false, false).unwrap();
    assert_eq!(plan.drop_ids, vec![RemoteId(16)]);
    assert_eq!(plan.remove_names, vec!["web".to_string()]);
    let plan = delete_plan(&db, "lonely", false, false).unwrap();
    assert_eq!(plan.drop_ids, vec![RemoteId(24)]);
    assert!(plan.remove_names.is_empty());
}

#[test]
fn deleting_exactly_takes_what_was_named() {
    let db = sample();
    let plan = delete_plan(&db, "web", true, false).unwrap();
    assert!(plan.drop_ids.is_empty());
    assert_eq!(plan.remove_names, vec!["web".to_string()]);
    assert!(!plan.clear_default);
    let plan = delete_plan(&db, &RemoteId(16).to_base32(), true, false).unwrap();
    assert_eq!(plan.drop_ids, vec![RemoteId(16)]);
    assert!(plan.remove_names.is_empty());
}

#[test]
fn deleting_a_name_of_a_larger_remote_takes_the_name() {
    let db = sample();
    let plan = delete_plan(&db, "origin", false, false).unwrap();
    assert!(plan.drop_ids.is_empty());
    assert_eq!(plan.remove_names, vec!["origin".to_string()]);
    assert!(plan.clear_default);
    let plan = delete_plan(&db, "alias", false, false).unwrap();
    assert_eq!(plan.remove_names, vec!["alias".to_string()]);
    assert!(!plan.clear_default);
}

#[test]
fn deleting_by_address_takes_all_or_nothing() {
    let db = sample();
    match delete_plan(&db, "me@host:repo", false, false) {
        Err(e @ DeleteError::SeveralNames(_)) => assert_eq!(
            e.message(),
            "Cannot delete 'me@host:repo' since there are multiple named remotes associated with it"
        ),
        other => panic!("{:?}", other),
    }
    match delete_plan(&db, "me@host:repo", true, false) {
        Err(e @ DeleteError::NamedAndRegistered(_)) => assert_eq!(
            e.message(),
            "Cannot delete 'me@host:repo' since there is both a named remote and an ID associated with it"
        ),
        other => panic!("{:?}", other),
    }
    // two remotes of the database at one address that no name has are two remotes
    let plan = delete_plan(&db, "lonely2", false, false).unwrap();
    assert_eq!(plan.drop_ids, vec![RemoteId(40)]);
    let twice = aggregate_remote_info(
        &vec![ssh("origin", "me@host:repo")],
        &vec![(RemoteId(1), "me@host:repo".to_string()), (RemoteId(2), "me@host:repo".to_string())],
        None,
    );
    match delete_plan(&twice, "me@host:repo", false, false) {
        Err(e @ DeleteError::SeveralIds(_)) => assert_eq!(
            e.message(),
            "Cannot delete 'me@host:repo' since there are multiple IDs associated with it"
        ),
        other => panic!("{:?}", other),
    }
    // the address of the remote that "web" names
    let plan = delete_plan(&db, "https://host/repo", false, false).unwrap();
    assert_eq!(plan.drop_ids, vec![RemoteId(16)]);
    assert_eq!(plan.remove_names, vec!["web".to_string()]);
}

#[test]
fn flooding_takes_all_of_a_remote() {
    let db = sample();
    assert!(deletion_overruns(&db, "origin", false, true));
    assert!(!deletion_overruns(&db, "origin", true, true));
    assert!(!deletion_overruns(&db, "origin", false, false));
    assert!(!deletion_overruns(&db, "lonely", false, true));
    assert!(!deletion_overruns(&db, "nothing", false, true));
    let plan = delete_plan(&db, "origin", true, true).unwrap();
    assert_eq!(plan.drop_ids, vec![RemoteId(8)]);
    assert_eq!(plan.remove_names, vec!["alias".to_string(), "origin".to_string()]);
    assert!(plan.clear_default);
    let plan = delete_plan(&db, "lonely", false, true).unwrap();
    assert_eq!(plan.drop_ids, vec![RemoteId(24)]);
}

#[test]
fn the_first_remote_of_a_name_is_removed() {
    let mut remotes = vec![ssh("a", "1"), ssh("b", "2"), ssh("a", "3")];
    assert!(remove_named(&mut remotes, "a"));
    assert_eq!(remotes.len(), 2);
    assert_eq!(remotes[0].name(), "b");
    assert_eq!(remotes[1].url(), "3");
    assert!(!remove_named(&mut remotes, "c"));
    assert_eq!(remotes.len(), 2);
}
