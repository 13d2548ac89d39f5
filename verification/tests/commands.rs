use pijul_core::changes::{ChangeId, Position, CS};
use pijul_core::commands::channel::{
    after_delete, check_delete, check_new, listing_line, rename_source, ChannelError,
};
use pijul_core::commands::common_opts::{RepoAndChannel, RepoPath};
use pijul_core::commands::debug::{change_id_from_base32, change_id_to_base32, parse_pos};
use pijul_core::commands::fork::{changes_above, Fork, ForkSource};
use pijul_core::commands::pushpull::{
    choose_remote, prune_paths, pull_action, remote_unrecords_notice, select_requested,
    sort_by_ordinal, split_channel, touched_of_change, touched_paths, unknown_changes_notice, Pull,
    PullAction, Push, Requested, TransferError, Unrecorded,
};
use pijul_core::commands::status::{channel_line, Status, StatusAction};
use pijul_core::commands::tag::{
    author_source, check_checkout, check_create, check_recorded, checkout_channel, deleted_line,
    initial_message, listing_entry, reset_line, restored_line, AuthorSource, TagError,
};
use std::path::PathBuf;

fn h(n: u128) -> pijul_core::changes::Hash {
    pijul_core::changes::Hash(n, 0)
}

fn base() -> RepoPath {
    RepoPath { repo_path: None }
}

#[test]
fn options_are_read_back() {
    let r = RepoPath { repo_path: Some(PathBuf::from("/tmp/repo")) };
    assert_eq!(r.repo_path(), Some(&PathBuf::from("/tmp/repo")));
    assert_eq!(base().repo_path(), None);
    let rc = RepoAndChannel { base: r, channel: Some("dev".to_string()) };
    assert_eq!(rc.repo_path(), Some(&PathBuf::from("/tmp/repo")));
    assert_eq!(rc.channel(), Some("dev"));
    let rc = RepoAndChannel { base: base(), channel: None };
    assert_eq!(rc.repo_path(), None);
    assert_eq!(rc.channel(), None);
}

#[test]
fn channels_are_listed_with_a_star_on_the_current_one() {
    assert_eq!(listing_line("main", Some("main")), "* main");
    assert_eq!(listing_line("dev", Some("main")), "  dev");
    assert_eq!(listing_line("dev", None), "  dev");
}

#[test]
fn the_current_channel_is_not_deleted() {
    assert!(check_delete("dev", Some("main")).is_ok());
    assert!(check_delete("dev", None).is_ok());
    let e = check_delete("main", Some("main")).unwrap_err();
    assert!(matches!(e, ChannelError::DeleteCurrent));
    assert_eq!(e.message(), "Cannot delete current channel");
    assert!(after_delete("dev", true).is_ok());
    assert_eq!(after_delete("dev", false).unwrap_err().message(), "No such channel: dev");
}

#[test]
fn a_channel_is_renamed_from_the_named_or_the_current_one() {
    assert_eq!(rename_source(Some("a"), Some("b")).unwrap(), "a");
    assert_eq!(rename_source(Some("a"), None).unwrap(), "a");
    assert_eq!(rename_source(None, Some("b")).unwrap(), "b");
    assert_eq!(rename_source(None, None).unwrap_err().message(), "No current channel");
}

#[test]
fn a_new_channel_needs_a_free_name_and_force_to_be_empty() {
    assert_eq!(check_new("x", false, false, false).unwrap(), true);
    assert_eq!(check_new("x", true, true, false).unwrap(), false);
    assert_eq!(check_new("x", false, true, false).unwrap(), true);
    assert_eq!(
        check_new("x", true, false, false).unwrap_err().message(),
        "If creating an empty channel is really what you want, please use -f."
    );
    assert_eq!(
        check_new("x", true, false, true).unwrap_err().message(),
        "If creating an empty channel is really what you want, please use -f."
    );
    assert_eq!(check_new("x", false, false, true).unwrap_err().message(), "Channel x already exists");
    assert_eq!(check_new("x", true, true, true).unwrap_err().message(), "Channel x already exists");
}

#[test]
fn fork_goes_by_the_change_first() {
    let f = Fork {
        base: base(),
        state: Some("S".to_string()),
        channel: Some("c".to_string()),
        change: Some("ABC".to_string()),
        to: "new".to_string(),
    };
    assert!(matches!(f.source(), ForkSource::Change("ABC")));
    let f = Fork { base: base(), state: Some("S".to_string()), channel: None, change: None, to: "new".to_string() };
    assert!(matches!(f.source(), ForkSource::Channel { channel: None, state: Some("S") }));
    let f = Fork { base: base(), state: None, channel: Some("c".to_string()), change: None, to: "new".to_string() };
    assert!(matches!(f.source(), ForkSource::Channel { channel: Some("c"), state: None }));
}

#[test]
fn the_changes_after_a_state_are_rolled_back_newest_first() {
    let log = vec![(7u64, h(7)), (5, h(5)), (4, h(4)), (2, h(2)), (9, h(9))];
    assert_eq!(changes_above(&log, 4), vec![h(7), h(5)]);
    assert_eq!(changes_above(&log, 7), vec![]);
    assert_eq!(changes_above(&log, 0), vec![h(7), h(5), h(4), h(2), h(9)]);
    // the log is read up to the first entry that is not newer
    assert_eq!(changes_above(&log, 3), vec![h(7), h(5), h(4)]);
    assert_eq!(changes_above(&[], 3), vec![]);
}

#[test]
fn status_is_a_short_diff() {
    let s = Status {
        base: RepoAndChannel { base: base(), channel: Some("dev".to_string()) },
        tag: true,
        untracked: true,
        only_untracked: false,
        prefixes: vec![PathBuf::from("src")],
    };
    match s.action() {
        StatusAction::Diff(d) => {
            assert_eq!(d.base.channel(), Some("dev"));
            assert!(!d.json);
            assert!(d.tag);
            assert!(d.short);
            assert!(d.untracked);
            assert_eq!(d.prefixes, vec![PathBuf::from("src")]);
            assert!(!d.patience);
            assert!(!d.histogram);
        }
        other => panic!("{:?}", other),
    }
    let s = Status {
        base: RepoAndChannel { base: base(), channel: None },
        tag: false,
        untracked: false,
        only_untracked: true,
        prefixes: vec![],
    };
    assert!(matches!(s.action(), StatusAction::UntrackedFiles(_)));
    assert_eq!(channel_line(Some("main")), "On channel: main");
    assert_eq!(channel_line(None), "Not on a channel");
}

#[test]
fn change_ids_are_written_least_significant_byte_first() {
    assert_eq!(change_id_to_base32(ChangeId(0)), "AAAAAAAAAAAAA");
    // the byte 01 comes first
    assert_eq!(change_id_to_base32(ChangeId(1)), "AEAAAAAAAAAAA");
    // the bytes f, o, o, b, a, r, 0, 0
    assert_eq!(change_id_to_base32(ChangeId(0x0000726162_6f6f66)), "MZXW6YTBOIAAA");
    assert_eq!(change_id_to_base32(ChangeId(u64::MAX)), "7777777777776");
}

#[test]
fn change_ids_are_read_back() {
    for v in [0u64, 1, 255, 256, 0x0102030405060708, u64::MAX, 1 << 63, 0x726162_6f6f66] {
        let text = change_id_to_base32(ChangeId(v));
        assert_eq!(change_id_from_base32(&text), Some(ChangeId(v)));
    }
}

#[test]
fn short_texts_write_the_low_bytes_of_a_change_id() {
    assert_eq!(change_id_from_base32(""), Some(ChangeId(0)));
    // "f"
    assert_eq!(change_id_from_base32("MY"), Some(ChangeId(0x66)));
    // "fo"
    assert_eq!(change_id_from_base32("MZXQ"), Some(ChangeId(0x6f66)));
    // "foo"
    assert_eq!(change_id_from_base32("MZXW6"), Some(ChangeId(0x6f6f66)));
    // "foob"
    assert_eq!(change_id_from_base32("MZXW6YQ"), Some(ChangeId(0x626f6f66)));
    // "fooba"
    assert_eq!(change_id_from_base32("MZXW6YTB"), Some(ChangeId(0x61626f6f66)));
    // "foobar"
    assert_eq!(change_id_from_base32("MZXW6YTBOI"), Some(ChangeId(0x7261626f6f66)));
    // lengths in which no number of bytes is written
    for text in ["M", "MZX", "MZXW6Y", "MZXW6YTBO", "MZXW6YTBOIA", "MZXW6YTBOIAAAA"] {
        assert_eq!(change_id_from_base32(text), None, "{:?}", text);
    }
    // spare bits that are set
    assert_eq!(change_id_from_base32("MZ"), None);
    assert_eq!(change_id_from_base32("AAAAAAAAAAAAB"), None);
    // characters that are no digits
    assert_eq!(change_id_from_base32("my"), None);
    assert_eq!(change_id_from_base32("M1"), None);
}

#[test]
fn positions_are_read() {
    assert_eq!(
        parse_pos("AEAAAAAAAAAAA.42"),
        Some(Position { change: ChangeId(1), pos: 42 })
    );
    assert_eq!(parse_pos(".7"), Some(Position { change: ChangeId(0), pos: 7 }));
    assert_eq!(parse_pos("MY.0.rest.is.not.read"), Some(Position { change: ChangeId(0x66), pos: 0 }));
    assert_eq!(parse_pos("AEAAAAAAAAAAA"), None);
    assert_eq!(parse_pos("AEAAAAAAAAAAA."), None);
    assert_eq!(parse_pos("AEAAAAAAAAAAA.x"), None);
    assert_eq!(parse_pos("AEAAAAAAAAAAA.-1"), None);
    assert_eq!(parse_pos("not base32.1"), None);
    assert_eq!(parse_pos(""), None);
    assert_eq!(parse_pos("MY.18446744073709551616"), None);
    assert_eq!(
        parse_pos("MY.18446744073709551615"),
        Some(Position { change: ChangeId(0x66), pos: u64::MAX })
    );
}

#[test]
fn the_remote_is_the_named_one_or_the_default() {
    assert_eq!(choose_remote(Some("a"), Some("b")).unwrap(), "a");
    assert_eq!(choose_remote(None, Some("b")).unwrap(), "b");
    let e = choose_remote(None, None).unwrap_err();
    assert!(matches!(e, TransferError::MissingRemote));
    assert_eq!(e.message(), "Missing remote");
}

fn push(to: Option<&str>, to_channel: Option<&str>) -> Push {
    Push {
        base: base(),
        from_channel: None,
        all: false,
        force_cache: false,
        no_cert_check: false,
        path: vec![],
        to: to.map(|s| s.to_string()),
        to_channel: to_channel.map(|s| s.to_string()),
        changes: vec![],
    }
}

fn pull(from: Option<&str>, from_channel: Option<&str>, force_cache: bool) -> Pull {
    Pull {
        base: base(),
        to_channel: None,
        all: false,
        force_cache,
        no_cert_check: false,
        full: false,
        path: vec![],
        from: from.map(|s| s.to_string()),
        from_channel: from_channel.map(|s| s.to_string()),
        changes: vec![],
    }
}

#[test]
fn push_and_pull_options() {
    assert_eq!(push(Some("r"), None).remote_name(Some("d")).unwrap(), "r");
    assert_eq!(push(None, None).remote_name(Some("d")).unwrap(), "d");
    assert!(push(None, None).remote_name(None).is_err());
    assert_eq!(push(None, None).force_cache(), Some(false));
    assert_eq!(pull(Some("r"), None, false).remote_name(None).unwrap(), "r");
    assert_eq!(pull(None, None, false).remote_name(Some("d")).unwrap(), "d");
    assert!(pull(None, None, false).remote_name(None).is_err());
    assert_eq!(pull(None, None, false).remote_channel(), "main");
    assert_eq!(pull(None, Some("dev"), false).remote_channel(), "dev");
    assert_eq!(pull(None, None, false).force_cache(), None);
    assert_eq!(pull(None, None, true).force_cache(), Some(true));
}

#[test]
fn channel_arguments_are_split_at_the_first_colon() {
    assert_eq!(split_channel("main"), (Some("main"), None));
    assert_eq!(split_channel("main:dev"), (Some("main"), Some("dev")));
    assert_eq!(split_channel(":dev"), (None, Some("dev")));
    assert_eq!(split_channel("main:"), (Some("main"), Some("")));
    assert_eq!(split_channel(""), (None, None));
    assert_eq!(split_channel(":"), (None, Some("")));
    assert_eq!(split_channel("a:b:c"), (Some("a"), Some("b:c")));
    assert_eq!(split_channel("a:b\nc"), (Some("a"), Some("b")));
    assert_eq!(split_channel("a\nb:c"), (Some("a\nb"), Some("c")));
    assert_eq!(push(None, None).channels("cur"), ("cur", None));
    assert_eq!(push(None, Some("rem:into")).channels("cur"), ("rem", Some("into")));
    assert_eq!(push(None, Some(":into")).channels("cur"), ("cur", Some("into")));
}

#[test]
fn channel_arguments_are_split_as_the_pattern_splits_them() {
    let pattern = regex::Regex::new(r#"([^:]*)(:(.*))?"#).unwrap();
    for text in ["", "a", ":", "a:", ":b", "a:b", "a:b:c", "::", "a\n:b", "a:b\nc", "é:ü", "a:\nb", "\n", "x:y\r\nz"] {
        let c = pattern.captures(text).unwrap();
        let push_channel = c.get(3).map(|x| x.as_str());
        let remote_channel = Some(c.get(1).unwrap().as_str()).filter(|v| !v.is_empty());
        assert_eq!(split_channel(text), (remote_channel, push_channel), "{:?}", text);
    }
}

#[test]
fn the_changes_asked_for_are_picked_from_what_is_pending() {
    let pending = [CS::Change(h(1)), CS::Change(h(2)), CS::Change(h(3))];
    let req = |text: &str, hash: Option<u128>| Requested { text: text.to_string(), hash: hash.map(h) };
    let list = select_requested(&pending, &[req("C", Some(3)), req("X", Some(9)), req("A", Some(1)), req("C", Some(3))]).unwrap();
    assert_eq!(list, vec![CS::Change(h(3)), CS::Change(h(1)), CS::Change(h(3))]);
    assert_eq!(select_requested(&pending, &[]).unwrap(), vec![]);
    match select_requested(&pending, &[req("A", Some(1)), req("zz", None), req("yy", None), req("zz", None)]) {
        Err(TransferError::ChangesNotFound(list)) => {
            assert_eq!(list, vec!["zz".to_string(), "yy".to_string()]);
            assert_eq!(
                TransferError::ChangesNotFound(list).message(),
                "Changes not found: [\"zz\", \"yy\"]"
            );
        }
        other => panic!("{:?}", other),
    }
}

#[test]
fn entries_are_put_in_the_order_of_their_ordinals() {
    let items = vec![(5u64, CS::Change(h(5))), (1, CS::Change(h(1))), (3, CS::Change(h(3))), (1, CS::Change(h(11))), (0, CS::Change(h(0)))];
    let sorted = sort_by_ordinal(&items);
    let mut expected = items.clone();
    expected.sort_by(|a, b| a.0.cmp(&b.0));
    assert_eq!(sorted, expected);
    assert_eq!(sort_by_ordinal(&[]), vec![]);
}

#[test]
fn what_was_downloaded_is_applied_or_tagged() {
    let m = pijul_core::changes::Merkle(1, 2);
    assert_eq!(pull_action(CS::Change(h(4)), None, "S", "main").unwrap(), PullAction::Apply(h(4)));
    assert_eq!(pull_action(CS::State(m), Some(12), "S", "main").unwrap(), PullAction::Tag(12, m));
    let e = pull_action(CS::State(m), None, "SSS", "ma\"in").unwrap_err();
    assert_eq!(
        e.message(),
        "Cannot add tag SSS: channel \"ma\\\"in\" does not have that state"
    );
}

#[test]
fn the_files_that_a_change_touched() {
    let p = |c: u64, pos: u64| Position { change: ChangeId(c), pos };
    let table = vec![
        (ChangeId(3), p(1, 10)),
        (ChangeId(5), p(1, 20)),
        (ChangeId(5), p(2, 30)),
        (ChangeId(8), p(1, 40)),
        (ChangeId(5), p(9, 99)),
    ];
    assert_eq!(touched_of_change(&table, ChangeId(5)), vec![p(1, 20), p(2, 30)]);
    assert_eq!(touched_of_change(&table, ChangeId(3)), vec![p(1, 10)]);
    assert_eq!(touched_of_change(&table, ChangeId(4)), vec![]);
    assert_eq!(touched_of_change(&table, ChangeId(9)), vec![]);
    assert_eq!(touched_of_change(&[], ChangeId(9)), vec![]);
}

#[test]
fn touched_paths_are_put_in_order() {
    let some = |s: &str| Some(s.to_string());
    assert_eq!(touched_paths(&[some("b"), some("a/x"), some("a"), some("b")]), vec!["a", "a/x", "b"]);
    assert_eq!(touched_paths(&[]), vec![""]);
    assert_eq!(touched_paths(&[some("b"), None, some("a")]), vec![""]);
    assert_eq!(touched_paths(&[None]), vec![""]);
    assert_eq!(touched_paths(&[some("")]), vec![""]);
}

#[test]
fn paths_below_a_kept_path_are_dropped() {
    let list = |v: &[&str]| v.iter().map(|s| s.to_string()).collect::<Vec<String>>();
    assert_eq!(prune_paths(&list(&["a", "a/b", "a/b/c", "ab", "b/c", "b/c/d", "c"])), list(&["a", "ab", "b/c", "c"]));
    assert_eq!(prune_paths(&list(&["", "a", "b"])), list(&["", "a", "b"]));
    assert_eq!(prune_paths(&list(&["", "/a"])), list(&[""]));
    assert_eq!(prune_paths(&list(&["a", "a/"])), list(&["a"]));
    assert_eq!(prune_paths(&list(&["a/b", "a"])), list(&["a/b", "a"]));
    assert_eq!(prune_paths(&list(&["ab", "a\u{20ac}/x"])), list(&["ab", "a\u{20ac}/x"]));
    assert_eq!(prune_paths(&[]), list(&[]));
}

#[test]
fn the_note_on_unknown_changes() {
    assert_eq!(unknown_changes_notice(&[]), None);
    let hashes = |n: usize| (0..n).map(|i| format!("H{}", i)).collect::<Vec<String>>();
    let head = "# The following changes are new in the remote\n# (and are not yet known to your local copy):\n#\n";
    assert_eq!(unknown_changes_notice(&hashes(1)).unwrap(), format!("{}#     H0\n", head));
    assert_eq!(
        unknown_changes_notice(&hashes(5)).unwrap(),
        format!("{}#     H0\n#     H1\n#     H2\n#     H3\n#     H4\n", head)
    );
    assert_eq!(
        unknown_changes_notice(&hashes(6)).unwrap(),
        format!("{}#     H0\n#     H1\n#     H2\n#     H3\n#     H4\n#     ... plus 1 more change\n", head)
    );
    assert_eq!(
        unknown_changes_notice(&hashes(17)).unwrap(),
        format!("{}#     H0\n#     H1\n#     H2\n#     H3\n#     H4\n#     ... plus 12 more changes\n", head)
    );
}

#[test]
fn the_note_on_remote_unrecords() {
    assert_eq!(remote_unrecords_notice(&[]), None);
    let list = vec![
        Unrecorded { message: "first".to_string(), timestamp: "2024-01-01".to_string(), hash: "AAA".to_string() },
        Unrecorded { message: "".to_string(), timestamp: "t".to_string(), hash: "BBB".to_string() },
    ];
    let expected = format!(
        "# The following changes have been unrecorded in the remote.\n\
            # This buffer is only being used to inform you of the remote change;\n\
            # your push will continue when it is closed.\n{}",
        "#\n#    first\n#    2024-01-01\n#    AAA\n#\n#    \n#    t\n#    BBB\n"
    );
    assert_eq!(remote_unrecords_notice(&list).unwrap(), expected);
}

#[test]
fn tags_are_put_on_untagged_states_of_channels_that_have_changes() {
    assert_eq!(check_create("main", Some(4), false).unwrap(), 4);
    assert_eq!(check_create("main", None, false).unwrap_err().message(), "Channel main is empty");
    assert_eq!(check_create("main", None, true).unwrap_err().message(), "Channel main is empty");
    let e = check_create("main", Some(4), true).unwrap_err();
    assert!(matches!(e, TagError::AlreadyTagged));
    assert_eq!(e.message(), "Current state is already tagged");
    assert!(check_recorded(0).is_ok());
    assert_eq!(
        check_recorded(2).unwrap_err().message(),
        "Cannot change channel, as there are unrecorded changes."
    );
}

#[test]
fn tags_are_restored_into_new_channels() {
    assert_eq!(checkout_channel(Some("target"), "THASH"), "target");
    assert_eq!(checkout_channel(None, "THASH"), "THASH");
    assert!(check_checkout("target", false).is_ok());
    assert_eq!(
        check_checkout("target", true).unwrap_err().message(),
        "Channel \"target\" already exists"
    );
    assert_eq!(restored_line("THASH", "target"), "Tag THASH restored as channel target");
    assert_eq!(reset_line("THASH"), "Reset to tag THASH");
    assert_eq!(deleted_line("THASH"), "Deleted tag THASH");
    assert_eq!(
        listing_entry("S", "[me]", "today", "msg"),
        "State S\nAuthor: [me]\nDate: today\n\n    msg\n\n"
    );
}

#[test]
fn the_author_and_the_message_of_a_tag() {
    assert!(matches!(author_source(Some("me"), true), AuthorSource::Name("me")));
    assert!(matches!(author_source(Some("me"), false), AuthorSource::Name("me")));
    assert!(matches!(author_source(None, true), AuthorSource::Identity));
    assert!(matches!(author_source(None, false), AuthorSource::Nobody));
    assert_eq!(initial_message(Some("hello")), ("hello".to_string(), false));
    assert_eq!(initial_message(Some("")), ("".to_string(), true));
    assert_eq!(initial_message(None), ("".to_string(), true));
}
