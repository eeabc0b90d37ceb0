use swarm_rs::text::{collapse_newlines, count_newlines, crlf_newlines, expand_newlines, interpolate, replace_first, str_less};
use swarm_rs::vfs::{sort_names, StaticVfs, Vfs};

#[test]
fn collapse_crlf() {
    assert_eq!(collapse_newlines("a\r\nb\r\n"), "a\nb\n");
    assert_eq!(collapse_newlines("\r\r\n\n\r"), "\r\n\n\r");
    assert_eq!(collapse_newlines(""), "");
    assert_eq!(collapse_newlines("héllo\r\nwörld"), "héllo\nwörld");
}

#[test]
fn crlf_expands_bare_newlines() {
    assert_eq!(crlf_newlines("a\nb\n"), "a\r\nb\r\n");
    assert_eq!(crlf_newlines("a\r\nb"), "a\r\nb");
    assert_eq!(crlf_newlines("\n\n"), "\r\n\r\n");
    assert_eq!(crlf_newlines("\r\r\n\n"), "\r\r\n\r\n");
    assert_eq!(crlf_newlines(""), "");
    assert_eq!(crlf_newlines("wörld\n"), "wörld\r\n");
    for s in ["a\nb", "\r\n\n", "x"] {
        assert_eq!(collapse_newlines(&crlf_newlines(s)), collapse_newlines(s));
    }
}

#[test]
fn expand_keeps_text() {
    assert_eq!(expand_newlines("a\nb"), "a\nb");
}

#[test]
fn line_counts_match_lines() {
    for s in ["", "a", "a\n", "a\nb", "a\n\nb\n", "\n", "x\r\ny"] {
        assert_eq!(count_newlines(s), s.lines().count(), "{s:?}");
    }
}

#[test]
fn name_order_is_str_order() {
    let names = ["", "a", "ab", "b", "B", "é", "agent.btc", "agent_early.btc"];
    for a in names {
        for b in names {
            assert_eq!(str_less(a, b), a < b, "{a:?} {b:?}");
        }
    }
}

#[test]
fn sorting_names() {
    let names: Vec<String> = ["red/agent.btc", "agent_early.btc", "green/spawner.btc"].iter().map(|s| s.to_string()).collect();
    assert_eq!(sort_names(&names), vec!["agent_early.btc", "green/spawner.btc", "red/agent.btc"]);
    assert!(sort_names(&vec![]).is_empty());
}

fn vfs() -> StaticVfs {
    StaticVfs::new("tree A\r\n", "tree B", "tree C\r\nx", "tree D", "tree E")
}

#[test]
fn static_vfs_serves_its_files() {
    let v = vfs();
    assert_eq!(
        v.list_files(),
        vec!["agent_early.btc", "green/agent.btc", "green/spawner.btc", "red/agent.btc", "red/spawner.btc"]
    );
    assert_eq!(v.get_file("green/agent.btc"), Ok("tree A\n".to_string()));
    assert_eq!(v.get_file("red/agent.btc"), Ok("tree C\nx".to_string()));
    assert_eq!(v.get_file("nope.btc"), Err("File not found".to_string()));
}

#[test]
fn static_vfs_save_delete_reset() {
    let mut v = vfs();
    assert_eq!(v.save_file("mine.btc", "x"), Ok(()));
    assert_eq!(v.get_file("mine.btc"), Ok("x".to_string()));
    assert_eq!(v.save_file("green/agent.btc", "y"), Ok(()));
    assert_eq!(v.get_file("green/agent.btc"), Ok("y".to_string()));
    assert_eq!(v.list_files().len(), 6);
    assert_eq!(v.delete_file("red/spawner.btc"), Ok(()));
    assert_eq!(v.delete_file("red/spawner.btc"), Err("File not found".to_string()));
    assert_eq!(v.get_file("red/spawner.btc"), Err("File not found".to_string()));
    assert_eq!(v.reset(), Ok(()));
    assert_eq!(v.get_file("green/agent.btc"), Ok("tree A\n".to_string()));
    assert_eq!(v.get_file("mine.btc"), Err("File not found".to_string()));
    assert_eq!(v.list_files().len(), 5);
}

#[test]
fn interpolation_fills_braces_in_order() {
    assert_eq!(interpolate("Hello {} and {}", Some("a"), Some("b")), "Hello a and b");
    assert_eq!(interpolate("Hello {} and {}", Some("a"), None), "Hello a and {}");
    assert_eq!(interpolate("Hello {} and {}", None, Some("b")), "Hello {} and {}");
    assert_eq!(interpolate("{}!", Some("x{}"), Some("y")), "xy!");
    assert_eq!(interpolate("no braces", Some("a"), Some("b")), "no braces");
    for s in ["", "{", "}", "{}", "a{}b{}c", "{{}}", "é{}ü"] {
        for r in ["", "Z", "{}"] {
            assert_eq!(replace_first(s, r), s.replacen("{}", r, 1), "{s:?} {r:?}");
        }
    }
}

#[test]
fn behavior_sources_are_checked_before_use() {
    use_check();
}

fn use_check() {
    let ok = "tree main = Sequence {\n    Print\n}\n";
    assert_eq!(swarm_rs::bt_source::check_behavior_source(ok), swarm_rs::bt_source::SourceCheck::Accepted);
    let broken = "tree main = Sequence {\n    Print\n}\n}}}\n";
    match swarm_rs::bt_source::check_behavior_source(broken) {
        swarm_rs::bt_source::SourceCheck::EndedAt(n) => assert_eq!(n, 3),
        other => panic!("unexpected {other:?}"),
    }
    assert_eq!(swarm_rs::text::count_lines_before("a\nb\nc", 3), 2);
}
