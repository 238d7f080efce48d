use ptrace_binds::bind::{path_suffix, resolve_bind, Args};

fn binds(pairs: &[(&str, &str)]) -> Vec<(String, String)> {
    pairs
        .iter()
        .map(|(host, guest)| (host.to_string(), guest.to_string()))
        .collect()
}

#[test]
fn path_suffix_matches_exact_and_nested() {
    assert_eq!(path_suffix("/guest", "/guest"), Some(""));
    assert_eq!(path_suffix("/guest/app", "/guest"), Some("/app"));
    assert_eq!(path_suffix("/guest/app", "/guest/"), Some("app"));
}

#[test]
fn path_suffix_rejects_non_matches() {
    assert_eq!(path_suffix("/guestroom/app", "/guest"), None);
    assert_eq!(path_suffix("/guest", "/guestroom"), None);
    assert_eq!(path_suffix("/other/app", "/guest"), None);
}

#[test]
fn path_suffix_of_the_empty_guest_is_none() {
    assert_eq!(path_suffix("/guest", ""), None);
    assert_eq!(path_suffix("", ""), None);
    assert_eq!(path_suffix("", "/guest"), None);
}

#[test]
fn path_suffix_counts_characters_not_bytes() {
    assert_eq!(path_suffix("/gäste/tür", "/gäste"), Some("/tür"));
    assert_eq!(path_suffix("/gäste/tür", "/g"), None);
    // The two names share the first byte of their last character.
    assert_eq!(path_suffix("/tä", "/tö"), None);
    assert_eq!(path_suffix("/t\u{10348}/x", "/t\u{10348}"), Some("/x"));
}

#[test]
fn path_suffix_ends_a_guest_at_a_slash() {
    assert_eq!(path_suffix("/guest/", "/guest"), Some("/"));
    assert_eq!(path_suffix("/guest//app", "/guest/"), Some("/app"));
    assert_eq!(path_suffix("/guest", "/guest/"), None);
}

#[test]
fn resolve_bind_prefers_longest_guest_prefix() {
    let binds = vec![
        ("/host".to_string(), "/guest".to_string()),
        ("/host/app".to_string(), "/guest/app".to_string()),
    ];
    let resolved = resolve_bind("/guest/app/bin", &binds);
    assert_eq!(resolved, Some("/host/app/bin".to_string()));
}

#[test]
fn resolve_bind_returns_none_for_no_match() {
    let binds = vec![("/host".to_string(), "/guest".to_string())];
    assert_eq!(resolve_bind("/other/path", &binds), None);
}

#[test]
fn resolve_bind_handles_root_guest() {
    let binds = vec![("/host".to_string(), "/".to_string())];
    let resolved = resolve_bind("/etc/hosts", &binds);
    assert_eq!(resolved, Some("/host/etc/hosts".to_string()));
}

#[test]
fn resolve_bind_does_not_depend_on_order() {
    let one = binds(&[("/h", "/g"), ("/x", "/g/x"), ("/y", "/g/x/y")]);
    let two = binds(&[("/y", "/g/x/y"), ("/h", "/g"), ("/x", "/g/x")]);
    for path in ["/g", "/g/", "/g/x", "/g/xx", "/g/x/y/z", "/q"] {
        assert_eq!(resolve_bind(path, &one), resolve_bind(path, &two));
    }
    assert_eq!(resolve_bind("/g/x/y/z", &one), Some("/y/z".to_string()));
}

#[test]
fn resolve_bind_takes_the_first_of_equal_guests() {
    let binds = binds(&[("/first", "/g"), ("/second", "/g")]);
    assert_eq!(resolve_bind("/g/a", &binds), Some("/first/a".to_string()));
}

#[test]
fn resolve_bind_of_a_guest_is_its_host() {
    let binds = binds(&[("/h", "/g"), ("rel/", "/g/deep")]);
    assert_eq!(resolve_bind("/g", &binds), Some("/h".to_string()));
    assert_eq!(resolve_bind("/g/deep", &binds), Some("rel/".to_string()));
}

#[test]
fn resolve_bind_joins_with_the_slashes_that_are_there() {
    assert_eq!(
        resolve_bind("/g/a", &binds(&[("/h/", "/g")])),
        Some("/h//a".to_string())
    );
    assert_eq!(
        resolve_bind("/g/a", &binds(&[("/h/", "/g/")])),
        Some("/h/a".to_string())
    );
    assert_eq!(
        resolve_bind("/g/a", &binds(&[("/h", "/g/")])),
        Some("/h/a".to_string())
    );
    assert_eq!(
        resolve_bind("/g/a", &binds(&[("", "/g/")])),
        Some("/a".to_string())
    );
}

#[test]
fn resolve_bind_without_binds_is_none() {
    assert_eq!(resolve_bind("/g", &[]), None);
}

#[test]
fn args_hold_a_command_and_its_binds() {
    let args = Args {
        command: "true".to_string(),
        binds: binds(&[("/h", "/g")]),
    };
    assert_eq!(args.command, "true");
    assert_eq!(resolve_bind("/g/a", &args.binds), Some("/h/a".to_string()));
}
