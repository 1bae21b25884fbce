use repo_parse_rs::{parse, split_once, ParseError, RepoUrl};

#[test]
fn split_once_end() {
    assert_eq!(Some(("start", "")), split_once("start/", '/'))
}

#[test]
fn split_once_start() {
    assert_eq!(Some(("", "end")), split_once("/end", '/'))
}

#[test]
fn split_once_first_occurrence_only() {
    assert_eq!(Some(("a", "b:c:d")), split_once("a:b:c:d", ':'));
}

#[test]
fn split_once_absent() {
    assert_eq!(None, split_once("no delimiter here", ':'));
}

#[test]
fn git_ssh() {
    let url = "git@example.com:hello/world.git";
    if let Ok(RepoUrl::Ssh { user, server, path }) = parse(url) {
        assert_eq!(user, "git");
        assert_eq!(server, "example.com");
        assert_eq!(path, "hello/world");
    } else {
        unreachable!();
    }
}

#[test]
fn git_http() {
    let url = "https://www.example.com/hello/world.git";
    if let Ok(RepoUrl::Https { server, path }) = parse(url) {
        assert_eq!(server, "example.com");
        assert_eq!(path, "hello/world");
    } else {
        unreachable!();
    }
}

#[test]
fn fails_missing_protocol() {
    let url = "www.example.com/hello/world.git";
    assert_eq!(Err(ParseError::MissingDelimiter(':')), parse(url).map(|_| ()));
}

#[test]
fn fails_missing_path() {
    let url = "https://www.example.com";
    assert_eq!(Err(ParseError::MissingDelimiter('/')), parse(url).map(|_| ()));
}

#[test]
fn fails_missing_at_sign() {
    let url = "example.com:hello/world.git";
    assert_eq!(Err(ParseError::MissingDelimiter('@')), parse(url).map(|_| ()));
}

#[test]
fn http_without_www() {
    let url = "http://example.com/a/b";
    if let Ok(RepoUrl::Https { server, path }) = parse(url) {
        assert_eq!(server, "example.com");
        assert_eq!(path, "a/b");
    } else {
        unreachable!();
    }
}

#[test]
fn surrounding_whitespace_is_trimmed() {
    let url = "  \tgit@example.com:hello/world.git\n ";
    if let Ok(RepoUrl::Ssh { user, server, path }) = parse(url) {
        assert_eq!(user, "git");
        assert_eq!(server, "example.com");
        assert_eq!(path, "hello/world");
    } else {
        unreachable!();
    }
}

#[test]
fn empty_segments_are_accepted() {
    if let Ok(RepoUrl::Ssh { user, server, path }) = parse("@:") {
        assert_eq!(user, "");
        assert_eq!(server, "");
        assert_eq!(path, "");
    } else {
        unreachable!();
    }
}

#[test]
fn https_empty_server_and_path() {
    if let Ok(RepoUrl::Https { server, path }) = parse("https:///") {
        assert_eq!(server, "");
        assert_eq!(path, "");
    } else {
        unreachable!();
    }
}

#[test]
fn git_suffix_stripped_once_at_end_only() {
    let url = "git@example.com:a.git/b.git.git";
    if let Ok(RepoUrl::Ssh { user, server, path }) = parse(url) {
        assert_eq!(user, "git");
        assert_eq!(server, "example.com");
        assert_eq!(path, "a.git/b.git");
    } else {
        unreachable!();
    }
}

#[test]
fn strip_reappend_restrip_is_stable() {
    let stripped = match parse("git@example.com:hello/world.git") {
        Ok(RepoUrl::Ssh { path, .. }) => path.to_string(),
        _ => unreachable!(),
    };
    let reappended = format!("git@example.com:{}.git", stripped);
    match parse(&reappended) {
        Ok(RepoUrl::Ssh { path, .. }) => assert_eq!(path, stripped),
        _ => unreachable!(),
    }
}

#[test]
fn prefix_matching_is_case_sensitive() {
    assert_eq!(
        Err(ParseError::MissingDelimiter('@')),
        parse("HTTP://example.com/a").map(|_| ())
    );
}
