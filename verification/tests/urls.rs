use gorg::git_url::from_parts;
use gorg::git_url::to_path;
use gorg::git_url::UrlError;

#[test]
fn from_parts_single_https() {
    let url = "https://github.com/jpallari/gorg.git";
    let parts = vec![url.to_string()];
    assert_eq!(from_parts(&parts).unwrap(), url);
}

#[test]
fn from_parts_no_scheme() {
    let url = "https://github.com/jpallari/gorg.git";
    let parts = vec![
        "github.com".to_string(),
        "jpallari".to_string(),
        "gorg".to_string(),
    ];
    assert_eq!(from_parts(&parts).unwrap(), url);
}

#[test]
fn from_parts_trailing_git() {
    let url = "https://github.com/jpallari/gorg.git";
    let parts = vec![
        "github.com".to_string(),
        "jpallari".to_string(),
        "gorg.git".to_string(),
    ];
    assert_eq!(from_parts(&parts).unwrap(), url);
}

#[test]
fn from_parts_with_scheme_ssh_default_user() {
    let url = "ssh://git@github.com/jpallari/gorg.git";
    let parts = vec![
        "ssh".to_string(),
        "github.com".to_string(),
        "jpallari".to_string(),
        "gorg".to_string(),
    ];
    assert_eq!(from_parts(&parts).unwrap(), url);
}

#[test]
fn from_parts_with_scheme_ssh_user() {
    let url = "ssh://user@github.com/jpallari/gorg.git";
    let parts = vec![
        "ssh".to_string(),
        "user@github.com".to_string(),
        "jpallari".to_string(),
        "gorg".to_string(),
    ];
    assert_eq!(from_parts(&parts).unwrap(), url);
}

#[test]
fn from_parts_with_scheme_http() {
    let url = "http://github.com/jpallari/gorg.git";
    let parts = vec![
        "http".to_string(),
        "github.com".to_string(),
        "jpallari".to_string(),
        "gorg".to_string(),
    ];
    assert_eq!(from_parts(&parts).unwrap(), url);
}

#[test]
fn from_parts_fail_on_no_parts() {
    assert_eq!(from_parts(&Vec::new()).is_err(), true);
}

#[test]
fn from_parts_invalid() {
    assert_eq!(
        from_parts(&vec!["file".to_string(), "path/to/repo".to_string(),]).is_err(),
        true
    );
    assert_eq!(
        from_parts(&vec!["file".to_string(), "/path/to/repo".to_string(),]).is_err(),
        true
    );
    assert_eq!(
        from_parts(&vec!["file".to_string(), "~/path/to/repo".to_string(),]).is_err(),
        true
    );
    assert_eq!(
        from_parts(&vec!["/".to_string(), "path/to/repo".to_string(),]).is_err(),
        true
    );
    assert_eq!(
        from_parts(&vec!["~".to_string(), "path/to/repo".to_string(),]).is_err(),
        true
    );
}

#[test]
fn to_path_empty() {
    assert_eq!(to_path("").is_err(), true);
}

#[test]
fn to_path_invalid_url() {
    assert_eq!(to_path("https://").is_err(), true);
    assert_eq!(to_path("file:///path/to/repo").is_err(), true);
    assert_eq!(to_path("/path/to/repo").is_err(), true);
    assert_eq!(to_path("~/path/to/repo").is_err(), true);
}

#[test]
fn to_path_https() {
    let url = "https://github.com/jpallari/gorg.git";
    let path = vec!["github.com", "jpallari", "gorg"];
    assert_eq!(to_path(url).unwrap(), path);
}

#[test]
fn to_path_ssh() {
    let url = "ssh://git@github.com/jpallari/gorg.git";
    let path = vec!["github.com", "jpallari", "gorg"];
    assert_eq!(to_path(url).unwrap(), path);
}

#[test]
fn to_path_ssh_with_port() {
    let url = "ssh://git@github.com:2022/jpallari/gorg.git";
    let path = vec!["github.com", "jpallari", "gorg"];
    assert_eq!(to_path(url).unwrap(), path);
}

#[test]
fn to_path_ssh_implied() {
    let url = "git@github.com:jpallari/gorg.git";
    let path = vec!["github.com", "jpallari", "gorg"];
    assert_eq!(to_path(url).unwrap(), path);
}

#[test]
fn to_path_ssh_with_user_home() {
    let url = "git@host.xyz:~user/repo.git";
    let path = vec!["host.xyz", "user", "repo"];
    assert_eq!(to_path(url).unwrap(), path);
}

#[test]
fn to_path_ssh_with_home_in_path() {
    let url = "ssh://git@host.xyz:~/user/repo.git";
    let path = vec!["host.xyz", "user", "repo"];
    assert_eq!(to_path(url).unwrap(), path);
}

#[test]
fn from_parts_error_variants() {
    assert_eq!(from_parts(&Vec::new()).unwrap_err(), UrlError::NoParts);
    assert_eq!(
        from_parts(&vec!["file".to_string(), "x".to_string()]).unwrap_err(),
        UrlError::FileUrlUnsupported
    );
}

#[test]
fn to_path_error_variants() {
    assert_eq!(to_path("  ").unwrap_err(), UrlError::EmptyUrl);
    assert_eq!(to_path("no-colon-here").unwrap_err(), UrlError::UnsupportedUrl);
    assert_eq!(to_path("https:/missing").unwrap_err(), UrlError::InvalidUrl);
    assert_eq!(to_path("file:///p").unwrap_err(), UrlError::FileUrlUnsupported);
    assert_eq!(to_path("https://hostonly").unwrap_err(), UrlError::InvalidUrl);
    assert_eq!(to_path("x: /").unwrap_err(), UrlError::NotEnoughParts);
}

#[test]
fn to_path_keeps_git_inside_inner_segments() {
    // only the final segment loses a .git suffix
    let url = "https://host/a.git/b";
    let path = vec!["host", "a.git", "b"];
    assert_eq!(to_path(url).unwrap(), path);
}

#[test]
fn from_parts_empty_extra_parts_are_skipped() {
    let parts = vec![
        "github.com".to_string(),
        "  ".to_string(),
        "gorg".to_string(),
    ];
    assert_eq!(from_parts(&parts).unwrap(), "https://github.com/gorg.git");
}
