//! Which program opens a link on each desktop, and the allowlist a link must
//! pass before anything is run.

use lib::sys::browser::{argv, Argv, Desktop, OpenError, Vetted};

/// Every desktop the reader knows.
const ALL: [Desktop; 3] = [Desktop::Xdg, Desktop::Macos, Desktop::Windows];
/// The argument vector for every platform, asserted and never run. This is
/// the whole test of the Windows and macOS spellings — there is no machine
/// in this loop that could execute either.
#[test]
fn each_platform_gets_its_documented_argv() {
    let url = "https://example.com/a?b=c";
    assert_eq!(
        argv(Desktop::Xdg, url),
        Argv {
            program: "xdg-open",
            args: vec![url.to_string()]
        }
    );
    assert_eq!(
        argv(Desktop::Macos, url),
        Argv {
            program: "open",
            args: vec![url.to_string()]
        }
    );
    assert_eq!(
        argv(Desktop::Windows, url),
        Argv {
            program: "rundll32",
            args: vec![
                "url.dll,FileProtocolHandler".to_string(),
                url.to_string()
            ]
        }
    );
}

/// `cmd /c start` is what this must never become, on any platform.
#[test]
fn no_platform_runs_a_shell() {
    for d in ALL {
        let a = argv(d, "https://x");
        for forbidden in ["cmd", "cmd.exe", "sh", "bash", "start", "powershell"] {
            assert_ne!(a.program, forbidden, "{d:?} must not run a shell");
            assert!(
                !a.args.iter().any(|s| s == forbidden),
                "{d:?} must not pass {forbidden}"
            );
        }
        assert!(!a.program.contains(' '), "{d:?}: program is one word");
    }
}

/// A hostile URL survives as exactly one argument, byte for byte: nothing
/// on this path quotes, escapes, splits or concatenates it, so there is
/// nothing for a shell (which is never involved) to re-read.
#[test]
fn a_hostile_url_stays_one_untouched_argument() {
    let nasty = "https://x/?a=1&b=2|c;rm -rf /`whoami`$(id)\"'\n\\%windir%^&";
    for d in ALL {
        let a = argv(d, nasty);
        assert_eq!(
            a.args.iter().filter(|s| s.contains(nasty)).count(),
            1,
            "{d:?}: the url appears once"
        );
        assert!(a.args.contains(&nasty.to_string()), "{d:?}: verbatim");
        // The URL is always the last argument, and nothing was appended to
        // it or prefixed onto it.
        assert_eq!(a.args.last().map(String::as_str), Some(nasty));
    }
}

/// Every allowed scheme reaches the same one-argument shape.
#[test]
fn mailto_is_passed_like_any_other_url() {
    for d in ALL {
        let a = argv(d, "mailto:someone@example.com?subject=hi there");
        assert_eq!(
            a.args.last().map(String::as_str),
            Some("mailto:someone@example.com?subject=hi there")
        );
    }
}

/// The structural half of opening a link outside the reader:
/// `open` cannot be reached without a scheme that some allowlist admitted,
/// and this is what "admitted" means.
#[test]
fn only_a_scheme_on_the_list_can_be_vetted() {
    let list = ["http", "https", "mailto"];
    for url in ["http://x", "https://x/a?b#c", "mailto:a@b", "HTTPS://x"] {
        assert_eq!(Vetted::new(url, &list).map(|v| v.url()), Some(url), "{url}");
    }
    for url in [
        "file:///etc/passwd",
        "javascript:alert(1)",
        "vbscript:msgbox(1)",
        "data:text/html,x",
        "models/A.md",
        "#anchor",
        "",
    ] {
        assert!(Vetted::new(url, &list).is_none(), "{url} must not vet");
    }
}

/// An empty allowlist admits nothing, so a caller that forgot its list gets
/// no token rather than a default-open.
#[test]
fn an_empty_allowlist_vets_nothing() {
    assert!(Vetted::new("https://example.com", &[]).is_none());
}

/// The URL reaches `argv` byte for byte through the token.
#[test]
fn vetting_does_not_touch_the_url() {
    let url = "https://x/?a=1&b=2|c;\"'`$( )";
    let v = Vetted::new(url, &["https"]).expect("https is on the list");
    assert_eq!(v.url(), url);
    assert_eq!(argv(Desktop::Xdg, v.url()).args.last().map(String::as_str), Some(url));
}


/// The two failures a reader can actually hit both read as English and name
/// the program, because "nothing happened" is the worst possible answer.
#[test]
fn failures_name_the_program() {
    let missing = OpenError::Missing("xdg-open").message();
    assert!(missing.contains("xdg-open"), "{missing}");
    assert!(missing.contains("not installed"), "{missing}");
    let failed = OpenError::Failed {
        program: "open",
        why: "permission denied".to_string(),
    }
    .message();
    assert!(failed.contains("open") && failed.contains("permission denied"), "{failed}");
}
