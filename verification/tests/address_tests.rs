use zbus_core::address::{AddressError, UnixExec};

fn opts(pairs: &[(&str, &str)]) -> Vec<(String, String)> {
    pairs.iter().map(|(k, v)| (k.to_string(), v.to_string())).collect()
}

#[test]
fn from_options_reads_path_arg0_and_args() {
    let o = opts(&[
        ("path", "/usr/bin/dbus-proxy"),
        ("argv0", "proxy"),
        ("argv1", "--quiet"),
        ("argv2", "--session"),
    ]);
    let u = UnixExec::from_options(&o).unwrap();
    assert_eq!(u.path, "/usr/bin/dbus-proxy");
    assert_eq!(u.arg0.as_deref(), Some("proxy"));
    assert_eq!(u.args, vec!["--quiet".to_string(), "--session".to_string()]);
}

#[test]
fn from_options_stops_at_the_first_gap() {
    let o = opts(&[("path", "/bin/p"), ("argv1", "a"), ("argv3", "c")]);
    let u = UnixExec::from_options(&o).unwrap();
    assert_eq!(u.args, vec!["a".to_string()]);
    assert!(u.arg0.is_none());
}

#[test]
fn from_options_requires_a_path() {
    let o = opts(&[("argv1", "a")]);
    assert_eq!(UnixExec::from_options(&o).unwrap_err(), AddressError::MissingPath);
}

#[test]
fn new_keeps_its_parts() {
    let u = UnixExec::new(
        String::from("/bin/true"),
        None,
        vec![String::from("x")],
    );
    assert_eq!(u.path, "/bin/true");
    assert!(u.arg0.is_none());
    assert_eq!(u.args.len(), 1);
}
