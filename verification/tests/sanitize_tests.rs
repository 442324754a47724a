//! App-id sanitization: the grammar check, the namespacing, and the
//! hashed substitution.

use sni_icon::sanitize::{is_valid_interface_name, sanitize_app_id};

#[test]
fn valid_app_id_is_namespaced_verbatim() {
    let s = sanitize_app_id("Example");
    assert_eq!(s, "org.qubes_os.vm.app_id.Example");
}

#[test]
fn invalid_app_id_is_hashed() {
    // The digest is SHA-256 over the namespaced candidate's bytes,
    // rendered as 64 lowercase hex characters.
    let s = sanitize_app_id("Not A Valid DBus Name!");
    assert_eq!(
        s,
        "org.qubes_os.vm.hashed_app_id.19cb3f4a6dcdbc7df1bd080d77ba953b8a4977306731d0cf399cd5ed27d25433"
    );
}

#[test]
fn hashed_form_is_deterministic() {
    let a = sanitize_app_id("Not A Valid DBus Name!");
    let b = sanitize_app_id("Not A Valid DBus Name!");
    assert_eq!(a, b);
    let suffix = &a["org.qubes_os.vm.hashed_app_id.".len()..];
    assert_eq!(suffix.len(), 64);
    assert!(suffix.chars().all(|c| c.is_ascii_hexdigit() && !c.is_ascii_uppercase()));
}

#[test]
fn sanitizing_twice_equals_once() {
    // The result of sanitizing a valid id is itself a valid interface
    // name, so running the validity-driven substitution again changes
    // nothing.
    let once = sanitize_app_id("Example");
    assert!(is_valid_interface_name(&once));
    // The hashed form is a valid interface name whenever its digest
    // element does not begin with a digit.
    let hashed = sanitize_app_id("Not Valid!");
    assert!(hashed.ends_with("f52c442d726b11031d0046e67c4fb96afa606860cb8514cd9f51fb37f3a20a5e"));
    assert!(is_valid_interface_name(&hashed));
    // A digest that happens to begin with a digit yields a name whose
    // last element starts with that digit, which the grammar refuses.
    let digit_led = sanitize_app_id("Not A Valid DBus Name!");
    assert!(!is_valid_interface_name(&digit_led));
}

#[test]
fn interface_name_grammar() {
    assert!(is_valid_interface_name("org.example.Foo"));
    assert!(is_valid_interface_name("a.b"));
    assert!(is_valid_interface_name("a._1"));
    assert!(!is_valid_interface_name(""));
    assert!(!is_valid_interface_name("foo"));
    assert!(!is_valid_interface_name(".foo.bar"));
    assert!(!is_valid_interface_name("foo.bar."));
    assert!(!is_valid_interface_name("foo..bar"));
    assert!(!is_valid_interface_name("foo.1bar"));
    assert!(!is_valid_interface_name("1foo.bar"));
    assert!(!is_valid_interface_name("foo.b ar"));
    assert!(!is_valid_interface_name("foo.b-ar"));
    let long = format!("a.{}", "b".repeat(300));
    assert!(!is_valid_interface_name(&long));
    let just_fits = format!("a.{}", "b".repeat(253));
    assert!(is_valid_interface_name(&just_fits));
    let too_long = format!("a.{}", "b".repeat(254));
    assert!(!is_valid_interface_name(&too_long));
}

#[test]
fn empty_app_id_is_hashed() {
    // "org.qubes_os.vm.app_id." ends with a dot, so it is not a valid
    // interface name and the hashed form is substituted.
    let s = sanitize_app_id("");
    assert!(s.starts_with("org.qubes_os.vm.hashed_app_id."));
    assert_eq!(s.len(), "org.qubes_os.vm.hashed_app_id.".len() + 64);
}
