use rustyknife::rfc3461::{
    dsn_mail_params, dsn_notify, orcpt_address, DSNMailParams, DSNRet,
};

#[test]
fn dsn_params_basic() {
    let input = &[("RET", Some("HDRS")), ("OTHER", None)];
    let (params, other) = dsn_mail_params(input).unwrap();
    assert_eq!(
        params,
        DSNMailParams {
            envid: None,
            ret: Some(DSNRet::Hdrs)
        }
    );
    assert_eq!(other, [("OTHER", None)]);
}

#[test]
fn dsn_params_full_and_envid() {
    let input = &[("ret", Some("full")), ("EnvId", Some("QQ314159"))];
    let (params, other) = dsn_mail_params(input).unwrap();
    assert_eq!(
        params,
        DSNMailParams {
            envid: Some("QQ314159".into()),
            ret: Some(DSNRet::Full)
        }
    );
    assert_eq!(other, []);
}

#[test]
fn dsn_params_envid_hex() {
    let input = &[("ENVID", Some("a+2Bb"))];
    let (params, _) = dsn_mail_params(input).unwrap();
    assert_eq!(params.envid, Some("a+b".into()));
}

#[test]
fn dsn_params_duplicate_ret() {
    let input = &[("RET", Some("FULL")), ("ret", Some("HDRS"))];
    assert_eq!(dsn_mail_params(input), Err("Duplicate RET"));
}

#[test]
fn dsn_params_duplicate_envid() {
    let input = &[("ENVID", Some("a")), ("envid", Some("b"))];
    assert_eq!(dsn_mail_params(input), Err("Duplicate ENVID"));
}

#[test]
fn dsn_params_errors() {
    assert_eq!(
        dsn_mail_params(&[("RET", Some("bogus"))]),
        Err("Invalid RET")
    );
    assert_eq!(dsn_mail_params(&[("RET", None)]), Err("RET without value"));
    assert_eq!(
        dsn_mail_params(&[("ENVID", None)]),
        Err("ENVID without value")
    );
    let long = "x".repeat(101);
    assert_eq!(
        dsn_mail_params(&[("ENVID", Some(&long))]),
        Err("ENVID over 100 bytes")
    );
    assert_eq!(
        dsn_mail_params(&[("ENVID", Some("a b"))]),
        Err("Invalid ENVID")
    );
}

#[test]
fn notify_never() {
    let (rem, n) = dsn_notify("never").unwrap();
    assert_eq!(rem, "");
    assert!(!n.on_success && !n.on_failure && !n.delay);

    let (rem, n) = dsn_notify("NeVeR").unwrap();
    assert_eq!(rem, "");
    assert!(!n.on_success && !n.on_failure && !n.delay);
}

#[test]
fn notify_combinations() {
    let (rem, n) = dsn_notify("success,delay").unwrap();
    assert_eq!(rem, "");
    assert!(n.on_success && !n.on_failure && n.delay);

    let (rem, n) = dsn_notify("FAILURE").unwrap();
    assert_eq!(rem, "");
    assert!(!n.on_success && n.on_failure && !n.delay);
}

#[test]
fn notify_never_excludes_others() {
    // "never" wins as a unit; a comma-joined continuation is not consumed
    let (rem, n) = dsn_notify("never,success").unwrap();
    assert_eq!(rem, ",success");
    assert!(!n.on_success && !n.on_failure && !n.delay);

    assert!(dsn_notify("sometimes").is_err());
}

#[test]
fn orcpt_split() {
    let (rem, split) = orcpt_address(b"rfc822;bob@example.org").unwrap();
    assert_eq!(rem.len(), 0);
    assert_eq!(split, ("rfc822".into(), "bob@example.org".into()));
}

#[test]
fn orcpt_hex_escape() {
    let (_, split) = orcpt_address(b"rfc822;bob+40example.org").unwrap();
    assert_eq!(split.1, "bob@example.org");
}
