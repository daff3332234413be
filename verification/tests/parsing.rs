use heyps::request::{AppAbbr, ScriptType, TargetVersion, parse_request, parse_target};

#[test]
fn abbr_parses_each_known_application() {
    assert_eq!(AppAbbr::from_str("ps"), Ok(AppAbbr::Ps));
    assert_eq!(AppAbbr::from_str("ai"), Ok(AppAbbr::Ai));
    assert_eq!(AppAbbr::from_str("ae"), Ok(AppAbbr::Ae));
}

#[test]
fn abbr_rejects_anything_else() {
    let e = AppAbbr::from_str("pr").unwrap_err();
    assert_eq!(e, "Unsupported application. Use: ps|ai|ae");
    assert!(AppAbbr::from_str("").is_err());
    assert!(AppAbbr::from_str("PS").is_err());
    assert!(AppAbbr::from_str("psd").is_err());
}

#[test]
fn target_parses_the_three_forms() {
    assert_eq!(parse_target("latest"), Ok(TargetVersion::Latest));
    assert_eq!(parse_target("beta"), Ok(TargetVersion::Beta));
    assert_eq!(parse_target("2024"), Ok(TargetVersion::Year(2024)));
    assert_eq!(parse_target("2000"), Ok(TargetVersion::Year(2000)));
    assert_eq!(parse_target("2099"), Ok(TargetVersion::Year(2099)));
}

#[test]
fn target_rejects_other_shapes_naming_the_accepted_forms() {
    for bad in ["", "Latest", "BETA", "1999", "202", "20245", "20ab", "2o24", "x024"] {
        let e = parse_target(bad).unwrap_err();
        assert_eq!(e, format!("Invalid target: {}. Use: latest, beta, or 20XX", bad));
    }
}

#[test]
fn unknown_identifier_fails_before_the_selector_is_parsed() {
    // Both arguments invalid: the identifier's error comes back,
    // showing the selector string was never reached.
    let e = parse_request("xx", "not-a-target").unwrap_err();
    assert_eq!(e, "Unsupported application. Use: ps|ai|ae");
    // Identifier invalid, selector valid: still the identifier's error.
    let e = parse_request("xx", "latest").unwrap_err();
    assert_eq!(e, "Unsupported application. Use: ps|ai|ae");
    // Identifier valid, selector invalid: now the selector's error.
    let e = parse_request("ps", "nightly").unwrap_err();
    assert_eq!(e, "Invalid target: nightly. Use: latest, beta, or 20XX");
    assert_eq!(
        parse_request("ae", "2022"),
        Ok((AppAbbr::Ae, TargetVersion::Year(2022)))
    );
}

#[test]
fn script_type_reads_the_extension() {
    assert_eq!(ScriptType::from_path("run.psjs"), Ok(ScriptType::Psjs));
    assert_eq!(ScriptType::from_path("/tmp/scripts/run.jsx"), Ok(ScriptType::Jsx));
    assert_eq!(ScriptType::from_path("a/b/c.js"), Ok(ScriptType::Js));
}

#[test]
fn script_type_is_case_insensitive() {
    assert_eq!(ScriptType::from_path("run.PSJS"), Ok(ScriptType::Psjs));
    assert_eq!(ScriptType::from_path("run.PsJs"), Ok(ScriptType::Psjs));
    assert_eq!(ScriptType::from_path("run.JSX"), Ok(ScriptType::Jsx));
    assert_eq!(ScriptType::from_path("run.Js"), Ok(ScriptType::Js));
}

#[test]
fn script_type_rejects_missing_extensions() {
    let e = ScriptType::from_path("runjs").unwrap_err();
    assert_eq!(e, "The script file does not have an extension");
    // A dot in a directory name is not an extension of the file.
    let e = ScriptType::from_path("dir.d/runjs").unwrap_err();
    assert_eq!(e, "The script file does not have an extension");
    // A leading dot hides the file rather than giving it an extension.
    let e = ScriptType::from_path("/tmp/.jsx").unwrap_err();
    assert_eq!(e, "The script file does not have an extension");
}

#[test]
fn script_type_rejects_unknown_extensions() {
    let e = ScriptType::from_path("run.txt").unwrap_err();
    assert_eq!(e, "Unsupported file type (supported: .psjs, .jsx, .js)");
    assert!(ScriptType::from_path("run.jsxx").is_err());
    assert!(ScriptType::from_path("run.j").is_err());
    assert!(ScriptType::from_path("run.").is_err());
}

#[test]
fn display_names_and_bundle_ids_are_fixed() {
    assert_eq!(AppAbbr::Ps.base_display_name(), "Adobe Photoshop");
    assert_eq!(AppAbbr::Ai.base_display_name(), "Adobe Illustrator");
    assert_eq!(AppAbbr::Ae.base_display_name(), "Adobe After Effects");
    assert_eq!(AppAbbr::Ps.bundle_id(), "com.adobe.Photoshop");
    assert_eq!(AppAbbr::Ai.bundle_id(), "com.adobe.Illustrator");
    assert_eq!(AppAbbr::Ae.bundle_id(), "com.adobe.AfterEffects");
}
