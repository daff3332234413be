use heyps::dispatch::{
    DispatchCommand, DispatchError, Script, build_tell_command, command_outcome,
    escape_applescript_string, unescape_applescript_string,
};
use heyps::request::{AppAbbr, ScriptType, TargetVersion};
use heyps::resolve::App;

fn resolved(abbr: AppAbbr, name: &str, path: &str) -> App {
    App {
        abbr,
        bundle_id: abbr.bundle_id().to_string(),
        name: name.to_string(),
        path: path.to_string(),
        target: TargetVersion::Latest,
    }
}

#[test]
fn psjs_goes_through_the_open_facility_with_the_full_path() {
    let app = resolved(
        AppAbbr::Ps,
        "Adobe Photoshop 2024",
        "/Applications/Adobe Photoshop 2024/Adobe Photoshop 2024.app",
    );
    let script = Script::new(app, "/tmp/run.psjs", ScriptType::Psjs, false);
    let cmd = script.execute().unwrap();
    assert_eq!(
        cmd,
        DispatchCommand::Open {
            app_path: "/Applications/Adobe Photoshop 2024/Adobe Photoshop 2024.app".to_string(),
            file_path: "/tmp/run.psjs".to_string(),
        }
    );
}

#[test]
fn psjs_against_a_non_image_editor_fails_before_any_command_exists() {
    // The error comes back in place of a command: nothing to run was
    // ever produced, so nothing could have been spawned.
    let app = resolved(AppAbbr::Ai, "Adobe Illustrator 2024", "/Applications/AI.app");
    let script = Script::new(app, "/tmp/run.psjs", ScriptType::Psjs, false);
    let e = script.execute().unwrap_err();
    assert_eq!(e, DispatchError::PsjsRequiresPhotoshop);
    assert_eq!(e.message(), ".psjs is only supported by Adobe Photoshop");
}

#[test]
fn plain_js_against_the_motion_graphics_product_names_the_required_extension() {
    let app = resolved(AppAbbr::Ae, "Adobe After Effects 2024", "/Applications/AE.app");
    let script = Script::new(app, "/tmp/run.js", ScriptType::Js, false);
    let e = script.execute().unwrap_err();
    assert_eq!(e, DispatchError::PlainJsUnsupported);
    assert!(e.message().contains(".jsx"));
    assert_eq!(e.message(), "After Effects does not support plain .js; use .jsx");
}

#[test]
fn jsx_builds_the_do_javascript_command_for_the_image_editor() {
    let app = resolved(AppAbbr::Ps, "Adobe Photoshop 2024", "/Applications/PS.app");
    let script = Script::new(app, "/tmp/run.jsx", ScriptType::Jsx, false);
    let cmd = script.execute().unwrap();
    assert_eq!(
        cmd,
        DispatchCommand::Osascript {
            command: "tell application \"Adobe Photoshop 2024\" to do javascript of \
                      (POSIX file \"/tmp/run.jsx\")"
                .to_string(),
        }
    );
}

#[test]
fn jsx_builds_the_do_script_file_command_for_the_motion_graphics_product() {
    let app = resolved(AppAbbr::Ae, "Adobe After Effects 2024", "/Applications/AE.app");
    let script = Script::new(app, "/tmp/run.jsx", ScriptType::Jsx, true);
    let cmd = script.execute().unwrap();
    assert_eq!(
        cmd,
        DispatchCommand::Osascript {
            command: "tell application \"Adobe After Effects 2024\" to DoScriptFile \
                      (POSIX file \"/tmp/run.jsx\")"
                .to_string(),
        }
    );
}

#[test]
fn js_goes_through_the_bridge_for_the_illustration_product() {
    let app = resolved(AppAbbr::Ai, "Adobe Illustrator 2024", "/Applications/AI.app");
    let script = Script::new(app, "/tmp/run.js", ScriptType::Js, false);
    let cmd = script.execute().unwrap();
    assert!(matches!(cmd, DispatchCommand::Osascript { .. }));
}

#[test]
fn quotes_and_backslashes_are_escaped_in_the_command_string() {
    let tricky = "/tmp/a \"quoted\" \\ path.jsx";
    let escaped = escape_applescript_string(tricky);
    assert_eq!(escaped, "/tmp/a \\\"quoted\\\" \\\\ path.jsx");

    let app = resolved(AppAbbr::Ps, "Adobe Photoshop 2024", "/Applications/PS.app");
    let script = Script::new(app, tricky, ScriptType::Jsx, false);
    let cmd = script.execute().unwrap();
    match cmd {
        DispatchCommand::Osascript { command } => {
            assert!(command.contains("\\\"quoted\\\""));
            assert!(command.contains("\\\\"));
        }
        other => panic!("expected a scripting-bridge command, got {:?}", other),
    }
}

#[test]
fn escaping_then_unescaping_recovers_the_path() {
    for original in [
        "/plain/path.jsx",
        "/tmp/a \"quoted\" \\ path.jsx",
        "\\\\\"\"",
        "",
        "a\\\"b",
    ] {
        let escaped = escape_applescript_string(original);
        assert_eq!(unescape_applescript_string(&escaped), original);
    }
}

#[test]
fn the_command_names_the_application_by_display_name() {
    let cmd = build_tell_command(AppAbbr::Ai, "Adobe Illustrator 2023", "/tmp/x.js");
    assert_eq!(
        cmd,
        "tell application \"Adobe Illustrator 2023\" to do javascript of (POSIX file \"/tmp/x.js\")"
    );
}

#[test]
fn a_successful_exit_is_a_successful_dispatch() {
    assert_eq!(command_outcome(true, Some(0), ""), Ok(()));
}

#[test]
fn a_non_zero_exit_surfaces_the_code() {
    let e = command_outcome(false, Some(2), "").unwrap_err();
    assert_eq!(e, DispatchError::CommandFailed { code: 2, stderr: String::new() });
    assert!(e.message().contains('2'));
    assert_eq!(e.message(), "Command failed with status 2");
}

#[test]
fn a_missing_exit_code_becomes_the_sentinel() {
    let e = command_outcome(false, None, "killed").unwrap_err();
    assert_eq!(
        e,
        DispatchError::CommandFailed { code: -1, stderr: "killed".to_string() }
    );
    assert_eq!(e.message(), "Command failed with status -1: killed");
}

#[test]
fn the_failure_message_carries_the_captured_error_text() {
    let e = command_outcome(false, Some(1), "execution error: boom (-2700)").unwrap_err();
    assert_eq!(
        e.message(),
        "Command failed with status 1: execution error: boom (-2700)"
    );
}
