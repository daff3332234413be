use heyps::request::{AppAbbr, TargetVersion};
use heyps::resolve::{
    App, ResolveError, choose_app_path, discovery_outcome, filter_app_bundles, mdfind_query,
    sort_paths,
};

fn strings(v: &[&str]) -> Vec<String> {
    v.iter().map(|s| s.to_string()).collect()
}

#[test]
fn choice_is_deterministic_and_order_independent() {
    let a = strings(&[
        "/Applications/Adobe Photoshop 2023/Adobe Photoshop 2023.app",
        "/Applications/Adobe Photoshop 2022/Adobe Photoshop 2022.app",
        "/Applications/Adobe Photoshop (Beta)/Adobe Photoshop (Beta).app",
    ]);
    let b = strings(&[
        "/Applications/Adobe Photoshop (Beta)/Adobe Photoshop (Beta).app",
        "/Applications/Adobe Photoshop 2023/Adobe Photoshop 2023.app",
        "/Applications/Adobe Photoshop 2022/Adobe Photoshop 2022.app",
    ]);
    for target in [
        TargetVersion::Latest,
        TargetVersion::Beta,
        TargetVersion::Year(2022),
    ] {
        let first = choose_app_path(&a, &target);
        let second = choose_app_path(&a, &target);
        assert_eq!(first, second);
        assert_eq!(first, choose_app_path(&b, &target));
    }
}

#[test]
fn latest_takes_the_last_non_beta() {
    let paths = strings(&[
        "/Applications/X 2022.app",
        "/Applications/X 2023.app",
        "/Applications/X (Beta).app",
    ]);
    assert_eq!(
        choose_app_path(&paths, &TargetVersion::Latest),
        Some("/Applications/X 2023.app".to_string())
    );
}

#[test]
fn latest_falls_back_to_a_lone_beta() {
    let paths = strings(&["/Applications/X (Beta).app"]);
    assert_eq!(
        choose_app_path(&paths, &TargetVersion::Latest),
        Some("/Applications/X (Beta).app".to_string())
    );
}

#[test]
fn beta_takes_the_last_beta() {
    let paths = strings(&[
        "/Applications/X 2023.app",
        "/Applications/X (Beta) 2/X (Beta).app",
        "/Applications/X (Beta) 1/X (Beta).app",
    ]);
    assert_eq!(
        choose_app_path(&paths, &TargetVersion::Beta),
        Some("/Applications/X (Beta) 2/X (Beta).app".to_string())
    );
}

#[test]
fn beta_with_no_beta_candidates_finds_nothing() {
    let paths = strings(&["/Applications/X 2022.app", "/Applications/X 2023.app"]);
    assert_eq!(choose_app_path(&paths, &TargetVersion::Beta), None);
}

#[test]
fn beta_with_no_beta_candidates_fails_with_beta_not_found() {
    let discovered = strings(&["/Applications/X 2022.app", "/Applications/X 2023.app"]);
    let e = App::new(AppAbbr::Ps, TargetVersion::Beta, &discovered).unwrap_err();
    assert_eq!(
        e,
        ResolveError::VersionNotFound { target: TargetVersion::Beta }
    );
    assert_eq!(e.message(), "beta not found");
}

#[test]
fn year_selector_scans_by_substring_not_sort_position() {
    let paths = strings(&[
        "/Applications/X 2021.app",
        "/Applications/X 2022.app",
        "/Applications/X 2023.app",
    ]);
    assert_eq!(
        choose_app_path(&paths, &TargetVersion::Year(2022)),
        Some("/Applications/X 2022.app".to_string())
    );
}

#[test]
fn year_selector_fails_naming_the_year() {
    let discovered = strings(&["/Applications/X 2023.app"]);
    let e = App::new(AppAbbr::Ai, TargetVersion::Year(2020), &discovered).unwrap_err();
    assert_eq!(
        e,
        ResolveError::VersionNotFound { target: TargetVersion::Year(2020) }
    );
    assert_eq!(e.message(), "no release found for year 2020");
}

#[test]
fn resolution_populates_every_field() {
    let discovered = strings(&[
        "/Applications/Adobe Photoshop 2024/Adobe Photoshop 2024.app",
        "/Applications/Adobe Photoshop 2024/notes.txt",
    ]);
    let app = App::new(AppAbbr::Ps, TargetVersion::Latest, &discovered).unwrap();
    assert_eq!(app.abbr, AppAbbr::Ps);
    assert_eq!(app.bundle_id, "com.adobe.Photoshop");
    assert_eq!(app.name, "Adobe Photoshop 2024");
    assert_eq!(
        app.path,
        "/Applications/Adobe Photoshop 2024/Adobe Photoshop 2024.app"
    );
    assert_eq!(app.target, TargetVersion::Latest);
    assert_eq!(app.describe(), "Adobe Photoshop 2024 [latest]");
}

#[test]
fn resolution_with_no_bundles_fails_naming_identifier_and_key() {
    let discovered = strings(&["/Applications/readme.txt"]);
    let e = App::new(AppAbbr::Ae, TargetVersion::Latest, &discovered).unwrap_err();
    assert_eq!(e, ResolveError::NotFound { abbr: AppAbbr::Ae });
    assert_eq!(
        e.message(),
        "Adobe After Effects not found (bundle id: com.adobe.AfterEffects)"
    );
}

#[test]
fn only_app_bundles_survive_the_filter() {
    let discovered = strings(&[
        "/Applications/X 2024.app",
        "/Applications/X 2024.app/Contents/Info.plist",
        "/tmp/X.dmg",
        "",
        "/Applications/Y.app",
    ]);
    let kept = filter_app_bundles(&discovered);
    assert_eq!(kept, strings(&["/Applications/X 2024.app", "/Applications/Y.app"]));
}

#[test]
fn sorting_is_lexicographic_and_total() {
    let paths = strings(&["/b.app", "/a (Beta).app", "/a 2024.app", "/a 2024.app"]);
    let sorted = sort_paths(&paths);
    assert_eq!(
        sorted,
        strings(&["/a (Beta).app", "/a 2024.app", "/a 2024.app", "/b.app"])
    );
}

#[test]
fn discovery_success_splits_the_reported_lines() {
    let stdout = "/Applications/X.app\n/Applications/Y.app\n";
    let r = discovery_outcome(true, stdout, "").unwrap();
    assert_eq!(r, strings(&["/Applications/X.app", "/Applications/Y.app"]));
    assert_eq!(discovery_outcome(true, "", "").unwrap(), Vec::<String>::new());
}

#[test]
fn discovery_failure_carries_the_captured_text() {
    let e = discovery_outcome(false, "", "index unavailable").unwrap_err();
    assert_eq!(e, "mdfind failed: index unavailable");
}

#[test]
fn nothing_discovered_means_nothing_chosen() {
    let none: Vec<String> = Vec::new();
    assert_eq!(choose_app_path(&none, &TargetVersion::Latest), None);
    assert_eq!(choose_app_path(&none, &TargetVersion::Beta), None);
    assert_eq!(choose_app_path(&none, &TargetVersion::Year(2024)), None);
}

#[test]
fn year_resolution_picks_the_matching_bundle() {
    let discovered = strings(&[
        "/Applications/Adobe Illustrator 2023/Adobe Illustrator 2023.app",
        "/Applications/Adobe Illustrator 2021/Adobe Illustrator 2021.app",
        "/Applications/Adobe Illustrator 2022/Adobe Illustrator 2022.app",
    ]);
    let app = App::new(AppAbbr::Ai, TargetVersion::Year(2022), &discovered).unwrap();
    assert_eq!(app.name, "Adobe Illustrator 2022");
    assert_eq!(app.describe(), "Adobe Illustrator 2022 [2022]");
}

#[test]
fn describe_tags_the_name_with_the_selector() {
    let discovered = strings(&["/Applications/X (Beta).app"]);
    let app = App::new(AppAbbr::Ps, TargetVersion::Beta, &discovered).unwrap();
    assert_eq!(app.describe(), "X (Beta) [beta]");
}

#[test]
fn discovery_handles_carriage_returns_and_blank_lines() {
    let stdout = "/Applications/X.app\r\n\r\n/Applications/Y.app";
    let r = discovery_outcome(true, stdout, "").unwrap();
    assert_eq!(r, strings(&["/Applications/X.app", "", "/Applications/Y.app"]));
    // The blank line is no bundle and resolution never sees it.
    assert_eq!(
        filter_app_bundles(&r),
        strings(&["/Applications/X.app", "/Applications/Y.app"])
    );
}

#[test]
fn the_query_matches_the_bundle_identifier_field_exactly() {
    assert_eq!(
        mdfind_query("com.adobe.Photoshop"),
        "kMDItemCFBundleIdentifier == \"com.adobe.Photoshop\""
    );
}
