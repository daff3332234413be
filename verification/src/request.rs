//! The user's request: which application, which version, which script.
//!
//! Everything here is exact string parsing over a small closed set of
//! forms; each parser's contract says precisely which inputs succeed,
//! what they produce, and which message every rejected input earns.

use vstd::prelude::*;
use vstd::string::StrSliceExecFns;
use crate::text;

verus! {

/// The application an abbreviation stands for.
#[derive(Clone, Copy, Debug, PartialEq, Eq, Structural)]
pub enum AppAbbr {
    /// The image-editing product.
    Ps,
    /// The vector-illustration product.
    Ai,
    /// The motion-graphics product.
    Ae,
}

/// Which installed release of an application the user asked for.
#[derive(Clone, Copy, Debug, PartialEq, Eq, Structural)]
pub enum TargetVersion {
    /// The most recent release that is not a pre-release.
    Latest,
    /// The pre-release channel.
    Beta,
    /// The release of one specific year.
    Year(u16),
}

/// The kind of a script file, read off its extension.
#[derive(Clone, Copy, Debug, PartialEq, Eq, Structural)]
pub enum ScriptType {
    /// A native-playback script, accepted by the image editor alone.
    Psjs,
    /// An extended-scripting-bridge script.
    Jsx,
    /// A plain script.
    Js,
}

/// The abbreviation each application answers to.
pub open spec fn spec_parse_abbr(s: Seq<char>) -> Option<AppAbbr> {
    if s == "ps"@ {
        Some(AppAbbr::Ps)
    } else if s == "ai"@ {
        Some(AppAbbr::Ai)
    } else if s == "ae"@ {
        Some(AppAbbr::Ae)
    } else {
        None
    }
}

/// Whether `c` is a decimal digit.
pub open spec fn is_digit(c: char) -> bool {
    48 <= c as u32 <= 57
}

/// The value of the digit `c`.
pub open spec fn digit_val(c: char) -> nat
    recommends
        is_digit(c),
{
    (c as u32 - 48) as nat
}

/// Whether `s` is a four-character year of this century: `20` then two digits.
pub open spec fn is_year_form(s: Seq<char>) -> bool {
    s.len() == 4 && s[0] == '2' && s[1] == '0' && is_digit(s[2]) && is_digit(s[3])
}

/// The year a string of the `20XX` form denotes.
pub open spec fn year_of(s: Seq<char>) -> u16
    recommends
        is_year_form(s),
{
    (2000 + 10 * digit_val(s[2]) + digit_val(s[3])) as u16
}

/// Which selector a version string denotes, if any.
pub open spec fn spec_parse_target(s: Seq<char>) -> Option<TargetVersion> {
    if s == "latest"@ {
        Some(TargetVersion::Latest)
    } else if s == "beta"@ {
        Some(TargetVersion::Beta)
    } else if is_year_form(s) {
        Some(TargetVersion::Year(year_of(s)))
    } else {
        None
    }
}

/// The message rejecting an unknown abbreviation.
pub open spec fn unsupported_app_msg() -> Seq<char> {
    "Unsupported application. Use: ps|ai|ae"@
}

/// The message rejecting a version string, naming the accepted forms.
pub open spec fn invalid_target_msg(s: Seq<char>) -> Seq<char> {
    "Invalid target: "@ + s + ". Use: latest, beta, or 20XX"@
}

impl AppAbbr {
    /// Parses an application abbreviation.
    pub fn from_str(s: &str) -> (r: Result<AppAbbr, String>)
        ensures
            match r {
                Ok(a) => spec_parse_abbr(s@) == Some(a),
                Err(e) => spec_parse_abbr(s@) is None && e@ == unsupported_app_msg(),
            },
    {
        if text::str_eq(s, "ps") {
            Ok(AppAbbr::Ps)
        } else if text::str_eq(s, "ai") {
            Ok(AppAbbr::Ai)
        } else if text::str_eq(s, "ae") {
            Ok(AppAbbr::Ae)
        } else {
            Err(String::from_str("Unsupported application. Use: ps|ai|ae"))
        }
    }

    /// The name of the application, as installations title themselves.
    pub fn base_display_name(&self) -> (r: &'static str)
        ensures
            r@ == spec_display_name(*self),
    {
        match self {
            AppAbbr::Ps => "Adobe Photoshop",
            AppAbbr::Ai => "Adobe Illustrator",
            AppAbbr::Ae => "Adobe After Effects",
        }
    }

    /// The unique identifier the host's metadata index files the
    /// application under.
    pub fn bundle_id(&self) -> (r: &'static str)
        ensures
            r@ == spec_bundle_id(*self),
    {
        match self {
            AppAbbr::Ps => "com.adobe.Photoshop",
            AppAbbr::Ai => "com.adobe.Illustrator",
            AppAbbr::Ae => "com.adobe.AfterEffects",
        }
    }
}

/// The human-readable base name of each application.
pub open spec fn spec_display_name(a: AppAbbr) -> Seq<char> {
    match a {
        AppAbbr::Ps => "Adobe Photoshop"@,
        AppAbbr::Ai => "Adobe Illustrator"@,
        AppAbbr::Ae => "Adobe After Effects"@,
    }
}

/// The discovery key of each application.
pub open spec fn spec_bundle_id(a: AppAbbr) -> Seq<char> {
    match a {
        AppAbbr::Ps => "com.adobe.Photoshop"@,
        AppAbbr::Ai => "com.adobe.Illustrator"@,
        AppAbbr::Ae => "com.adobe.AfterEffects"@,
    }
}

/// Parses a version selector: `latest`, `beta`, or a year `20XX`.
/// Every other string is rejected with the message naming those forms.
pub fn parse_target(s: &str) -> (r: Result<TargetVersion, String>)
    ensures
        match r {
            Ok(t) => spec_parse_target(s@) == Some(t),
            Err(e) => spec_parse_target(s@) is None && e@ == invalid_target_msg(s@),
        },
{
    if text::str_eq(s, "latest") {
        return Ok(TargetVersion::Latest);
    }
    if text::str_eq(s, "beta") {
        return Ok(TargetVersion::Beta);
    }
    let len = s.unicode_len();
    if len == 4 {
        let c0 = s.get_char(0);
        let c1 = s.get_char(1);
        let c2 = s.get_char(2);
        let c3 = s.get_char(3);
        if c0 == '2' && c1 == '0' && 48 <= c2 as u32 && c2 as u32 <= 57 && 48 <= c3 as u32
            && c3 as u32 <= 57 {
            let d2: u16 = (c2 as u32 - 48) as u16;
            let d3: u16 = (c3 as u32 - 48) as u16;
            return Ok(TargetVersion::Year(2000 + 10 * d2 + d3));
        }
    }
    let mut m = String::from_str("Invalid target: ");
    m.append(s);
    m.append(". Use: latest, beta, or 20XX");
    Err(m)
}

/// Parses the abbreviation and the version selector of one request,
/// the abbreviation first: when the abbreviation is unknown, the
/// selector string is never looked at, whatever it holds.
pub fn parse_request(app_s: &str, target_s: &str) -> (r: Result<(AppAbbr, TargetVersion), String>)
    ensures
        spec_parse_abbr(app_s@) is None ==> (r matches Err(e) && e@ == unsupported_app_msg()),
        match r {
            Ok((a, t)) => spec_parse_abbr(app_s@) == Some(a) && spec_parse_target(target_s@)
                == Some(t),
            Err(e) => spec_parse_abbr(app_s@) is None || (spec_parse_target(target_s@) is None
                && e@ == invalid_target_msg(target_s@)),
        },
{
    let abbr = AppAbbr::from_str(app_s)?;
    let target = parse_target(target_s)?;
    Ok((abbr, target))
}

/// Folds the upper-case letters that can occur in a known extension
/// down to lower case; other characters pass through.
pub open spec fn fold_case(c: char) -> char {
    if c == 'P' {
        'p'
    } else if c == 'S' {
        's'
    } else if c == 'J' {
        'j'
    } else if c == 'X' {
        'x'
    } else {
        c
    }
}

/// `fold_case` applied to every character.
pub open spec fn folded(s: Seq<char>) -> Seq<char> {
    s.map_values(|c: char| fold_case(c))
}

/// Which script kind an extension denotes, compared case-insensitively.
pub open spec fn spec_script_type_of_ext(e: Seq<char>) -> Option<ScriptType> {
    if folded(e) == "psjs"@ {
        Some(ScriptType::Psjs)
    } else if folded(e) == "jsx"@ {
        Some(ScriptType::Jsx)
    } else if folded(e) == "js"@ {
        Some(ScriptType::Js)
    } else {
        None
    }
}

/// The message for a path with no extension at all.
pub open spec fn no_extension_msg() -> Seq<char> {
    "The script file does not have an extension"@
}

/// The message for an extension outside the supported set.
pub open spec fn unsupported_type_msg() -> Seq<char> {
    "Unsupported file type (supported: .psjs, .jsx, .js)"@
}

/// Whether `e`, case-folded, spells exactly the lower-case `target`.
fn ext_eq_folded(e: &str, target: &str) -> (r: bool)
    ensures
        r == (folded(e@) == target@),
{
    let e_len = e.unicode_len();
    let t_len = target.unicode_len();
    if e_len != t_len {
        return false;
    }
    let mut i: usize = 0;
    while i < e_len
        invariant
            i <= e_len,
            e_len == e@.len(),
            e_len == target@.len(),
            forall|k: int| 0 <= k < i ==> fold_case(e@[k]) == target@[k],
        decreases e_len - i,
    {
        let c = e.get_char(i);
        let low = match c {
            'P' => 'p',
            'S' => 's',
            'J' => 'j',
            'X' => 'x',
            other => other,
        };
        if low != target.get_char(i) {
            proof {
                assert(folded(e@)[i as int] == fold_case(e@[i as int]));
            }
            return false;
        }
        i = i + 1;
    }
    proof {
        assert(folded(e@) =~= target@);
    }
    true
}

impl ScriptType {
    /// Reads the script kind off a path's extension, case-insensitively.
    /// A path without an extension, or with an extension outside the
    /// three supported ones, is rejected before anything else happens.
    pub fn from_path(file_path: &str) -> (r: Result<ScriptType, String>)
        ensures
            match r {
                Ok(t) => extension_of_path_type(file_path@) == Some(t),
                Err(e) => extension_of_path_type(file_path@) is None && (match text::extension_of(
                    file_path@,
                ) {
                    None => e@ == no_extension_msg(),
                    Some(_) => e@ == unsupported_type_msg(),
                }),
            },
    {
        match text::extension_str(file_path) {
            None => Err(String::from_str("The script file does not have an extension")),
            Some(ext) => {
                if ext_eq_folded(ext, "psjs") {
                    Ok(ScriptType::Psjs)
                } else if ext_eq_folded(ext, "jsx") {
                    Ok(ScriptType::Jsx)
                } else if ext_eq_folded(ext, "js") {
                    Ok(ScriptType::Js)
                } else {
                    Err(String::from_str("Unsupported file type (supported: .psjs, .jsx, .js)"))
                }
            },
        }
    }
}

/// The script kind of a whole path: its extension's kind, if both exist.
pub open spec fn extension_of_path_type(p: Seq<char>) -> Option<ScriptType> {
    match text::extension_of(p) {
        None => None,
        Some(e) => spec_script_type_of_ext(e),
    }
}

} // verus!
