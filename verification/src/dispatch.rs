//! The dispatcher: turn a resolved installation and a script file into
//! the one host command that makes the application run the script.
//!
//! Nothing here touches the host. The dispatcher's product is a
//! `DispatchCommand` value describing exactly what to run; the calling
//! program runs it and feeds the exit status back through
//! `command_outcome`. Compatibility is enforced first, so an
//! incompatible request never yields a command at all.

use vstd::prelude::*;
use vstd::string::StrSliceExecFns;
use crate::request::{AppAbbr, ScriptType};
use crate::resolve::App;
use crate::text;

verus! {

/// Whether `c` must be escaped inside a quoted scripting-bridge string.
pub open spec fn is_special(c: char) -> bool {
    c == '\\' || c == '"'
}

/// What one character contributes to the escaped form.
pub open spec fn escape_char(c: char) -> Seq<char> {
    if c == '\\' {
        seq!['\\', '\\']
    } else if c == '"' {
        seq!['\\', '"']
    } else {
        seq![c]
    }
}

/// The escaped form of a path: every backslash and double quote gets a
/// backslash in front, so the result embeds into a quoted literal.
pub open spec fn escape_seq(s: Seq<char>) -> Seq<char>
    decreases s.len(),
{
    if s.len() == 0 {
        Seq::empty()
    } else {
        escape_char(s[0]) + escape_seq(s.drop_first())
    }
}

/// Reading an escaped string back: a backslash takes the following
/// character literally; everything else stands for itself.
pub open spec fn unescape_seq(s: Seq<char>) -> Seq<char>
    decreases s.len(),
{
    if s.len() == 0 {
        Seq::empty()
    } else if s[0] == '\\' && s.len() >= 2 {
        seq![s[1]] + unescape_seq(s.skip(2))
    } else {
        seq![s[0]] + unescape_seq(s.drop_first())
    }
}

/// Escaping distributes over concatenation.
proof fn lemma_escape_append(a: Seq<char>, b: Seq<char>)
    ensures
        escape_seq(a + b) == escape_seq(a) + escape_seq(b),
    decreases a.len(),
{
    if a.len() == 0 {
        assert(a + b =~= b);
        assert(escape_seq(a) + escape_seq(b) =~= escape_seq(b));
    } else {
        lemma_escape_append(a.drop_first(), b);
        assert((a + b).drop_first() =~= a.drop_first() + b);
        assert((a + b)[0] == a[0]);
        assert(escape_char(a[0]) + (escape_seq(a.drop_first()) + escape_seq(b)) =~= (escape_char(
            a[0],
        ) + escape_seq(a.drop_first())) + escape_seq(b));
    }
}

/// A text without special characters escapes to itself.
proof fn lemma_escape_plain(s: Seq<char>)
    requires
        forall|k: int| 0 <= k < s.len() ==> !is_special(#[trigger] s[k]),
    ensures
        escape_seq(s) == s,
    decreases s.len(),
{
    if s.len() != 0 {
        assert(forall|k: int|
            1 <= k < s.len() ==> #[trigger] s[k] == s.drop_first()[k - 1]);
        lemma_escape_plain(s.drop_first());
        assert(escape_char(s[0]) + s.drop_first() =~= s);
    }
}

/// Undoing the escape recovers the text it encoded, whatever that
/// held: escaping then unescaping is the identity.
pub proof fn lemma_escape_round_trip(s: Seq<char>)
    ensures
        unescape_seq(escape_seq(s)) == s,
    decreases s.len(),
{
    if s.len() == 0 {
    } else {
        lemma_escape_round_trip(s.drop_first());
        let e = escape_seq(s);
        let head = escape_char(s[0]);
        let rest = escape_seq(s.drop_first());
        assert(e == head + rest);
        if s[0] == '\\' || s[0] == '"' {
            assert(e[0] == '\\');
            assert(e[1] == s[0]);
            assert(e.len() >= 2);
            assert(e.skip(2) =~= rest);
            assert(seq![s[0]] + s.drop_first() =~= s);
        } else {
            assert(e[0] == s[0]);
            assert(e[0] != '\\');
            assert(e.drop_first() =~= rest);
            assert(seq![s[0]] + s.drop_first() =~= s);
        }
    }
}

/// Finds the first character needing an escape, if any.
fn find_first_special(s: &str) -> (r: Option<usize>)
    ensures
        match r {
            Some(i) => i < s@.len() && is_special(s@[i as int]) && forall|k: int|
                0 <= k < i ==> !is_special(#[trigger] s@[k]),
            None => forall|k: int| 0 <= k < s@.len() ==> !is_special(#[trigger] s@[k]),
        },
{
    let len = s.unicode_len();
    let mut j: usize = 0;
    while j < len
        invariant
            j <= len,
            len == s@.len(),
            forall|k: int| 0 <= k < j ==> !is_special(#[trigger] s@[k]),
        decreases len - j,
    {
        let c = s.get_char(j);
        if c == '\\' || c == '"' {
            return Some(j);
        }
        j = j + 1;
    }
    None
}

/// Escapes a path for embedding in a quoted scripting-bridge string:
/// backslashes and double quotes get a backslash in front.
pub fn escape_applescript_string(s: &str) -> (r: String)
    ensures
        r@ == escape_seq(s@),
    decreases s@.len(),
{
    let len = s.unicode_len();
    match find_first_special(s) {
        None => {
            proof {
                lemma_escape_plain(s@);
            }
            String::from_str(s)
        },
        Some(i) => {
            let head = s.substring_char(0, i);
            let special = s.get_char(i);
            let tail = s.substring_char(i + 1, len);
            let mut r = String::from_str(head);
            if special == '\\' {
                r.append("\\\\");
            } else {
                r.append("\\\"");
            }
            let rest = escape_applescript_string(tail);
            r.append(rest.as_str());
            proof {
                reveal_strlit("\\\\");
                reveal_strlit("\\\"");
                assert("\\\\"@ =~= escape_char('\\'));
                assert("\\\""@ =~= escape_char('"'));
                assert(s@ =~= (s@.take(i as int) + seq![s@[i as int]]) + s@.skip(i + 1));
                lemma_escape_append(s@.take(i as int) + seq![s@[i as int]], s@.skip(i + 1));
                lemma_escape_append(s@.take(i as int), seq![s@[i as int]]);
                lemma_escape_plain(s@.take(i as int));
                assert(seq![s@[i as int]].drop_first() =~= Seq::<char>::empty());
                assert(escape_seq(Seq::<char>::empty()) =~= Seq::<char>::empty());
                assert(escape_char(s@[i as int]) + Seq::<char>::empty() =~= escape_char(
                    s@[i as int],
                ));
                assert(escape_seq(seq![s@[i as int]]) =~= escape_char(s@[i as int]));
                assert(s@.subrange(0, i as int) =~= s@.take(i as int));
                assert(s@.subrange(i + 1, len as int) =~= s@.skip(i + 1));
                assert(r@ =~= escape_seq(s@));
            }
            r
        },
    }
}

/// A text without backslashes reads back as itself.
proof fn lemma_unescape_plain_prefix(a: Seq<char>, b: Seq<char>)
    requires
        forall|k: int| 0 <= k < a.len() ==> #[trigger] a[k] != '\\',
    ensures
        unescape_seq(a + b) == a + unescape_seq(b),
    decreases a.len(),
{
    if a.len() == 0 {
        assert(a + b =~= b);
        assert(a + unescape_seq(b) =~= unescape_seq(b));
    } else {
        assert(forall|k: int|
            1 <= k < a.len() ==> #[trigger] a[k] == a.drop_first()[k - 1]);
        lemma_unescape_plain_prefix(a.drop_first(), b);
        let s = a + b;
        assert(s[0] == a[0]);
        assert(s[0] != '\\');
        assert(s.drop_first() =~= a.drop_first() + b);
        assert(seq![a[0]] + (a.drop_first() + unescape_seq(b)) =~= a + unescape_seq(b));
    }
}

/// Reads an escaped string back, undoing `escape_applescript_string`.
pub fn unescape_applescript_string(s: &str) -> (r: String)
    ensures
        r@ == unescape_seq(s@),
    decreases s@.len(),
{
    let len = s.unicode_len();
    match text::find_first(s, '\\') {
        None => {
            proof {
                text::lemma_first_index_of(s@, '\\');
                assert(s@ + Seq::<char>::empty() =~= s@);
                lemma_unescape_plain_prefix(s@, Seq::<char>::empty());
                assert(unescape_seq(Seq::<char>::empty()) =~= Seq::<char>::empty());
                assert(s@ + unescape_seq(Seq::<char>::empty()) =~= s@);
            }
            String::from_str(s)
        },
        Some(i) => {
            proof {
                text::lemma_first_index_of(s@, '\\');
            }
            let head = s.substring_char(0, i);
            let mut r = String::from_str(head);
            if i + 1 < len {
                let taken = s.substring_char(i + 1, i + 2);
                let tail = s.substring_char(i + 2, len);
                r.append(taken);
                let rest = unescape_applescript_string(tail);
                r.append(rest.as_str());
                proof {
                    let a = s@.take(i as int);
                    let b = s@.skip(i as int);
                    assert(s@ =~= a + b);
                    lemma_unescape_plain_prefix(a, b);
                    assert(b[0] == s@[i as int]);
                    assert(b.len() >= 2);
                    assert(b[1] == s@[i + 1]);
                    assert(b.skip(2) =~= s@.skip(i + 2));
                    assert(s@.subrange(i + 1, i + 2) =~= seq![s@[i + 1]]);
                    assert(s@.subrange(i + 2, len as int) =~= s@.skip(i + 2));
                    assert(r@ =~= a + (seq![s@[i + 1]] + unescape_seq(s@.skip(i + 2))));
                    assert(r@ =~= unescape_seq(s@));
                }
            } else {
                r.append("\\");
                proof {
                    reveal_strlit("\\");
                    let a = s@.take(i as int);
                    let b = s@.skip(i as int);
                    assert(s@ =~= a + b);
                    lemma_unescape_plain_prefix(a, b);
                    assert(b.len() == 1);
                    assert(b[0] == '\\');
                    assert(b.drop_first() =~= Seq::<char>::empty());
                    assert(unescape_seq(Seq::<char>::empty()) =~= Seq::<char>::empty());
                    assert(seq![b[0]] + Seq::<char>::empty() =~= seq!['\\']);
                    assert("\\"@ =~= seq!['\\']);
                    assert(r@ =~= unescape_seq(s@));
                }
            }
            r
        },
    }
}

/// The scripting-bridge command telling an application that speaks
/// the `do javascript` verb to run the file at the escaped path.
pub open spec fn tell_do_javascript(name: Seq<char>, escaped: Seq<char>) -> Seq<char> {
    "tell application \""@ + name + "\" to do javascript of (POSIX file \""@ + escaped + "\")"@
}

/// The scripting-bridge command for the motion-graphics product, whose
/// verb is `DoScriptFile`.
pub open spec fn tell_do_script_file(name: Seq<char>, escaped: Seq<char>) -> Seq<char> {
    "tell application \""@ + name + "\" to DoScriptFile (POSIX file \""@ + escaped + "\")"@
}

/// The scripting-bridge command for an application: its display name
/// and the verb its scripting dialect uses.
pub open spec fn spec_tell_command(abbr: AppAbbr, name: Seq<char>, escaped: Seq<char>) -> Seq<
    char,
> {
    match abbr {
        AppAbbr::Ps | AppAbbr::Ai => tell_do_javascript(name, escaped),
        AppAbbr::Ae => tell_do_script_file(name, escaped),
    }
}

/// Builds the scripting-bridge command addressed to `name`, embedding
/// the already-escaped script path.
pub fn build_tell_command(abbr: AppAbbr, name: &str, escaped: &str) -> (r: String)
    ensures
        r@ == spec_tell_command(abbr, name@, escaped@),
{
    let mut r = String::from_str("tell application \"");
    r.append(name);
    match abbr {
        AppAbbr::Ps | AppAbbr::Ai => {
            r.append("\" to do javascript of (POSIX file \"");
        },
        AppAbbr::Ae => {
            r.append("\" to DoScriptFile (POSIX file \"");
        },
    }
    r.append(escaped);
    r.append("\")");
    r
}

/// The one external command a dispatch issues, fully determined before
/// anything runs.
#[derive(Clone, Debug, PartialEq, Eq)]
pub enum DispatchCommand {
    /// Hand the script file to the application at `app_path` through
    /// the host's generic open-with facility; the full bundle path
    /// disambiguates between installed versions sharing a name.
    Open { app_path: String, file_path: String },
    /// Hand `command` to the host's inter-application scripting bridge.
    Osascript { command: String },
}

/// Why a dispatch failed.
#[derive(Clone, Debug, PartialEq, Eq)]
pub enum DispatchError {
    /// A native-playback script was aimed at anything but the image
    /// editor.
    PsjsRequiresPhotoshop,
    /// A plain script was aimed at the motion-graphics product, which
    /// takes only the extended-scripting-bridge kind.
    PlainJsUnsupported,
    /// The issued command exited non-zero; the code is the sentinel -1
    /// when the host reported none.
    CommandFailed { code: i32, stderr: String },
}

impl DispatchError {
    /// The message each failure carries.
    pub open spec fn spec_message(self) -> Seq<char> {
        match self {
            DispatchError::PsjsRequiresPhotoshop => ".psjs is only supported by Adobe Photoshop"@,
            DispatchError::PlainJsUnsupported =>
                "After Effects does not support plain .js; use .jsx"@,
            DispatchError::CommandFailed { code, stderr } => {
                let head = "Command failed with status "@ + text::int_digits(code as int);
                if stderr@.len() > 0 {
                    head + ": "@ + stderr@
                } else {
                    head
                }
            },
        }
    }

    /// Writes the failure out for the diagnostic stream.
    pub fn message(&self) -> (m: String)
        ensures
            m@ == self.spec_message(),
    {
        match self {
            DispatchError::PsjsRequiresPhotoshop => String::from_str(
                ".psjs is only supported by Adobe Photoshop",
            ),
            DispatchError::PlainJsUnsupported => String::from_str(
                "After Effects does not support plain .js; use .jsx",
            ),
            DispatchError::CommandFailed { code, stderr } => {
                let mut m = String::from_str("Command failed with status ");
                m.append(text::i32_to_string(*code).as_str());
                if stderr.as_str().unicode_len() > 0 {
                    m.append(": ");
                    m.append(stderr.as_str());
                }
                m
            },
        }
    }
}

/// One script dispatch: the resolved application, the script, its
/// kind, and whether to echo the command's output.
#[derive(Clone, Debug, PartialEq, Eq)]
pub struct Script {
    /// The application the script goes to.
    pub app: App,
    /// The script file's path.
    pub file_path: String,
    /// The script's kind, as read off the path.
    pub script_type: ScriptType,
    /// Whether captured output should be echoed.
    pub verbose: bool,
}

impl Script {
    /// Pairs a resolved application with a script file.
    pub fn new(app: App, file_path: &str, script_type: ScriptType, verbose: bool) -> (s: Script)
        ensures
            s.app == app,
            s.file_path@ == file_path@,
            s.script_type == script_type,
            s.verbose == verbose,
    {
        Script { app, file_path: String::from_str(file_path), script_type, verbose }
    }

    /// The command this dispatch issues, or the compatibility error
    /// that stops it before any command exists: a native-playback
    /// script goes through the open-with facility and only to the
    /// image editor; the other kinds go through the scripting bridge,
    /// and the motion-graphics product refuses the plain kind, taking
    /// the extended one instead.
    pub fn execute(&self) -> (r: Result<DispatchCommand, DispatchError>)
        ensures
            match r {
                Ok(cmd) => match self.script_type {
                    ScriptType::Psjs => {
                        &&& self.app.abbr is Ps
                        &&& (cmd matches DispatchCommand::Open { app_path, file_path } && app_path@
                            == self.app.path@ && file_path@ == self.file_path@)
                    },
                    ScriptType::Jsx | ScriptType::Js => {
                        &&& !(self.app.abbr is Ae && self.script_type is Js)
                        &&& (cmd matches DispatchCommand::Osascript { command } && command@
                            == spec_tell_command(
                            self.app.abbr,
                            self.app.name@,
                            escape_seq(self.file_path@),
                        ))
                    },
                },
                Err(e) => match e {
                    DispatchError::PsjsRequiresPhotoshop => self.script_type is Psjs && !(
                    self.app.abbr is Ps),
                    DispatchError::PlainJsUnsupported => self.script_type is Js && self.app.abbr
                        is Ae,
                    DispatchError::CommandFailed { .. } => false,
                },
            },
    {
        match self.script_type {
            ScriptType::Psjs => {
                match self.app.abbr {
                    AppAbbr::Ps => Ok(
                        DispatchCommand::Open {
                            app_path: self.app.path.clone(),
                            file_path: self.file_path.clone(),
                        },
                    ),
                    _ => Err(DispatchError::PsjsRequiresPhotoshop),
                }
            },
            ScriptType::Jsx | ScriptType::Js => {
                if let AppAbbr::Ae = self.app.abbr {
                    if let ScriptType::Js = self.script_type {
                        return Err(DispatchError::PlainJsUnsupported);
                    }
                }
                let escaped = escape_applescript_string(self.file_path.as_str());
                let command = build_tell_command(
                    self.app.abbr,
                    self.app.name.as_str(),
                    escaped.as_str(),
                );
                Ok(DispatchCommand::Osascript { command })
            },
        }
    }
}

/// Reads an issued command's exit back into the dispatch result: a
/// successful exit is a successful dispatch, and any other exit fails
/// with the code the host reported — the sentinel -1 when it reported
/// none — and the captured error text.
pub fn command_outcome(success: bool, code: Option<i32>, stderr: &str) -> (r: Result<
    (),
    DispatchError,
>)
    ensures
        match r {
            Ok(_) => success,
            Err(e) => {
                &&& !success
                &&& (e matches DispatchError::CommandFailed { code: c, stderr: s } && c == (
                match code {
                    Some(c0) => c0,
                    None => -1i32,
                }) && s@ == stderr@)
            },
        },
{
    if success {
        Ok(())
    } else {
        let c = match code {
            Some(c0) => c0,
            None => -1,
        };
        Err(DispatchError::CommandFailed { code: c, stderr: String::from_str(stderr) })
    }
}

} // verus!
