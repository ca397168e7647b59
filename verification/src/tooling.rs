//! What is said about the external tools, `tlafmt` and `tlc`: whether one
//! is at hand, and how to get it where it is not. Looking for a tool on the
//! machine is left to the caller, who hands in what it found.

use vstd::prelude::*;
use vstd::string::StringExecFns;
use crate::lint::text::str_eq;

verus! {

/// What is known of one tool: whether it is at hand, where, and what to do
/// if it is not.
#[derive(Debug)]
pub struct ToolStatus {
    pub present: bool,
    pub path: Option<String>,
    pub hint: String,
}

/// How to get `tlafmt` on Linux.
pub open spec fn tlafmt_hint() -> Seq<char> {
    "Missing tlafmt: install with `cargo install tlafmt` and ensure it is on PATH."@
}

/// How to get `tlc` on Linux.
pub open spec fn tlc_hint() -> Seq<char> {
    "Missing tlc: download the latest TLA+ tools (tla2tools.jar) from GitHub releases, then add a wrapper script `tlc` that runs `java -cp /path/to/tla2tools.jar tlc2.TLC` and put it on PATH. Snap `tlaplus` installs the Toolbox GUI only, not the `tlc` CLI."@
}

/// What to do about a missing tool, on the operating system named.
pub open spec fn hint_text(os: Seq<char>, name: Seq<char>) -> Seq<char> {
    if os == "linux"@ && name == "tlafmt"@ {
        tlafmt_hint()
    } else if os == "linux"@ && name == "tlc"@ {
        tlc_hint()
    } else {
        "Missing "@ + name
            + ": install it for your OS and ensure it is on PATH (fill in host-specific steps)."@
    }
}

/// Says what to do about a missing tool, on the operating system named.
pub fn missing_hint(os: &str, name: &str) -> (hint: String)
    ensures
        hint@ == hint_text(os@, name@),
{
    let linux = str_eq(os, "linux");
    if linux && str_eq(name, "tlafmt") {
        String::from_str(
            "Missing tlafmt: install with `cargo install tlafmt` and ensure it is on PATH.",
        )
    } else if linux && str_eq(name, "tlc") {
        String::from_str(
            "Missing tlc: download the latest TLA+ tools (tla2tools.jar) from GitHub releases, then add a wrapper script `tlc` that runs `java -cp /path/to/tla2tools.jar tlc2.TLC` and put it on PATH. Snap `tlaplus` installs the Toolbox GUI only, not the `tlc` CLI.",
        )
    } else {
        let mut hint = String::from_str("Missing ");
        hint.append(name);
        hint.append(
            ": install it for your OS and ensure it is on PATH (fill in host-specific steps).",
        );
        hint
    }
}

/// The status of a tool, given where a search found it, if anywhere.
pub fn tool_status(name: &str, os: &str, found: Option<String>) -> (status: ToolStatus)
    ensures
        status.present == found is Some,
        status.path == found,
        status.hint@ == hint_text(os@, name@),
{
    let hint = missing_hint(os, name);
    ToolStatus { present: found.is_some(), path: found, hint }
}

/// Passes where the tool was found; else fails with the hint for it.
pub fn ensure_tool(name: &str, os: &str, found: Option<String>) -> (checked: Result<(), String>)
    ensures
        checked is Ok <==> found is Some,
        checked matches Err(hint) ==> hint@ == hint_text(os@, name@),
{
    let status = tool_status(name, os, found);
    if status.present {
        return Ok(());
    }
    Err(status.hint)
}

/// The text of a launcher for `tlc` that runs the Java tools in `jar`.
pub open spec fn wrapper_text(jar: Seq<char>) -> Seq<char> {
    "#!/bin/sh\nexec java -cp \""@ + jar + "\" tlc2.TLC \"$@\"\n"@
}

/// Writes the text of a launcher for `tlc` that runs the Java tools in
/// `jar`.
pub fn tlc_wrapper_script(jar: &str) -> (script: String)
    ensures
        script@ == wrapper_text(jar@),
{
    let mut script = String::from_str("#!/bin/sh\nexec java -cp \"");
    script.append(jar);
    script.append("\" tlc2.TLC \"$@\"\n");
    script
}

} // verus!
