//! The reporters: one line of text per finding, or a JSON document. Both
//! keep the findings in the order given.

use vstd::prelude::*;
use vstd::string::StringExecFns;
use crate::lint::types::{diagnostics_view, Diagnostic, DiagnosticView, RuleCode, Severity};

verus! {

/// serde_json's error, carried as an opaque value.
#[verifier::external_type_specification]
#[verifier::external_body]
pub struct ExJsonError(serde_json::Error);

/// A text could not be written as a JSON string. serde_json has an error
/// for every value that it is given; for the texts of a finding it never
/// returns it, and the reporters say so in their contracts.
#[derive(Debug, PartialEq, Eq)]
pub struct JsonError;

/// A text as a JSON string literal: quoted, with the escapes that
/// serde_json writes.
pub uninterp spec fn json_quoted(text: Seq<char>) -> Seq<char>;

/// `serde_json::to_string` of a string slice. The contract says that the
/// call succeeds and names what it returns. serde_json fails only where a
/// value's own `Serialize` fails or a map has keys that are no strings; a
/// string slice is written as it is, into a byte vector.
#[verifier::external_body]
fn quote(text: &str) -> (quoted: Result<String, serde_json::Error>)
    ensures
        quoted is Ok,
        quoted matches Ok(q) ==> q@ == json_quoted(text@),
{
    serde_json::to_string(text)
}

/// The character of a decimal digit.
pub open spec fn digit_char(d: nat) -> char {
    if d == 0 {
        '0'
    } else if d == 1 {
        '1'
    } else if d == 2 {
        '2'
    } else if d == 3 {
        '3'
    } else if d == 4 {
        '4'
    } else if d == 5 {
        '5'
    } else if d == 6 {
        '6'
    } else if d == 7 {
        '7'
    } else if d == 8 {
        '8'
    } else {
        '9'
    }
}

/// A number in decimal, without leading zeros.
pub open spec fn decimal(n: nat) -> Seq<char>
    decreases n,
{
    if n < 10 {
        seq![digit_char(n)]
    } else {
        decimal(n / 10).push(digit_char(n % 10))
    }
}

/// The text of one decimal digit.
fn digit_text(d: usize) -> (text: &'static str)
    requires
        d < 10,
    ensures
        text@ == seq![digit_char(d as nat)],
{
    proof {
        reveal_strlit("0");
        reveal_strlit("1");
        reveal_strlit("2");
        reveal_strlit("3");
        reveal_strlit("4");
        reveal_strlit("5");
        reveal_strlit("6");
        reveal_strlit("7");
        reveal_strlit("8");
        reveal_strlit("9");
    }
    let text = if d == 0 {
        "0"
    } else if d == 1 {
        "1"
    } else if d == 2 {
        "2"
    } else if d == 3 {
        "3"
    } else if d == 4 {
        "4"
    } else if d == 5 {
        "5"
    } else if d == 6 {
        "6"
    } else if d == 7 {
        "7"
    } else if d == 8 {
        "8"
    } else {
        "9"
    };
    assert(text@ =~= seq![digit_char(d as nat)]);
    text
}

/// Appends a number in decimal.
pub fn push_decimal(out: &mut String, n: usize)
    ensures
        final(out)@ == old(out)@ + decimal(n as nat),
    decreases n,
{
    if n >= 10 {
        push_decimal(out, n / 10);
    }
    out.append(digit_text(n % 10));
    assert(out@ =~= old(out)@ + decimal(n as nat));
}

/// The tag of a severity in a line of text.
pub open spec fn severity_tag(severity: Severity) -> Seq<char> {
    match severity {
        Severity::Warning => "WARN"@,
        Severity::Error => "ERROR"@,
    }
}

/// The name of a severity in JSON.
pub open spec fn severity_name(severity: Severity) -> Seq<char> {
    match severity {
        Severity::Warning => "warning"@,
        Severity::Error => "error"@,
    }
}

/// The stable name of a rule code.
pub open spec fn code_name(code: RuleCode) -> Seq<char> {
    match code {
        RuleCode::TLA000 => "TLA000"@,
        RuleCode::TLA001 => "TLA001"@,
        RuleCode::TLA002 => "TLA002"@,
    }
}

/// The stable name of a rule code.
pub fn format_code(code: &RuleCode) -> (name: String)
    ensures
        name@ == code_name(*code),
{
    match code {
        RuleCode::TLA000 => String::from_str("TLA000"),
        RuleCode::TLA001 => String::from_str("TLA001"),
        RuleCode::TLA002 => String::from_str("TLA002"),
    }
}

/// One finding as a line of text: file, line and column, then severity and
/// code in brackets, then the message.
pub open spec fn human_line(d: DiagnosticView) -> Seq<char> {
    d.file + ":"@ + decimal(d.line) + ":"@ + decimal(d.column) + " ["@ + severity_tag(d.severity)
        + " "@ + code_name(d.code) + "] "@ + d.message + "\n"@
}

/// The pieces of a text put together, in order.
pub open spec fn concat(parts: Seq<Seq<char>>) -> Seq<char>
    decreases parts.len(),
{
    if parts.len() == 0 {
        seq![]
    } else {
        concat(parts.drop_last()) + parts.last()
    }
}

/// The pieces of a text put together, in order, with `sep` between one
/// and the next.
pub open spec fn join(parts: Seq<Seq<char>>, sep: Seq<char>) -> Seq<char>
    decreases parts.len(),
{
    if parts.len() == 0 {
        seq![]
    } else if parts.len() == 1 {
        parts.last()
    } else {
        join(parts.drop_last(), sep) + sep + parts.last()
    }
}

/// The lines of the findings: line `i` is that of finding `i`.
pub open spec fn human_lines(diags: Seq<DiagnosticView>) -> Seq<Seq<char>> {
    diags.map_values(|d: DiagnosticView| human_line(d))
}

/// The findings as text, one line each, in order.
pub open spec fn human_text(diags: Seq<DiagnosticView>) -> Seq<char> {
    concat(human_lines(diags))
}

/// Appends one finding as a line of text.
pub fn push_human_line(out: &mut String, d: &Diagnostic)
    ensures
        final(out)@ == old(out)@ + human_line(d@),
{
    let ghost before = out@;
    out.append(d.file.as_str());
    let ghost mut line = d.file@;
    assert(out@ =~= before + line);
    out.append(":");
    proof {
        line = line + ":"@;
    }
    assert(out@ =~= before + line);
    push_decimal(out, d.line);
    proof {
        line = line + decimal(d.line as nat);
    }
    assert(out@ =~= before + line);
    out.append(":");
    proof {
        line = line + ":"@;
    }
    assert(out@ =~= before + line);
    push_decimal(out, d.column);
    proof {
        line = line + decimal(d.column as nat);
    }
    assert(out@ =~= before + line);
    out.append(" [");
    proof {
        line = line + " ["@;
    }
    assert(out@ =~= before + line);
    out.append(
        match d.severity {
            Severity::Warning => "WARN",
            Severity::Error => "ERROR",
        },
    );
    proof {
        line = line + severity_tag(d.severity);
    }
    assert(out@ =~= before + line);
    out.append(" ");
    proof {
        line = line + " "@;
    }
    assert(out@ =~= before + line);
    out.append(format_code(&d.code).as_str());
    proof {
        line = line + code_name(d.code);
    }
    assert(out@ =~= before + line);
    out.append("] ");
    proof {
        line = line + "] "@;
    }
    assert(out@ =~= before + line);
    out.append(d.message.as_str());
    proof {
        line = line + d.message@;
    }
    assert(out@ =~= before + line);
    out.append("\n");
    proof {
        line = line + "\n"@;
    }
    assert(out@ =~= before + line);
    assert(line == human_line(d@));
}

/// Renders the findings as text, one line each, in the order given.
pub fn render_human(diags: &Vec<Diagnostic>) -> (text: String)
    ensures
        text@ == human_text(diagnostics_view(diags@)),
{
    let ghost views = diagnostics_view(diags@);
    let mut text = String::new();
    let mut i: usize = 0;
    while i < diags.len()
        invariant
            views == diagnostics_view(diags@),
            i <= diags@.len(),
            text@ == human_text(views.take(i as int)),
        decreases diags@.len() - i,
    {
        let d = &diags[i];
        assert(human_lines(views.take(i + 1)).drop_last() =~= human_lines(views.take(i as int)));
        assert(views[i as int] == d@);
        push_human_line(&mut text, d);
        i += 1;
    }
    assert(views.take(i as int) =~= views);
    text
}

/// One finding as a JSON object, indented as an element of the document.
/// The fields come in this order: file, line, column, severity, code,
/// message.
pub open spec fn json_object(d: DiagnosticView) -> Seq<char> {
    "  {\n    \"file\": "@ + json_quoted(d.file) + ",\n    \"line\": "@ + decimal(d.line)
        + ",\n    \"column\": "@ + decimal(d.column) + ",\n    \"severity\": "@ + json_quoted(
        severity_name(d.severity),
    ) + ",\n    \"code\": "@ + json_quoted(code_name(d.code)) + ",\n    \"message\": "@ + json_quoted(
        d.message,
    ) + "\n  }"@
}

/// The objects of the findings: object `i` is that of finding `i`.
pub open spec fn json_items(diags: Seq<DiagnosticView>) -> Seq<Seq<char>> {
    diags.map_values(|d: DiagnosticView| json_object(d))
}

/// The findings as a JSON document: an array of objects in the order of
/// the findings, with a comma and a line break between one and the next;
/// `[]` where there is none.
pub open spec fn json_text(diags: Seq<DiagnosticView>) -> Seq<char> {
    if diags.len() == 0 {
        "[]"@
    } else {
        "[\n"@ + join(json_items(diags), ",\n"@) + "\n]"@
    }
}

/// Both reporters keep the order of the findings: the text has one line
/// for each finding and the document one object, and line `i` and object
/// `i` are those of finding `i`.
pub proof fn lemma_reporters_keep_order(diags: Seq<DiagnosticView>)
    ensures
        human_text(diags) == concat(human_lines(diags)),
        diags.len() > 0 ==> json_text(diags) == "[\n"@ + join(json_items(diags), ",\n"@) + "\n]"@,
        human_lines(diags).len() == diags.len(),
        json_items(diags).len() == diags.len(),
        forall|i: int|
            0 <= i < diags.len() ==> human_lines(diags)[i] == human_line(#[trigger] diags[i])
                && json_items(diags)[i] == json_object(diags[i]),
{
}

/// Appends a text as a JSON string literal.
fn push_quoted(out: &mut String, text: &str) -> (done: Result<(), JsonError>)
    ensures
        done is Ok,
        final(out)@ == old(out)@ + json_quoted(text@),
{
    push_quoting(out, quote(text))
}

/// Appends one finding as a JSON object.
pub fn push_json_object(out: &mut String, d: &Diagnostic) -> (done: Result<(), JsonError>)
    ensures
        done is Ok,
        final(out)@ == old(out)@ + json_object(d@),
{
    out.append("  {\n    \"file\": ");
    if push_quoted(out, d.file.as_str()).is_err() {
        return Err(JsonError);
    }
    out.append(",\n    \"line\": ");
    push_decimal(out, d.line);
    out.append(",\n    \"column\": ");
    push_decimal(out, d.column);
    out.append(",\n    \"severity\": ");
    let severity = match d.severity {
        Severity::Warning => "warning",
        Severity::Error => "error",
    };
    if push_quoted(out, severity).is_err() {
        return Err(JsonError);
    }
    out.append(",\n    \"code\": ");
    if push_quoted(out, format_code(&d.code).as_str()).is_err() {
        return Err(JsonError);
    }
    out.append(",\n    \"message\": ");
    if push_quoted(out, d.message.as_str()).is_err() {
        return Err(JsonError);
    }
    out.append("\n  }");
    assert(out@ =~= old(out)@ + json_object(d@));
    Ok(())
}

/// Appends what quoting a text gave: the quoted text, or nothing where
/// quoting failed.
pub fn push_quoting(out: &mut String, quoted: Result<String, serde_json::Error>) -> (done: Result<
    (),
    JsonError,
>)
    ensures
        match quoted {
            Ok(q) => done is Ok && final(out)@ == old(out)@ + q@,
            Err(_) => done is Err && final(out)@ == old(out)@,
        },
{
    match quoted {
        Ok(q) => {
            out.append(q.as_str());
            Ok(())
        },
        Err(_) => Err(JsonError),
    }
}

/// Renders the findings as a JSON document, in the order given. A
/// document comes out for every list, and the same findings give the same
/// bytes.
pub fn to_json(diags: &Vec<Diagnostic>) -> (text: Result<String, JsonError>)
    ensures
        text matches Ok(t) && t@ == json_text(diagnostics_view(diags@)),
{
    let ghost views = diagnostics_view(diags@);
    if diags.len() == 0 {
        return Ok(String::from_str("[]"));
    }
    let mut text = String::from_str("[\n");
    let mut i: usize = 0;
    while i < diags.len()
        invariant
            views == diagnostics_view(diags@),
            i <= diags@.len(),
            text@ == "[\n"@ + join(json_items(views.take(i as int)), ",\n"@),
        decreases diags@.len() - i,
    {
        let d = &diags[i];
        assert(json_items(views.take(i + 1)).drop_last() =~= json_items(views.take(i as int)));
        assert(views[i as int] == d@);
        if i > 0 {
            text.append(",\n");
        }
        if push_json_object(&mut text, d).is_err() {
            return Err(JsonError);
        }
        assert(text@ =~= "[\n"@ + join(json_items(views.take(i + 1)), ",\n"@));
        i += 1;
    }
    assert(views.take(i as int) =~= views);
    text.append("\n]");
    Ok(text)
}

} // verus!
