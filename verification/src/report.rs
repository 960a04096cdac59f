//! What the command line prints: a success report as `key=value` lines or
//! as one JSON object, and an error as `error[<code>]: <message>`.
use vstd::prelude::*;


use crate::text::{
    chars_of, decimal, decimal_chars, decimal_i32, decimal_i32_chars, push_chars, push_str_chars,
    string_from_chars,
};

verus! {

/// How a report is printed.
#[derive(Clone, Copy, Debug)]
pub enum OutputFormat {
    Text,
    Json,
}

/// The value of one field of a report.
pub enum Value {
    Text(String),
    Count(usize),
    Signed(i32),
    Flag(bool),
}

/// A successful command: its name and its fields, in order.
pub struct Report {
    pub command: String,
    pub fields: Vec<(String, Value)>,
}

// ---------------------------------------------------------------------
// Text
// ---------------------------------------------------------------------

/// A field's value as `key=value` shows it.
pub open spec fn value_text(v: Value) -> Seq<char> {
    match v {
        Value::Text(s) => s@,
        Value::Count(n) => decimal(n as nat),
        Value::Signed(n) => decimal_i32(n),
        Value::Flag(b) => if b {
            "true"@
        } else {
            "false"@
        },
    }
}

/// One `\n<key>=<value>` line per field.
pub open spec fn text_fields(fields: Seq<(String, Value)>) -> Seq<char>
    decreases fields.len(),
{
    if fields.len() == 0 {
        seq![]
    } else {
        text_fields(fields.drop_last()) + "\n"@ + fields.last().0@ + "="@ + value_text(
            fields.last().1,
        )
    }
}

/// A report as lines: `status=ok`, `command=<name>`, then one line per
/// field.
pub open spec fn render_text(r: Report) -> Seq<char> {
    "status=ok\ncommand="@ + r.command@ + text_fields(r.fields@)
}

// ---------------------------------------------------------------------
// JSON
// ---------------------------------------------------------------------

/// The hexadecimal digit of `n < 16`, in lower case.
pub open spec fn hex_digit(n: u32) -> char {
    if n < 10 {
        ((n + 48) as u8) as char
    } else {
        ((n + 87) as u8) as char
    }
}

/// One character inside a JSON string: quotes, backslashes and control
/// characters escaped.
pub open spec fn escape_char(c: char) -> Seq<char> {
    if c == '"' {
        seq!['\\', '"']
    } else if c == '\\' {
        seq!['\\', '\\']
    } else if c == '\n' {
        seq!['\\', 'n']
    } else if c == '\r' {
        seq!['\\', 'r']
    } else if c == '\t' {
        seq!['\\', 't']
    } else if (c as u32) < 0x20 {
        seq!['\\', 'u', '0', '0', hex_digit((c as u32) / 16), hex_digit((c as u32) % 16)]
    } else {
        seq![c]
    }
}

/// A text as the inside of a JSON string.
pub open spec fn json_escape(s: Seq<char>) -> Seq<char>
    decreases s.len(),
{
    if s.len() == 0 {
        seq![]
    } else {
        json_escape(s.drop_last()) + escape_char(s.last())
    }
}

/// A JSON string.
pub open spec fn json_string(s: Seq<char>) -> Seq<char> {
    seq!['"'] + json_escape(s) + seq!['"']
}

/// A field's value in JSON.
pub open spec fn value_json(v: Value) -> Seq<char> {
    match v {
        Value::Text(s) => json_string(s@),
        _ => value_text(v),
    }
}

/// One `,"<key>":<value>` member per field.
pub open spec fn json_fields(fields: Seq<(String, Value)>) -> Seq<char>
    decreases fields.len(),
{
    if fields.len() == 0 {
        seq![]
    } else {
        json_fields(fields.drop_last()) + ","@ + json_string(fields.last().0@) + ":"@
            + value_json(fields.last().1)
    }
}

/// A report as one JSON object: `status`, `command`, then the fields.
pub open spec fn render_json(r: Report) -> Seq<char> {
    "{\"status\":\"ok\",\"command\":"@ + json_string(r.command@) + json_fields(r.fields@) + "}"@
}

/// How `format` prints a report.
pub open spec fn rendered(r: Report, format: OutputFormat) -> Seq<char> {
    match format {
        OutputFormat::Text => render_text(r),
        OutputFormat::Json => render_json(r),
    }
}

fn hex_digit_exec(n: u32) -> (c: char)
    requires
        n < 16,
    ensures
        c == hex_digit(n),
{
    if n < 10 {
        ((n as u8) + 48u8) as char
    } else {
        ((n as u8) + 87u8) as char
    }
}

/// Appends the JSON escape of one character.
fn push_escaped(out: &mut Vec<char>, c: char)
    ensures
        final(out)@ == old(out)@ + escape_char(c),
{
    let v = c as u32;
    if c == '"' {
        out.push('\\');
        out.push('"');
    } else if c == '\\' {
        out.push('\\');
        out.push('\\');
    } else if c == '\n' {
        out.push('\\');
        out.push('n');
    } else if c == '\r' {
        out.push('\\');
        out.push('r');
    } else if c == '\t' {
        out.push('\\');
        out.push('t');
    } else if v < 0x20 {
        out.push('\\');
        out.push('u');
        out.push('0');
        out.push('0');
        out.push(hex_digit_exec(v / 16));
        out.push(hex_digit_exec(v % 16));
    } else {
        out.push(c);
    }
    assert(out@ =~= old(out)@ + escape_char(c));
}

/// Appends a JSON string holding `s`.
fn push_json_string(out: &mut Vec<char>, s: &str)
    ensures
        final(out)@ == old(out)@ + json_string(s@),
{
    let c = chars_of(s);
    out.push('"');
    let ghost start = out@;
    let mut i: usize = 0;
    while i < c.len()
        invariant
            0 <= i <= c@.len(),
            out@ == start + json_escape(c@.take(i as int)),
        decreases c@.len() - i,
    {
        assert(c@.take(i + 1).drop_last() =~= c@.take(i as int));
        push_escaped(out, c[i]);
        i = i + 1;
    }
    assert(c@.take(c@.len() as int) =~= c@);
    out.push('"');
    assert(out@ =~= old(out)@ + json_string(s@));
}

/// Appends a field's value, as text or as JSON.
fn push_value(out: &mut Vec<char>, v: &Value, json: bool)
    ensures
        final(out)@ == old(out)@ + if json {
            value_json(*v)
        } else {
            value_text(*v)
        },
{
    match v {
        Value::Text(s) => {
            if json {
                push_json_string(out, s.as_str());
            } else {
                push_str_chars(out, s.as_str());
            }
        },
        Value::Count(n) => {
            let d = decimal_chars(*n as u64);
            push_chars(out, &d);
        },
        Value::Signed(n) => {
            let d = decimal_i32_chars(*n);
            push_chars(out, &d);
        },
        Value::Flag(b) => {
            if *b {
                push_str_chars(out, "true");
            } else {
                push_str_chars(out, "false");
            }
        },
    }
}

/// Prints a report in the given format.
pub fn render(report: &Report, format: OutputFormat) -> (s: String)
    ensures
        s@ == rendered(*report, format),
{
    let json = match format {
        OutputFormat::Text => false,
        OutputFormat::Json => true,
    };
    let mut out: Vec<char> = Vec::new();
    if json {
        push_str_chars(&mut out, "{\"status\":\"ok\",\"command\":");
        push_json_string(&mut out, report.command.as_str());
    } else {
        push_str_chars(&mut out, "status=ok\ncommand=");
        push_str_chars(&mut out, report.command.as_str());
    }
    let ghost head = out@;
    let fields = &report.fields;
    let mut i: usize = 0;
    while i < fields.len()
        invariant
            0 <= i <= fields@.len(),
            out@ == head + if json {
                json_fields(fields@.take(i as int))
            } else {
                text_fields(fields@.take(i as int))
            },
        decreases fields@.len() - i,
    {
        assert(fields@.take(i + 1).drop_last() =~= fields@.take(i as int));
        let (key, value) = &fields[i];
        if json {
            push_str_chars(&mut out, ",");
            push_json_string(&mut out, key.as_str());
            push_str_chars(&mut out, ":");
        } else {
            push_str_chars(&mut out, "\n");
            push_str_chars(&mut out, key.as_str());
            push_str_chars(&mut out, "=");
        }
        push_value(&mut out, value, json);
        i = i + 1;
        assert(out@ =~= head + if json {
            json_fields(fields@.take(i as int))
        } else {
            text_fields(fields@.take(i as int))
        });
    }
    assert(fields@.take(fields@.len() as int) =~= fields@);
    if json {
        push_str_chars(&mut out, "}");
    }
    proof {
        if !json {
            assert(out@ =~= render_text(*report));
        } else {
            assert(out@ =~= render_json(*report));
        }
    }
    string_from_chars(out.as_slice())
}

} // verus!
