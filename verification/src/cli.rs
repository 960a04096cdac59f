//! The commands of the toolkit and what each reports when it succeeds.
use vstd::prelude::*;

use crate::inspect::{opt_view, PdfInfo};
use crate::report::{OutputFormat, Report, Value};

verus! {

/// The command line: a command, or none for the interactive shell.
pub struct Cli {
    pub command: Option<Commands>,
}

/// The commands of the toolkit.
pub enum Commands {
    /// Inspect a PDF file.
    Info { input: String, format: OutputFormat },
    /// Merge PDF files in order.
    Merge {
        inputs: Vec<String>,
        output: String,
        index: bool,
        links: bool,
        outlines: bool,
        format: OutputFormat,
    },
    /// Keep the selected pages.
    ExtractPages { input: String, pages: String, output: String, format: OutputFormat },
    /// Drop the selected pages.
    RemovePages { input: String, pages: String, output: String, format: OutputFormat },
    /// Turn the selected pages.
    RotatePages {
        input: String,
        pages: String,
        deg: i32,
        output: String,
        format: OutputFormat,
    },
    /// Create a new document.
    Create { target: CreateTarget },
    /// Set the title and author.
    SetMeta {
        input: String,
        title: Option<String>,
        author: Option<String>,
        output: String,
        format: OutputFormat,
    },
    /// Put the pages in a new order.
    ReorderPages { input: String, order: String, output: String, format: OutputFormat },
    /// Split into parts, one file per part.
    Split { input: String, by: String, output_dir: String, format: OutputFormat },
}

/// What `create` makes.
pub enum CreateTarget {
    /// A one-page blank document.
    Blank { size: String, output: String, format: OutputFormat },
}

/// The name a command reports itself under.
pub open spec fn command_label(c: Commands) -> Seq<char> {
    match c {
        Commands::Info { .. } => "info"@,
        Commands::Merge { .. } => "merge"@,
        Commands::ExtractPages { .. } => "extract-pages"@,
        Commands::RemovePages { .. } => "remove-pages"@,
        Commands::RotatePages { .. } => "rotate-pages"@,
        Commands::Create { .. } => "create-blank"@,
        Commands::SetMeta { .. } => "set-meta"@,
        Commands::ReorderPages { .. } => "reorder-pages"@,
        Commands::Split { .. } => "split"@,
    }
}

/// The format a command prints its report in.
pub open spec fn command_format(c: Commands) -> OutputFormat {
    match c {
        Commands::Info { format, .. } => format,
        Commands::Merge { format, .. } => format,
        Commands::ExtractPages { format, .. } => format,
        Commands::RemovePages { format, .. } => format,
        Commands::RotatePages { format, .. } => format,
        Commands::Create { target: CreateTarget::Blank { format, .. } } => format,
        Commands::SetMeta { format, .. } => format,
        Commands::ReorderPages { format, .. } => format,
        Commands::Split { format, .. } => format,
    }
}

impl Commands {
    /// The name this command reports itself under.
    pub fn name(&self) -> (r: &'static str)
        ensures
            r@ == command_label(*self),
    {
        match self {
            Commands::Info { .. } => "info",
            Commands::Merge { .. } => "merge",
            Commands::ExtractPages { .. } => "extract-pages",
            Commands::RemovePages { .. } => "remove-pages",
            Commands::RotatePages { .. } => "rotate-pages",
            Commands::Create { .. } => "create-blank",
            Commands::SetMeta { .. } => "set-meta",
            Commands::ReorderPages { .. } => "reorder-pages",
            Commands::Split { .. } => "split",
        }
    }

    /// The format this command prints its report in.
    pub fn format(&self) -> (r: OutputFormat)
        ensures
            r == command_format(*self),
    {
        match self {
            Commands::Info { format, .. } => *format,
            Commands::Merge { format, .. } => *format,
            Commands::ExtractPages { format, .. } => *format,
            Commands::RemovePages { format, .. } => *format,
            Commands::RotatePages { format, .. } => *format,
            Commands::Create { target: CreateTarget::Blank { format, .. } } => *format,
            Commands::SetMeta { format, .. } => *format,
            Commands::ReorderPages { format, .. } => *format,
            Commands::Split { format, .. } => *format,
        }
    }
}

// ---------------------------------------------------------------------
// Reports
// ---------------------------------------------------------------------

/// The content of a report field's value.
pub enum FieldView {
    Text(Seq<char>),
    Count(nat),
    Signed(int),
    Flag(bool),
}

pub open spec fn value_view(v: Value) -> FieldView {
    match v {
        Value::Text(s) => FieldView::Text(s@),
        Value::Count(n) => FieldView::Count(n as nat),
        Value::Signed(n) => FieldView::Signed(n as int),
        Value::Flag(b) => FieldView::Flag(b),
    }
}

/// The content of a report's fields.
pub open spec fn fields_view(fields: Seq<(String, Value)>) -> Seq<(Seq<char>, FieldView)> {
    fields.map_values(|f: (String, Value)| (f.0@, value_view(f.1)))
}

/// A report's command and fields.
pub open spec fn report_is(r: Report, command: Seq<char>, fields: Seq<(Seq<char>, FieldView)>) -> bool {
    r.command@ == command && fields_view(r.fields@) == fields
}

/// An optional text field, empty when it is missing.
pub open spec fn or_empty(s: Option<Seq<char>>) -> Seq<char> {
    match s {
        Some(x) => x,
        None => seq![],
    }
}

fn text_value(s: &str) -> (v: Value)
    ensures
        value_view(v) == FieldView::Text(s@),
{
    Value::Text(String::from_str(s))
}

fn opt_text_value(s: &Option<String>) -> (v: Value)
    ensures
        value_view(v) == FieldView::Text(or_empty(opt_view(*s))),
{
    match s {
        Some(x) => Value::Text(x.clone()),
        None => Value::Text(String::new()),
    }
}

fn field(key: &str, value: Value) -> (f: (String, Value))
    ensures
        f.0@ == key@,
        f.1 == value,
{
    (String::from_str(key), value)
}

/// Builds a report from its command and fields.
fn report_of(command: &str, fields: Vec<(String, Value)>) -> (r: Report)
    ensures
        r.command@ == command@,
        r.fields@ == fields@,
{
    Report { command: String::from_str(command), fields }
}

/// What `info` reports: the version, page count, encryption, title and
/// author (empty when missing).
pub fn info_report(info: &PdfInfo) -> (r: Report)
    ensures
        report_is(
            r,
            "info"@,
            seq![
                ("version"@, FieldView::Text(info.version@)),
                ("pages"@, FieldView::Count(info.page_count as nat)),
                ("encrypted"@, FieldView::Flag(info.encrypted)),
                ("title"@, FieldView::Text(or_empty(opt_view(info.title)))),
                ("author"@, FieldView::Text(or_empty(opt_view(info.author)))),
            ],
        ),
{
    let mut fields: Vec<(String, Value)> = Vec::new();
    fields.push(field("version", text_value(info.version.as_str())));
    fields.push(field("pages", Value::Count(info.page_count)));
    fields.push(field("encrypted", Value::Flag(info.encrypted)));
    fields.push(field("title", opt_text_value(&info.title)));
    fields.push(field("author", opt_text_value(&info.author)));
    let r = report_of("info", fields);
    assert(fields_view(r.fields@) =~= seq![
        ("version"@, FieldView::Text(info.version@)),
        ("pages"@, FieldView::Count(info.page_count as nat)),
        ("encrypted"@, FieldView::Flag(info.encrypted)),
        ("title"@, FieldView::Text(or_empty(opt_view(info.title)))),
        ("author"@, FieldView::Text(or_empty(opt_view(info.author)))),
    ]);
    r
}

/// A report of a command with one field and the output it wrote.
fn output_report(command: &str, key: &str, value: Value, output: &str) -> (r: Report)
    ensures
        report_is(
            r,
            command@,
            seq![(key@, value_view(value)), ("output"@, FieldView::Text(output@))],
        ),
{
    let ghost v = value_view(value);
    let mut fields: Vec<(String, Value)> = Vec::new();
    fields.push(field(key, value));
    fields.push(field("output", text_value(output)));
    let r = report_of(command, fields);
    assert(fields_view(r.fields@) =~= seq![(key@, v), ("output"@, FieldView::Text(output@))]);
    r
}

/// What `merge` reports: how many documents were merged, and the output.
pub fn merge_report(source_count: usize, output: &str) -> (r: Report)
    ensures
        report_is(
            r,
            "merge"@,
            seq![
                ("merged_pages_source_count"@, FieldView::Count(source_count as nat)),
                ("output"@, FieldView::Text(output@)),
            ],
        ),
{
    output_report("merge", "merged_pages_source_count", Value::Count(source_count), output)
}

/// What `extract-pages` reports: the range that was kept, and the output.
pub fn extract_report(pages: &str, output: &str) -> (r: Report)
    ensures
        report_is(
            r,
            "extract-pages"@,
            seq![
                ("extracted_pages"@, FieldView::Text(pages@)),
                ("output"@, FieldView::Text(output@)),
            ],
        ),
{
    output_report("extract-pages", "extracted_pages", text_value(pages), output)
}

/// What `remove-pages` reports: the range that was dropped, and the output.
pub fn remove_report(pages: &str, output: &str) -> (r: Report)
    ensures
        report_is(
            r,
            "remove-pages"@,
            seq![
                ("removed_pages"@, FieldView::Text(pages@)),
                ("output"@, FieldView::Text(output@)),
            ],
        ),
{
    output_report("remove-pages", "removed_pages", text_value(pages), output)
}

/// What `reorder-pages` reports: the order, and the output.
pub fn reorder_report(order: &str, output: &str) -> (r: Report)
    ensures
        report_is(
            r,
            "reorder-pages"@,
            seq![("order"@, FieldView::Text(order@)), ("output"@, FieldView::Text(output@))],
        ),
{
    output_report("reorder-pages", "order", text_value(order), output)
}

/// What `rotate-pages` reports: the range, the degrees, and the output.
pub fn rotate_report(pages: &str, degrees: i32, output: &str) -> (r: Report)
    ensures
        report_is(
            r,
            "rotate-pages"@,
            seq![
                ("rotated_pages"@, FieldView::Text(pages@)),
                ("degrees"@, FieldView::Signed(degrees as int)),
                ("output"@, FieldView::Text(output@)),
            ],
        ),
{
    let mut fields: Vec<(String, Value)> = Vec::new();
    fields.push(field("rotated_pages", text_value(pages)));
    fields.push(field("degrees", Value::Signed(degrees)));
    fields.push(field("output", text_value(output)));
    let r = report_of("rotate-pages", fields);
    assert(fields_view(r.fields@) =~= seq![
        ("rotated_pages"@, FieldView::Text(pages@)),
        ("degrees"@, FieldView::Signed(degrees as int)),
        ("output"@, FieldView::Text(output@)),
    ]);
    r
}

/// What `create blank` reports: what was created, its size, and the
/// output.
pub fn blank_report(size: &str, output: &str) -> (r: Report)
    ensures
        report_is(
            r,
            "create-blank"@,
            seq![
                ("created"@, FieldView::Text("blank"@)),
                ("size"@, FieldView::Text(size@)),
                ("output"@, FieldView::Text(output@)),
            ],
        ),
{
    let mut fields: Vec<(String, Value)> = Vec::new();
    fields.push(field("created", text_value("blank")));
    fields.push(field("size", text_value(size)));
    fields.push(field("output", text_value(output)));
    let r = report_of("create-blank", fields);
    assert(fields_view(r.fields@) =~= seq![
        ("created"@, FieldView::Text("blank"@)),
        ("size"@, FieldView::Text(size@)),
        ("output"@, FieldView::Text(output@)),
    ]);
    r
}

/// What `set-meta` reports: the fields that were given (empty when not),
/// and the output.
pub fn metadata_report(title: &Option<String>, author: &Option<String>, output: &str) -> (r:
    Report)
    ensures
        report_is(
            r,
            "set-meta"@,
            seq![
                ("title"@, FieldView::Text(or_empty(opt_view(*title)))),
                ("author"@, FieldView::Text(or_empty(opt_view(*author)))),
                ("output"@, FieldView::Text(output@)),
            ],
        ),
{
    let mut fields: Vec<(String, Value)> = Vec::new();
    fields.push(field("title", opt_text_value(title)));
    fields.push(field("author", opt_text_value(author)));
    fields.push(field("output", text_value(output)));
    let r = report_of("set-meta", fields);
    assert(fields_view(r.fields@) =~= seq![
        ("title"@, FieldView::Text(or_empty(opt_view(*title)))),
        ("author"@, FieldView::Text(or_empty(opt_view(*author)))),
        ("output"@, FieldView::Text(output@)),
    ]);
    r
}

/// What `split` reports: the mode, the number of parts, and the directory
/// they were written to.
pub fn split_report(by: &str, parts: usize, output_dir: &str) -> (r: Report)
    ensures
        report_is(
            r,
            "split"@,
            seq![
                ("split_by"@, FieldView::Text(by@)),
                ("parts"@, FieldView::Count(parts as nat)),
                ("output_dir"@, FieldView::Text(output_dir@)),
            ],
        ),
{
    let mut fields: Vec<(String, Value)> = Vec::new();
    fields.push(field("split_by", text_value(by)));
    fields.push(field("parts", Value::Count(parts)));
    fields.push(field("output_dir", text_value(output_dir)));
    let r = report_of("split", fields);
    assert(fields_view(r.fields@) =~= seq![
        ("split_by"@, FieldView::Text(by@)),
        ("parts"@, FieldView::Count(parts as nat)),
        ("output_dir"@, FieldView::Text(output_dir@)),
    ]);
    r
}

} // verus!
