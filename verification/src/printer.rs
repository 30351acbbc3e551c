//! Rendering a finished tree: as an indented text tree, as a compact
//! line-per-entry notation, or as nodes for a structured format.

use vstd::prelude::*;
use vstd::string::StringExecFns;
use colored::Colorize;
use crate::format::format_size;
use crate::format::scaled_size;
use crate::format::size_number;
use crate::format::size_suffix;
use crate::format::unit_base;
use crate::format::default_time_pattern;
use crate::format::format_time;
use crate::format::shown_locally;
use crate::format::size_text;
use crate::text::decimal;
use crate::text::owned;
use crate::text::push_aligned;
use crate::text::push_decimal;
use crate::text::push_decimal_aligned;
use crate::text::right_aligned;
use crate::tree::EntryView;
use crate::tree::TreeEntry;
use crate::tree::TreeStats;
use crate::tree::executable;
use crate::tree::forest_view;
use crate::tree::indicator_text;
use crate::tree::lemma_forest_view;
use crate::tree::lemma_forest_view_push;
use crate::tree::modified_of;
use crate::tree::permissions_text;
use crate::tree::size_of;
use crate::tree::text_view;

verus! {

/// The output formats.
#[derive(Debug, Clone, Copy, PartialEq, Eq, Structural)]
pub enum OutputFormat {
    /// An indented tree with connector glyphs.
    Text,
    /// Nodes for a structured document.
    Json,
    /// One compact line for each entry.
    Toon,
}

impl Default for OutputFormat {
    fn default() -> (format: OutputFormat)
        ensures
            format == OutputFormat::Text,
    {
        OutputFormat::Text
    }
}

/// The choices that decide how a tree is shown.
#[derive(Debug, Clone)]
pub struct PrintConfig {
    pub colorize: bool,
    pub show_permissions: bool,
    pub show_size: bool,
    pub human_readable: bool,
    pub si_units: bool,
    pub show_date: bool,
    pub time_format: Option<String>,
    pub show_type_indicator: bool,
    pub no_indent: bool,
    pub full_path: bool,
    pub no_report: bool,
    pub output_format: OutputFormat,
}

impl Default for PrintConfig {
    fn default() -> (config: PrintConfig)
        ensures
            config.colorize,
            !config.show_permissions,
            !config.show_size,
            !config.human_readable,
            !config.si_units,
            !config.show_date,
            config.time_format is None,
            !config.show_type_indicator,
            !config.no_indent,
            !config.full_path,
            !config.no_report,
            config.output_format == OutputFormat::Text,
    {
        PrintConfig {
            colorize: true,
            show_permissions: false,
            show_size: false,
            human_readable: false,
            si_units: false,
            show_date: false,
            time_format: None,
            show_type_indicator: false,
            no_indent: false,
            full_path: false,
            no_report: false,
            output_format: OutputFormat::Text,
        }
    }
}

/// Why a tree could not be rendered.
#[derive(Debug, Clone, Copy, PartialEq, Eq, Structural)]
pub enum PrintError {
    /// A modification time could not be shown by the time pattern.
    TimeFormat,
}

/// One entry as it will be drawn: the text of its line, a note to draw
/// below the line, and the rows of its children.
#[derive(Debug)]
pub struct Row {
    pub label: String,
    pub note: Option<String>,
    pub children: Vec<Row>,
}

/// The model of a `Row` and of the rows below it.
pub ghost struct RowView {
    pub label: Seq<char>,
    pub note: Option<Seq<char>>,
    pub children: Seq<RowView>,
}

/// The model of one row with everything below it.
pub open spec fn row_view(r: Row) -> RowView
    decreases r, 1nat,
{
    RowView { label: r.label@, note: text_view(r.note), children: rows_view(r.children@) }
}

/// The models of a run of sibling rows, in their order.
pub open spec fn rows_view(s: Seq<Row>) -> Seq<RowView>
    decreases s, 0nat,
{
    if s.len() == 0 {
        Seq::empty()
    } else {
        rows_view(s.drop_last()).push(row_view(s.last()))
    }
}

impl View for Row {
    type V = RowView;

    open spec fn view(&self) -> RowView {
        row_view(*self)
    }
}

/// The model of a run of rows holds the model of each, at its place.
pub proof fn lemma_rows_view(s: Seq<Row>)
    ensures
        rows_view(s).len() == s.len(),
        forall|i: int| 0 <= i < s.len() ==> #[trigger] rows_view(s)[i] == s[i]@,
    decreases s.len(),
{
    if s.len() > 0 {
        lemma_rows_view(s.drop_last());
    }
}

/// The connector before a child that has siblings after it.
pub open spec fn branch_glyph() -> Seq<char> {
    "├── "@
}

/// The connector before the last child of a group.
pub open spec fn last_branch_glyph() -> Seq<char> {
    "└── "@
}

/// What continues the line of an ancestor that has siblings after it.
pub open spec fn vertical_glyph() -> Seq<char> {
    "│   "@
}

/// What stands below an ancestor that was the last of its group.
pub open spec fn blank_glyph() -> Seq<char> {
    "    "@
}

/// The prefix of the lines below a row: the row's own prefix, continued by
/// a bar where siblings follow the row and by blanks where none does. A
/// flat listing has no prefixes.
pub open spec fn child_prefix(prefix: Seq<char>, is_last: bool, no_indent: bool) -> Seq<char> {
    if no_indent {
        Seq::empty()
    } else if is_last {
        prefix + blank_glyph()
    } else {
        prefix + vertical_glyph()
    }
}

/// The line of a row: prefix, connector and label in a tree, the label
/// alone in a flat listing.
pub open spec fn row_line(label: Seq<char>, prefix: Seq<char>, is_last: bool, no_indent: bool) -> Seq<
    char,
> {
    if no_indent {
        label + seq!['\n']
    } else if is_last {
        prefix + last_branch_glyph() + label + seq!['\n']
    } else {
        prefix + branch_glyph() + label + seq!['\n']
    }
}

/// The line of a row's note, at the indent of the row's children; nothing
/// where the row has no note.
pub open spec fn note_line(note: Option<Seq<char>>, prefix: Seq<char>, is_last: bool, no_indent: bool) -> Seq<
    char,
> {
    match note {
        Some(text) => child_prefix(prefix, is_last, no_indent) + text + seq!['\n'],
        None => Seq::empty(),
    }
}

/// The lines of a row and of everything below it.
pub open spec fn drawn_row(row: RowView, prefix: Seq<char>, is_last: bool, no_indent: bool) -> Seq<char>
    decreases row, 0nat,
{
    row_line(row.label, prefix, is_last, no_indent) + note_line(row.note, prefix, is_last, no_indent)
        + drawn_rows(
        row.children,
        row.children.len(),
        child_prefix(prefix, is_last, no_indent),
        no_indent,
    )
}

/// The lines of the first `count` rows of a group and of everything below
/// them. The last row of the group is drawn as the last.
pub open spec fn drawn_rows(rows: Seq<RowView>, count: nat, prefix: Seq<char>, no_indent: bool) -> Seq<
    char,
>
    decreases rows, count,
{
    if count == 0 || count > rows.len() {
        Seq::empty()
    } else {
        drawn_rows(rows, (count - 1) as nat, prefix, no_indent) + drawn_row(
            rows[count - 1],
            prefix,
            count == rows.len(),
            no_indent,
        )
    }
}

/// The word for a count of directories.
pub open spec fn directory_word(count: nat) -> Seq<char> {
    if count == 1 {
        "directory"@
    } else {
        "directories"@
    }
}

/// The word for a count of files.
pub open spec fn file_word(count: nat) -> Seq<char> {
    if count == 1 {
        "file"@
    } else {
        "files"@
    }
}

/// The report below the tree: an empty line, then the counts in words.
pub open spec fn report_text(stats: TreeStats) -> Seq<char> {
    seq!['\n'] + decimal(stats.directories as nat) + seq![' '] + directory_word(stats.directories as nat)
        + ", "@ + decimal(stats.files as nat) + seq![' '] + file_word(stats.files as nat) + seq!['\n']
}

/// The text tree: the root's label on a line of its own, the rows below it,
/// and the report unless it is switched off.
pub open spec fn text_output(root: RowView, no_indent: bool, no_report: bool, stats: TreeStats) -> Seq<
    char,
> {
    root.label + seq!['\n'] + drawn_rows(root.children, root.children.len(), Seq::empty(), no_indent) + (
    if no_report {
        Seq::empty()
    } else {
        report_text(stats)
    })
}

/// The lines of a row and of everything below it in the compact notation:
/// each label behind its indent, the children two spaces further in.
pub open spec fn compact_row(row: RowView, indent: Seq<char>) -> Seq<char>
    decreases row, 0nat,
{
    indent + row.label + seq!['\n'] + compact_rows(row.children, row.children.len(), indent + "  "@)
}

/// The lines of the first `count` rows of a group in the compact notation.
pub open spec fn compact_rows(rows: Seq<RowView>, count: nat, indent: Seq<char>) -> Seq<char>
    decreases rows, count,
{
    if count == 0 || count > rows.len() {
        Seq::empty()
    } else {
        compact_rows(rows, (count - 1) as nat, indent) + compact_row(rows[count - 1], indent)
    }
}

/// The first line of the compact notation.
pub open spec fn compact_banner() -> Seq<char> {
    "# TOON - Tree Output\n"@
}

/// The compact notation of a tree: the banner, then the root without indent.
pub open spec fn compact_output(root: RowView) -> Seq<char> {
    compact_banner() + compact_row(root, Seq::empty())
}

/// The prefix of the lines below a row.
fn prefix_below(prefix: &str, is_last: bool, no_indent: bool) -> (below: String)
    ensures
        below@ == child_prefix(prefix@, is_last, no_indent),
{
    let mut below = String::new();
    if !no_indent {
        below.append(prefix);
        if is_last {
            below.append("    ");
        } else {
            below.append("│   ");
        }
    }
    assert(below@ =~= child_prefix(prefix@, is_last, no_indent));
    below
}

/// Appends the line of a row.
fn push_row_line(out: &mut String, label: &str, prefix: &str, is_last: bool, no_indent: bool)
    ensures
        final(out)@ == old(out)@ + row_line(label@, prefix@, is_last, no_indent),
{
    if !no_indent {
        out.append(prefix);
        if is_last {
            out.append("└── ");
        } else {
            out.append("├── ");
        }
    }
    out.append(label);
    out.push('\n');
    assert(out@ =~= old(out)@ + row_line(label@, prefix@, is_last, no_indent));
}

/// Appends the line of a row's note, if it has one.
fn push_note_line(out: &mut String, note: &Option<String>, below: &str)
    ensures
        final(out)@ == old(out)@ + (match text_view(*note) {
            Some(text) => below@ + text + seq!['\n'],
            None => Seq::empty(),
        }),
{
    match note {
        Some(text) => {
            out.append(below);
            out.append(text.as_str());
            out.push('\n');
            assert(out@ =~= old(out)@ + (below@ + text@ + seq!['\n']));
        },
        None => {
            assert(out@ =~= old(out)@ + Seq::<char>::empty());
        },
    }
}

/// Appends the lines of a row, and of everything below it, to `out`.
pub fn draw_row(out: &mut String, row: &Row, prefix: &str, is_last: bool, no_indent: bool)
    ensures
        final(out)@ == old(out)@ + drawn_row(row@, prefix@, is_last, no_indent),
    decreases row, 1nat,
{
    let below = prefix_below(prefix, is_last, no_indent);
    push_row_line(out, row.label.as_str(), prefix, is_last, no_indent);
    let ghost first = out@;
    push_note_line(out, &row.note, below.as_str());
    let ghost second = out@;
    draw_rows(out, &row.children, below.as_str(), no_indent);
    proof {
        lemma_rows_view(row.children@);
        let line = row_line(row@.label, prefix@, is_last, no_indent);
        let note = note_line(row@.note, prefix@, is_last, no_indent);
        let rest = drawn_rows(row@.children, row@.children.len(), below@, no_indent);
        assert(first == old(out)@ + line);
        assert(second == first + note);
        assert(out@ == second + rest);
        assert(out@ =~= old(out)@ + (line + note + rest));
    }
}

/// Appends the lines of the rows of a group, and of everything below them,
/// to `out`.
pub fn draw_rows(out: &mut String, rows: &Vec<Row>, prefix: &str, no_indent: bool)
    ensures
        final(out)@ == old(out)@ + drawn_rows(rows_view(rows@), rows@.len(), prefix@, no_indent),
    decreases rows, 0nat,
{
    let ghost views = rows_view(rows@);
    proof {
        lemma_rows_view(rows@);
    }
    let count = rows.len();
    let mut idx: usize = 0;
    assert(out@ =~= old(out)@ + drawn_rows(views, 0, prefix@, no_indent));
    while idx < count
        invariant
            idx <= count,
            count == rows.len(),
            views.len() == rows.len(),
            forall|i: int| 0 <= i < rows.len() ==> #[trigger] views[i] == rows@[i]@,
            out@ == old(out)@ + drawn_rows(views, idx as nat, prefix@, no_indent),
        decreases count - idx,
    {
        let ghost before = out@;
        let ghost done = drawn_rows(views, idx as nat, prefix@, no_indent);
        draw_row(out, &rows[idx], prefix, idx == count - 1, no_indent);
        idx = idx + 1;
        proof {
            let one = drawn_row(views[idx - 1], prefix@, idx == count, no_indent);
            assert(drawn_rows(views, idx as nat, prefix@, no_indent) == done + one);
            assert(out@ == before + one);
            assert(out@ =~= old(out)@ + (done + one));
        }
    }
}

/// Renders the text tree of `root`: the root's label, the rows of its
/// children with their connectors, and the report of `stats` unless it is
/// switched off.
pub fn draw_text(root: &Row, no_indent: bool, no_report: bool, stats: &TreeStats) -> (out: String)
    ensures
        out@ == text_output(root@, no_indent, no_report, *stats),
{
    let mut out = String::new();
    out.append(root.label.as_str());
    out.push('\n');
    draw_rows(&mut out, &root.children, "", no_indent);
    proof {
        reveal_strlit("");
        lemma_rows_view(root.children@);
        assert(""@ =~= Seq::<char>::empty());
    }
    if !no_report {
        out.push('\n');
        push_decimal(&mut out, stats.directories as u64);
        out.push(' ');
        if stats.directories == 1 {
            out.append("directory");
        } else {
            out.append("directories");
        }
        out.append(", ");
        push_decimal(&mut out, stats.files as u64);
        out.push(' ');
        if stats.files == 1 {
            out.append("file");
        } else {
            out.append("files");
        }
        out.push('\n');
    }
    assert(out@ =~= text_output(root@, no_indent, no_report, *stats));
    out
}

/// Appends the lines of a row, and of everything below it, in the compact
/// notation.
pub fn draw_compact_row(out: &mut String, row: &Row, indent: &str)
    ensures
        final(out)@ == old(out)@ + compact_row(row@, indent@),
    decreases row,
{
    out.append(indent);
    out.append(row.label.as_str());
    out.push('\n');
    let mut deeper = owned(indent);
    deeper.append("  ");
    let ghost views = rows_view(row.children@);
    proof {
        lemma_rows_view(row.children@);
    }
    let ghost start = out@;
    let count = row.children.len();
    let mut idx: usize = 0;
    assert(out@ =~= start + compact_rows(views, 0, deeper@));
    while idx < count
        invariant
            idx <= count,
            count == row.children.len(),
            views == rows_view(row.children@),
            views.len() == count,
            forall|i: int| 0 <= i < count ==> #[trigger] views[i] == row.children@[i]@,
            out@ == start + compact_rows(views, idx as nat, deeper@),
        decreases count - idx,
    {
        draw_compact_row(out, &row.children[idx], deeper.as_str());
        idx = idx + 1;
        assert(out@ =~= start + compact_rows(views, idx as nat, deeper@));
    }
    assert(out@ =~= old(out)@ + compact_row(row@, indent@));
}

/// Renders a tree in the compact notation.
pub fn draw_compact(root: &Row) -> (out: String)
    ensures
        out@ == compact_output(root@),
{
    let mut out = owned("# TOON - Tree Output\n");
    draw_compact_row(&mut out, root, "");
    proof {
        reveal_strlit("");
        assert(""@ =~= Seq::<char>::empty());
    }
    out
}

/// What `colored` displays for `text` in the style with the SGR parameters
/// `sgr`, when colours are switched on: the text between the escape
/// sequences that set and reset the style.
pub uninterp spec fn painted(text: Seq<char>, sgr: Seq<char>) -> Seq<char>;

/// Whether `shown` is `text` as `colored` may display it in the style `sgr`:
/// coloured, or plain where colours are switched off for the process.
pub open spec fn tinted(text: Seq<char>, sgr: Seq<char>, shown: Seq<char>) -> bool {
    shown == text || shown == painted(text, sgr)
}

/// `colored`: the text in bold blue, displayed (`bold`, `blue`, `to_string`).
/// Whether colours are on is decided by the environment of the process, so
/// the text comes back either coloured or as it is.
#[verifier::external_body]
fn paint_directory(text: &str) -> (shown: String)
    ensures
        shown@ == text@ || shown@ == painted(text@, "1;34"@),
{
    text.bold().blue().to_string()
}

/// `colored`: the text in cyan, displayed (`cyan`, `to_string`); coloured,
/// or as it is where colours are off.
#[verifier::external_body]
fn paint_link(text: &str) -> (shown: String)
    ensures
        shown@ == text@ || shown@ == painted(text@, "36"@),
{
    text.cyan().to_string()
}

/// `colored`: the text in bold green, displayed (`bold`, `green`,
/// `to_string`); coloured, or as it is where colours are off.
#[verifier::external_body]
fn paint_executable(text: &str) -> (shown: String)
    ensures
        shown@ == text@ || shown@ == painted(text@, "1;32"@),
{
    text.bold().green().to_string()
}

/// `colored`: the text in red, displayed (`red`, `to_string`); coloured, or
/// as it is where colours are off.
#[verifier::external_body]
fn paint_error(text: &str) -> (shown: String)
    ensures
        shown@ == text@ || shown@ == painted(text@, "31"@),
{
    text.red().to_string()
}

/// The style in which an entry's name is coloured: bold blue for a
/// directory, cyan for a link, bold green for an executable file, none for
/// the rest.
pub open spec fn style_of(e: EntryView) -> Option<Seq<char>> {
    if e.is_dir {
        Some("1;34"@)
    } else if e.is_symlink {
        Some("36"@)
    } else if executable(e) {
        Some("1;32"@)
    } else {
        None
    }
}

/// The name or path by which an entry is shown: the path where full paths
/// are asked for, except for the root.
pub open spec fn plain_name(e: EntryView, config: PrintConfig, is_root: bool) -> Seq<char> {
    if config.full_path && !is_root {
        e.path
    } else {
        e.name
    }
}

/// Whether `shown` may stand for the entry's name: the plain name, or, with
/// colours, the name in the entry's style.
pub open spec fn shown_ok(e: EntryView, config: PrintConfig, is_root: bool, shown: Seq<char>) -> bool {
    if config.colorize && style_of(e) is Some {
        tinted(plain_name(e, config, is_root), style_of(e)->0, shown)
    } else {
        shown == plain_name(e, config, is_root)
    }
}

/// Whether `target` may stand for the entry's link target: present for a
/// link whose target is known, and then the target, in cyan with colours.
pub open spec fn target_ok(e: EntryView, config: PrintConfig, target: Option<Seq<char>>) -> bool {
    if e.is_symlink && e.symlink_target is Some {
        &&& target is Some
        &&& if config.colorize {
            tinted(e.symlink_target->0, "36"@, target->0)
        } else {
            target->0 == e.symlink_target->0
        }
    } else {
        target is None
    }
}

/// An entry's name as it is shown: the name, the type indicator where it is
/// asked for, and an arrow to the link target where there is one.
pub open spec fn name_text(e: EntryView, config: PrintConfig, shown: Seq<char>, target: Option<Seq<char>>) -> Seq<
    char,
> {
    shown + (if config.show_type_indicator {
        indicator_text(e)
    } else {
        Seq::empty()
    }) + (match target {
        Some(t) => " -> "@ + t,
        None => Seq::empty(),
    })
}

/// Whether `text` is the entry's name as shown, for some outcome of the
/// colouring.
pub open spec fn entry_name_ok(e: EntryView, config: PrintConfig, is_root: bool, text: Seq<char>) -> bool {
    exists|shown: Seq<char>, target: Option<Seq<char>>|
        shown_ok(e, config, is_root, shown) && target_ok(e, config, target) && text == #[trigger] name_text(
            e,
            config,
            shown,
            target,
        )
}

/// The size as a field of a line of the text tree. Scaled to a unit where
/// that is asked for: the number right-aligned, in four places for a number
/// of bytes and in three before a unit's suffix, then the suffix. Else the
/// bytes, right-aligned in ten places.
pub open spec fn size_field(e: EntryView, config: PrintConfig) -> Seq<char> {
    let size = size_of(e) as nat;
    if config.human_readable {
        right_aligned(size_number(size, config.si_units), if size < unit_base(config.si_units) { 4 } else { 3 })
            + size_suffix(size, config.si_units)
    } else {
        right_aligned(decimal(size), 10)
    }
}

/// The fields before the name on a line of the text tree, each with a space
/// behind it: permissions, size, date.
pub open spec fn meta_text(e: EntryView, config: PrintConfig, date: Option<Seq<char>>) -> Seq<char> {
    (if config.show_permissions {
        permissions_text(e) + seq![' ']
    } else {
        Seq::empty()
    }) + (if config.show_size {
        size_field(e, config) + seq![' ']
    } else {
        Seq::empty()
    }) + (match date {
        Some(d) => d + seq![' '],
        None => Seq::empty(),
    })
}

/// The pattern by which the configuration shows times: the one it holds,
/// else the default.
pub open spec fn time_pattern_of(config: PrintConfig) -> Seq<char> {
    match config.time_format {
        Some(f) => f@,
        None => default_time_pattern(),
    }
}

/// Whether `date` is the date on the entry's line: where dates are asked
/// for and the entry has a modification time, that time as it is written
/// locally by the configuration's pattern; else nothing.
pub open spec fn date_ok(e: EntryView, config: PrintConfig, date: Option<Seq<char>>) -> bool {
    if config.show_date && modified_of(e) is Some {
        date is Some && shown_locally(modified_of(e)->0, time_pattern_of(config), date)
    } else {
        date is None
    }
}

/// Whether the text tree shows a date on some line: on the entry's own,
/// unless it is the root, or on one below it.
pub open spec fn shows_date(e: EntryView, is_root: bool) -> bool
    decreases e,
{
    ||| !is_root && modified_of(e) is Some
    ||| exists|i: int| 0 <= i < e.children.len() && shows_date(#[trigger] e.children[i], false)
}

/// Whether the compact notation shows a date on some line: on the entry's
/// own, or on one of those below it that are shown.
pub open spec fn compact_shows_date(e: EntryView) -> bool
    decreases e,
{
    ||| modified_of(e) is Some
    ||| e.is_dir && exists|i: int|
        0 <= i < e.children.len() && compact_shows_date(#[trigger] e.children[i])
}

/// The line of a child in the text tree: the fields, then the name.
pub open spec fn child_label(e: EntryView, config: PrintConfig, date: Option<Seq<char>>, name: Seq<char>) -> Seq<
    char,
> {
    meta_text(e, config, date) + name
}

/// Whether `label` is the line of a child in the text tree, for some
/// outcome of the date's formatting and of the colouring.
pub open spec fn child_label_ok(e: EntryView, config: PrintConfig, label: Seq<char>) -> bool {
    exists|date: Option<Seq<char>>, name: Seq<char>|
        date_ok(e, config, date) && entry_name_ok(e, config, false, name) && label == #[trigger] child_label(
            e,
            config,
            date,
            name,
        )
}

/// Whether `note` may stand below the entry's line: the entry's error, in
/// red where colours are on, and nothing where it has no error.
pub open spec fn note_ok(e: EntryView, note: Option<Seq<char>>) -> bool {
    match e.error {
        Some(error) => note is Some && tinted(error, "31"@, note->0),
        None => note is None,
    }
}

/// Whether `row` shows the entry, and the rows below it the entries below,
/// in the text tree. The root's row holds its name alone.
pub open spec fn laid_out(e: EntryView, config: PrintConfig, is_root: bool, row: RowView) -> bool
    decreases e,
{
    &&& if is_root {
        entry_name_ok(e, config, true, row.label) && row.note is None
    } else {
        child_label_ok(e, config, row.label) && note_ok(e, row.note)
    }
    &&& row.children.len() == e.children.len()
    &&& forall|i: int|
        0 <= i < e.children.len() ==> laid_out(#[trigger] e.children[i], config, false, row.children[i])
}

/// The name of an entry as it is shown, coloured where that is asked for
/// and colours are on.
pub fn format_entry_name(entry: &TreeEntry, config: &PrintConfig, is_root: bool) -> (text: String)
    ensures
        entry_name_ok(entry@, *config, is_root, text@),
{
    let mut display = if config.full_path && !is_root {
        shown_name(entry, entry.path.as_str(), config.colorize)
    } else {
        shown_name(entry, entry.name.as_str(), config.colorize)
    };
    let ghost shown = display@;
    if config.show_type_indicator {
        display.append(entry.type_indicator());
    }
    let ghost middle = display@;
    let ghost target: Option<Seq<char>> = None;
    if entry.is_symlink {
        match &entry.symlink_target {
            Some(t) => {
                display.append(" -> ");
                if config.colorize {
                    let coloured = paint_link(t.as_str());
                    display.append(coloured.as_str());
                    proof {
                        target = Some(coloured@);
                    }
                } else {
                    display.append(t.as_str());
                    proof {
                        target = Some(t@);
                    }
                }
                assert(display@ =~= middle + (" -> "@ + target->0));
            },
            None => {},
        }
    }
    proof {
        assert(shown_ok(entry@, *config, is_root, shown));
        assert(target_ok(entry@, *config, target));
        assert(display@ =~= name_text(entry@, *config, shown, target));
    }
    display
}

/// The name, in the entry's style where `colorize` is set.
fn shown_name(entry: &TreeEntry, name: &str, colorize: bool) -> (shown: String)
    ensures
        if colorize && style_of(entry@) is Some {
            tinted(name@, style_of(entry@)->0, shown@)
        } else {
            shown@ == name@
        },
{
    if colorize {
        if entry.is_dir {
            paint_directory(name)
        } else if entry.is_symlink {
            paint_link(name)
        } else if entry.is_executable() {
            paint_executable(name)
        } else {
            owned(name)
        }
    } else {
        owned(name)
    }
}

/// The fields before the name on a child's line of the text tree.
pub fn meta_fields(entry: &TreeEntry, config: &PrintConfig, date: &Option<String>) -> (line: String)
    ensures
        line@ == meta_text(entry@, *config, text_view(*date)),
{
    let mut line = String::new();
    if config.show_permissions {
        let permissions = entry.permissions_string();
        line.append(permissions.as_str());
        line.push(' ');
    }
    let ghost first = line@;
    if config.show_size {
        if config.human_readable {
            let size = entry.size();
            let base: u64 = if config.si_units { 1000 } else { 1024 };
            let (number, unit) = scaled_size(size, config.si_units);
            push_aligned(&mut line, number.as_str(), if size < base { 4 } else { 3 });
            line.append(unit);
        } else {
            push_decimal_aligned(&mut line, entry.size(), 10);
        }
        line.push(' ');
    }
    let ghost second = line@;
    match date {
        Some(d) => {
            line.append(d.as_str());
            line.push(' ');
        },
        None => {},
    }
    proof {
        assert(first =~= (if config.show_permissions {
            permissions_text(entry@) + seq![' ']
        } else {
            Seq::empty()
        }));
        assert(second =~= first + (if config.show_size {
            size_field(entry@, *config) + seq![' ']
        } else {
            Seq::empty()
        }));
        assert(line@ =~= second + (match text_view(*date) {
            Some(d) => d + seq![' '],
            None => Seq::empty(),
        }));
    }
    line
}

/// The date for an entry's line: the modification time as text where dates
/// are asked for and the time is known. Fails where the time cannot be
/// shown.
fn entry_date(entry: &TreeEntry, config: &PrintConfig) -> (date: Result<Option<String>, PrintError>)
    ensures
        match date {
            Ok(d) => date_ok(entry@, *config, text_view(d)),
            Err(_) => config.show_date && modified_of(entry@) is Some,
        },
{
    if !config.show_date {
        return Ok(None);
    }
    match entry.modified() {
        Some(time) => {
            let pattern: Option<&str> = match &config.time_format {
                Some(f) => Some(f.as_str()),
                None => None,
            };
            match format_time(time, pattern) {
                Some(text) => Ok(Some(text)),
                None => Err(PrintError::TimeFormat),
            }
        },
        None => Ok(None),
    }
}

/// The note below an entry's line: its error, in red where colours are on.
fn entry_note(entry: &TreeEntry) -> (note: Option<String>)
    ensures
        note_ok(entry@, text_view(note)),
{
    match &entry.error {
        Some(error) => Some(paint_error(error.as_str())),
        None => None,
    }
}

/// Lays out an entry and everything below it for the text tree. Fails only
/// where dates are asked for and a time that would be shown cannot be.
pub fn layout_text(entry: &TreeEntry, config: &PrintConfig, is_root: bool) -> (row: Result<Row, PrintError>)
    ensures
        match row {
            Ok(r) => laid_out(entry@, *config, is_root, r@),
            Err(_) => config.show_date && shows_date(entry@, is_root),
        },
    decreases entry,
{
    let name = format_entry_name(entry, config, is_root);
    let (label, note) = if is_root {
        (name, None)
    } else {
        let date = match entry_date(entry, config) {
            Ok(date) => date,
            Err(e) => {
                return Err(e);
            },
        };
        let mut label = meta_fields(entry, config, &date);
        label.append(name.as_str());
        proof {
            assert(date_ok(entry@, *config, text_view(date)));
            assert(label@ == child_label(entry@, *config, text_view(date), name@));
            assert(child_label_ok(entry@, *config, label@));
        }
        (label, entry_note(entry))
    };
    let mut children: Vec<Row> = Vec::new();
    let mut idx: usize = 0;
    proof {
        lemma_forest_view(entry.children@);
    }
    while idx < entry.children.len()
        invariant
            idx <= entry.children.len(),
            children.len() == idx,
            entry@.children.len() == entry.children@.len(),
            forall|i: int|
                0 <= i < entry.children@.len() ==> #[trigger] entry@.children[i] == entry.children@[i]@,
            forall|i: int|
                0 <= i < idx ==> laid_out(
                    #[trigger] entry@.children[i],
                    *config,
                    false,
                    rows_view(children@)[i],
                ),
        decreases entry.children.len() - idx,
    {
        let child = match layout_text(&entry.children[idx], config, false) {
            Ok(child) => child,
            Err(e) => {
                assert(shows_date(entry@.children[idx as int], false));
                return Err(e);
            },
        };
        proof {
            lemma_rows_view(children@);
            lemma_rows_view(children@.push(child));
        }
        children.push(child);
        idx = idx + 1;
    }
    let row = Row { label, note, children };
    proof {
        lemma_rows_view(children@);
        assert(laid_out(entry@, *config, is_root, row@));
    }
    Ok(row)
}

/// The letter for an entry's kind in the compact notation.
pub open spec fn kind_letter(e: EntryView) -> char {
    if e.is_dir {
        'd'
    } else if e.is_symlink {
        'l'
    } else {
        'f'
    }
}

/// The size as a field of the compact notation: scaled to a unit where that
/// is asked for, else the bytes.
pub open spec fn compact_size(e: EntryView, config: PrintConfig) -> Seq<char> {
    if config.human_readable {
        size_text(size_of(e) as nat, config.si_units)
    } else {
        decimal(size_of(e) as nat)
    }
}

/// An entry's line in the compact notation: the kind letter, the fields
/// asked for and the name, joined by colons, and an arrow to the link
/// target where one is known.
pub open spec fn compact_label(e: EntryView, config: PrintConfig, date: Option<Seq<char>>) -> Seq<char> {
    seq![kind_letter(e)] + (if config.show_permissions {
        seq![':'] + permissions_text(e)
    } else {
        Seq::empty()
    }) + (if config.show_size {
        seq![':'] + compact_size(e, config)
    } else {
        Seq::empty()
    }) + (match date {
        Some(d) => seq![':'] + d,
        None => Seq::empty(),
    }) + seq![':'] + e.name + (match e.symlink_target {
        Some(t) => " -> "@ + t,
        None => Seq::empty(),
    })
}

/// Whether `row` shows the entry, and the rows below it the entries below,
/// in the compact notation. Only a directory's children are shown.
pub open spec fn compact_laid_out(e: EntryView, config: PrintConfig, row: RowView) -> bool
    decreases e,
{
    &&& exists|date: Option<Seq<char>>|
        date_ok(e, config, date) && row.label == #[trigger] compact_label(e, config, date)
    &&& row.note is None
    &&& if e.is_dir {
        &&& row.children.len() == e.children.len()
        &&& forall|i: int|
            0 <= i < e.children.len() ==> compact_laid_out(
                #[trigger] e.children[i],
                config,
                row.children[i],
            )
    } else {
        row.children.len() == 0
    }
}

/// An entry's line in the compact notation, with the date given.
pub fn compact_fields(entry: &TreeEntry, config: &PrintConfig, date: &Option<String>) -> (line: String)
    ensures
        line@ == compact_label(entry@, *config, text_view(*date)),
{
    let mut line = String::new();
    line.push(if entry.is_dir { 'd' } else if entry.is_symlink { 'l' } else { 'f' });
    let ghost kind = line@;
    if config.show_permissions {
        let permissions = entry.permissions_string();
        line.push(':');
        line.append(permissions.as_str());
    }
    let ghost first = line@;
    if config.show_size {
        line.push(':');
        if config.human_readable {
            let size = format_size(entry.size(), config.si_units);
            line.append(size.as_str());
        } else {
            push_decimal(&mut line, entry.size());
        }
    }
    let ghost second = line@;
    match date {
        Some(d) => {
            line.push(':');
            line.append(d.as_str());
        },
        None => {},
    }
    let ghost third = line@;
    line.push(':');
    line.append(entry.name.as_str());
    let ghost fourth = line@;
    match &entry.symlink_target {
        Some(t) => {
            line.append(" -> ");
            line.append(t.as_str());
        },
        None => {},
    }
    proof {
        assert(kind =~= seq![kind_letter(entry@)]);
        assert(first =~= kind + (if config.show_permissions {
            seq![':'] + permissions_text(entry@)
        } else {
            Seq::empty()
        }));
        assert(second =~= first + (if config.show_size {
            seq![':'] + compact_size(entry@, *config)
        } else {
            Seq::empty()
        }));
        assert(third =~= second + (match text_view(*date) {
            Some(d) => seq![':'] + d,
            None => Seq::empty(),
        }));
        assert(fourth =~= third + seq![':'] + entry@.name);
        assert(line@ =~= fourth + (match entry@.symlink_target {
            Some(t) => " -> "@ + t,
            None => Seq::empty(),
        }));
    }
    line
}

/// Lays out an entry and everything below it for the compact notation.
/// Fails only where dates are asked for and a time that would be shown
/// cannot be.
pub fn layout_compact(entry: &TreeEntry, config: &PrintConfig) -> (row: Result<Row, PrintError>)
    ensures
        match row {
            Ok(r) => compact_laid_out(entry@, *config, r@),
            Err(_) => config.show_date && compact_shows_date(entry@),
        },
    decreases entry,
{
    let date = match entry_date(entry, config) {
        Ok(date) => date,
        Err(e) => {
            return Err(e);
        },
    };
    let label = compact_fields(entry, config, &date);
    let mut children: Vec<Row> = Vec::new();
    proof {
        lemma_forest_view(entry.children@);
        assert(rows_view(children@) =~= Seq::empty());
    }
    if entry.is_dir {
        let mut idx: usize = 0;
        while idx < entry.children.len()
            invariant
                idx <= entry.children.len(),
                children.len() == idx,
                entry@.is_dir,
                entry@.children.len() == entry.children@.len(),
                forall|i: int|
                    0 <= i < entry.children@.len() ==> #[trigger] entry@.children[i]
                        == entry.children@[i]@,
                forall|i: int|
                    0 <= i < idx ==> compact_laid_out(
                        #[trigger] entry@.children[i],
                        *config,
                        rows_view(children@)[i],
                    ),
            decreases entry.children.len() - idx,
        {
            let child = match layout_compact(&entry.children[idx], config) {
                Ok(child) => child,
                Err(e) => {
                    assert(compact_shows_date(entry@.children[idx as int]));
                    return Err(e);
                },
            };
            proof {
                lemma_rows_view(children@);
                lemma_rows_view(children@.push(child));
            }
            children.push(child);
            idx = idx + 1;
        }
    }
    let row = Row { label, note: None, children };
    proof {
        lemma_rows_view(children@);
        assert(date_ok(entry@, *config, text_view(date)));
        assert(row@.label == compact_label(entry@, *config, text_view(date)));
        assert(compact_laid_out(entry@, *config, row@));
    }
    Ok(row)
}

/// One entry of a structured document: its kind, its name, its children
/// where it is a directory that has some, and its link target where one is
/// known.
#[derive(Debug)]
pub struct TreeNode {
    pub node_type: String,
    pub name: String,
    pub contents: Option<Vec<TreeNode>>,
    pub target: Option<String>,
}

/// The model of a `TreeNode` and of the nodes below it.
pub ghost struct NodeView {
    pub node_type: Seq<char>,
    pub name: Seq<char>,
    pub contents: Option<Seq<NodeView>>,
    pub target: Option<Seq<char>>,
}

/// The model of one node with everything below it.
pub open spec fn node_view(n: TreeNode) -> NodeView
    decreases n, 1nat,
{
    NodeView {
        node_type: n.node_type@,
        name: n.name@,
        contents: match n.contents {
            Some(nodes) => Some(nodes_view(nodes@)),
            None => None,
        },
        target: text_view(n.target),
    }
}

/// The models of a run of sibling nodes, in their order.
pub open spec fn nodes_view(s: Seq<TreeNode>) -> Seq<NodeView>
    decreases s, 0nat,
{
    if s.len() == 0 {
        Seq::empty()
    } else {
        nodes_view(s.drop_last()).push(node_view(s.last()))
    }
}

impl View for TreeNode {
    type V = NodeView;

    open spec fn view(&self) -> NodeView {
        node_view(*self)
    }
}

/// The tag for an entry's kind in a structured document.
pub open spec fn kind_tag(e: EntryView) -> Seq<char> {
    if e.is_dir {
        "directory"@
    } else if e.is_symlink {
        "link"@
    } else {
        "file"@
    }
}

/// The node that stands for an entry in a structured document.
pub open spec fn node_of(e: EntryView) -> NodeView
    decreases e, 1nat,
{
    NodeView {
        node_type: kind_tag(e),
        name: e.name,
        contents: if e.is_dir && e.children.len() > 0 {
            Some(nodes_of(e.children))
        } else {
            None
        },
        target: e.symlink_target,
    }
}

/// The nodes that stand for a run of sibling entries.
pub open spec fn nodes_of(s: Seq<EntryView>) -> Seq<NodeView>
    decreases s, 0nat,
{
    if s.len() == 0 {
        Seq::empty()
    } else {
        nodes_of(s.drop_last()).push(node_of(s.last()))
    }
}

impl TreeNode {
    /// The node that stands for `entry`, with the nodes of everything below
    /// it.
    pub fn from_entry(entry: &TreeEntry) -> (node: TreeNode)
        ensures
            node@ == node_of(entry@),
        decreases entry,
    {
        let node_type = if entry.is_dir {
            "directory"
        } else if entry.is_symlink {
            "link"
        } else {
            "file"
        };
        proof {
            lemma_forest_view(entry.children@);
        }
        let contents = if entry.is_dir && entry.children.len() > 0 {
            let mut nodes: Vec<TreeNode> = Vec::new();
            let mut idx: usize = 0;
            assert(entry.children@.take(0) =~= Seq::empty());
            while idx < entry.children.len()
                invariant
                    idx <= entry.children.len(),
                    nodes_view(nodes@) == nodes_of(forest_view(entry.children@.take(idx as int))),
                decreases entry.children.len() - idx,
            {
                let node = TreeNode::from_entry(&entry.children[idx]);
                proof {
                    let done = entry.children@.take(idx as int);
                    let child = entry.children@[idx as int];
                    assert(entry.children@.take(idx as int + 1) =~= done.push(child));
                    lemma_forest_view_push(done, child);
                    assert(forest_view(done).push(child@).drop_last() =~= forest_view(done));
                    assert(nodes@.push(node).drop_last() =~= nodes@);
                }
                nodes.push(node);
                idx = idx + 1;
            }
            assert(entry.children@.take(idx as int) =~= entry.children@);
            Some(nodes)
        } else {
            None
        };
        let target = match &entry.symlink_target {
            Some(t) => Some(t.clone()),
            None => None,
        };
        TreeNode { node_type: owned(node_type), name: entry.name.clone(), contents, target }
    }
}

/// What rendering gives: text, or nodes to be written as a structured
/// document.
#[derive(Debug)]
pub enum Printed {
    Text(String),
    Nodes(Vec<TreeNode>),
}

/// Whether `out` is the text tree of the entry, for some outcome of the
/// dates' formatting and of the colouring.
pub open spec fn text_tree_of(e: EntryView, config: PrintConfig, stats: TreeStats, out: Seq<char>) -> bool {
    exists|row: RowView|
        laid_out(e, config, true, row) && out == #[trigger] text_output(
            row,
            config.no_indent,
            config.no_report,
            stats,
        )
}

/// Whether `out` is the compact notation of the entry, for some outcome of
/// the dates' formatting.
pub open spec fn compact_tree_of(e: EntryView, config: PrintConfig, out: Seq<char>) -> bool {
    exists|row: RowView| compact_laid_out(e, config, row) && out == #[trigger] compact_output(row)
}

/// Renders the text tree of `entry`. Fails only where dates are asked for
/// and a time that would be shown cannot be.
pub fn print_tree_text(entry: &TreeEntry, config: &PrintConfig, stats: &TreeStats) -> (out: Result<
    String,
    PrintError,
>)
    ensures
        match out {
            Ok(text) => text_tree_of(entry@, *config, *stats, text@),
            Err(_) => config.show_date && shows_date(entry@, true),
        },
{
    match layout_text(entry, config, true) {
        Ok(root) => Ok(draw_text(&root, config.no_indent, config.no_report, stats)),
        Err(e) => Err(e),
    }
}

/// The nodes of the structured document for `entry`: a list of one node,
/// the root's.
pub fn print_tree_json(entry: &TreeEntry) -> (nodes: Vec<TreeNode>)
    ensures
        nodes@.len() == 1,
        nodes@[0]@ == node_of(entry@),
{
    let mut nodes: Vec<TreeNode> = Vec::new();
    nodes.push(TreeNode::from_entry(entry));
    nodes
}

/// Renders `entry` in the compact notation. Fails only where dates are
/// asked for and a time that would be shown cannot be.
pub fn print_tree_toon(entry: &TreeEntry, config: &PrintConfig) -> (out: Result<String, PrintError>)
    ensures
        match out {
            Ok(text) => compact_tree_of(entry@, *config, text@),
            Err(_) => config.show_date && compact_shows_date(entry@),
        },
{
    match layout_compact(entry, config) {
        Ok(root) => Ok(draw_compact(&root)),
        Err(e) => Err(e),
    }
}

/// Renders the tree in the format that `config` names: text for the text
/// tree and the compact notation, nodes for the structured format. Fails
/// only where dates are asked for and a time that would be shown cannot be.
pub fn print_tree(entry: &TreeEntry, config: &PrintConfig, stats: &TreeStats) -> (out: Result<
    Printed,
    PrintError,
>)
    ensures
        match out {
            Ok(Printed::Text(text)) => match config.output_format {
                OutputFormat::Text => text_tree_of(entry@, *config, *stats, text@),
                OutputFormat::Toon => compact_tree_of(entry@, *config, text@),
                OutputFormat::Json => false,
            },
            Ok(Printed::Nodes(nodes)) => {
                &&& config.output_format == OutputFormat::Json
                &&& nodes@.len() == 1
                &&& nodes@[0]@ == node_of(entry@)
            },
            Err(_) => config.show_date && match config.output_format {
                OutputFormat::Text => shows_date(entry@, true),
                OutputFormat::Toon => compact_shows_date(entry@),
                OutputFormat::Json => false,
            },
        },
{
    match config.output_format {
        OutputFormat::Text => match print_tree_text(entry, config, stats) {
            Ok(text) => Ok(Printed::Text(text)),
            Err(e) => Err(e),
        },
        OutputFormat::Json => Ok(Printed::Nodes(print_tree_json(entry))),
        OutputFormat::Toon => match print_tree_toon(entry, config) {
            Ok(text) => Ok(Printed::Text(text)),
            Err(e) => Err(e),
        },
    }
}

/// The link target that is shown without colours: the target of a link.
pub open spec fn plain_target(e: EntryView) -> Option<Seq<char>> {
    if e.is_symlink {
        e.symlink_target
    } else {
        None
    }
}

/// The label of an entry in the text tree where nothing is coloured and no
/// date is shown.
pub open spec fn plain_label(e: EntryView, config: PrintConfig, is_root: bool) -> Seq<char> {
    if is_root {
        name_text(e, config, plain_name(e, config, true), plain_target(e))
    } else {
        child_label(e, config, None, name_text(e, config, plain_name(e, config, false), plain_target(e)))
    }
}

/// The row of an entry in the text tree where nothing is coloured, no date
/// is shown and no entry carries a note.
pub open spec fn plain_row(e: EntryView, config: PrintConfig, is_root: bool) -> RowView
    decreases e, 1nat,
{
    RowView { label: plain_label(e, config, is_root), note: None, children: plain_rows(e.children, config) }
}

/// The rows of a run of sibling entries, each as `plain_row` gives it.
pub open spec fn plain_rows(s: Seq<EntryView>, config: PrintConfig) -> Seq<RowView>
    decreases s, 0nat,
{
    if s.len() == 0 {
        Seq::empty()
    } else {
        plain_rows(s.drop_last(), config).push(plain_row(s.last(), config, false))
    }
}

/// Whether no entry below the root, nor the entry itself unless it is the
/// root, carries an error.
pub open spec fn quiet(e: EntryView, is_root: bool) -> bool
    decreases e,
{
    &&& is_root || e.error is None
    &&& forall|i: int| 0 <= i < e.children.len() ==> quiet(#[trigger] e.children[i], false)
}

/// The plain rows of a run of entries hold the plain row of each, at its
/// place.
proof fn lemma_plain_rows(s: Seq<EntryView>, config: PrintConfig)
    ensures
        plain_rows(s, config).len() == s.len(),
        forall|i: int| 0 <= i < s.len() ==> #[trigger] plain_rows(s, config)[i] == plain_row(s[i], config, false),
    decreases s.len(),
{
    if s.len() > 0 {
        lemma_plain_rows(s.drop_last(), config);
    }
}

/// Without colours, without dates and without errors in the tree, the rows
/// of the text tree are fixed by the tree and the configuration.
pub proof fn lemma_plain_layout(e: EntryView, config: PrintConfig, is_root: bool, row: RowView)
    requires
        !config.colorize,
        !config.show_date,
        quiet(e, is_root),
        laid_out(e, config, is_root, row),
    ensures
        row == plain_row(e, config, is_root),
    decreases e,
{
    lemma_plain_rows(e.children, config);
    assert forall|i: int| 0 <= i < e.children.len() implies #[trigger] row.children[i] == plain_row(
        e.children[i],
        config,
        false,
    ) by {
        lemma_plain_layout(e.children[i], config, false, row.children[i]);
    }
    assert(row.children =~= plain_rows(e.children, config));
    if is_root {
        let (shown, target) = choose|shown: Seq<char>, target: Option<Seq<char>>|
            shown_ok(e, config, true, shown) && target_ok(e, config, target) && row.label
                == #[trigger] name_text(e, config, shown, target);
        assert(target == plain_target(e));
    } else {
        let (date, name) = choose|date: Option<Seq<char>>, name: Seq<char>|
            date_ok(e, config, date) && entry_name_ok(e, config, false, name) && row.label
                == #[trigger] child_label(e, config, date, name);
        let (shown, target) = choose|shown: Seq<char>, target: Option<Seq<char>>|
            shown_ok(e, config, false, shown) && target_ok(e, config, target) && name
                == #[trigger] name_text(e, config, shown, target);
        assert(target == plain_target(e));
        assert(date == None::<Seq<char>>);
    }
}

/// Without colours, without dates and without errors below the root, the
/// text tree is fixed by the tree, the configuration and the counts.
pub proof fn lemma_plain_text(e: EntryView, config: PrintConfig, stats: TreeStats, out: Seq<char>)
    requires
        !config.colorize,
        !config.show_date,
        quiet(e, true),
        text_tree_of(e, config, stats, out),
    ensures
        out == text_output(plain_row(e, config, true), config.no_indent, config.no_report, stats),
{
    let row = choose|row: RowView|
        laid_out(e, config, true, row) && out == #[trigger] text_output(
            row,
            config.no_indent,
            config.no_report,
            stats,
        );
    lemma_plain_layout(e, config, true, row);
}

/// The row of an entry in the compact notation where no date is shown.
pub open spec fn plain_compact_row(e: EntryView, config: PrintConfig) -> RowView
    decreases e, 1nat,
{
    RowView {
        label: compact_label(e, config, None),
        note: None,
        children: if e.is_dir {
            plain_compact_rows(e.children, config)
        } else {
            Seq::empty()
        },
    }
}

/// The rows of a run of sibling entries, each as `plain_compact_row` gives
/// it.
pub open spec fn plain_compact_rows(s: Seq<EntryView>, config: PrintConfig) -> Seq<RowView>
    decreases s, 0nat,
{
    if s.len() == 0 {
        Seq::empty()
    } else {
        plain_compact_rows(s.drop_last(), config).push(plain_compact_row(s.last(), config))
    }
}

/// The plain compact rows of a run of entries hold the plain compact row of
/// each, at its place.
proof fn lemma_plain_compact_rows(s: Seq<EntryView>, config: PrintConfig)
    ensures
        plain_compact_rows(s, config).len() == s.len(),
        forall|i: int|
            0 <= i < s.len() ==> #[trigger] plain_compact_rows(s, config)[i] == plain_compact_row(s[i], config),
    decreases s.len(),
{
    if s.len() > 0 {
        lemma_plain_compact_rows(s.drop_last(), config);
    }
}

/// Without dates, the rows of the compact notation are fixed by the tree
/// and the configuration.
pub proof fn lemma_plain_compact_layout(e: EntryView, config: PrintConfig, row: RowView)
    requires
        !config.show_date,
        compact_laid_out(e, config, row),
    ensures
        row == plain_compact_row(e, config),
    decreases e,
{
    lemma_plain_compact_rows(e.children, config);
    if e.is_dir {
        assert forall|i: int| 0 <= i < e.children.len() implies #[trigger] row.children[i]
            == plain_compact_row(e.children[i], config) by {
            lemma_plain_compact_layout(e.children[i], config, row.children[i]);
        }
        assert(row.children =~= plain_compact_rows(e.children, config));
    } else {
        assert(row.children =~= Seq::empty());
    }
    let date = choose|date: Option<Seq<char>>|
        date_ok(e, config, date) && row.label == #[trigger] compact_label(e, config, date);
    assert(date == None::<Seq<char>>);
}

/// Without dates, the compact notation is fixed by the tree and the
/// configuration.
pub proof fn lemma_plain_compact(e: EntryView, config: PrintConfig, out: Seq<char>)
    requires
        !config.show_date,
        compact_tree_of(e, config, out),
    ensures
        out == compact_output(plain_compact_row(e, config)),
{
    let row = choose|row: RowView| compact_laid_out(e, config, row) && out == #[trigger] compact_output(row);
    lemma_plain_compact_layout(e, config, row);
}

} // verus!
