//! What the screens show, as plain values that only need to be drawn.

use crate::app::chosen;
use crate::app::chosen_within_listed;
use crate::app::total_of;
use crate::app::App;
use crate::app::AppPhase;
use crate::app::AppView;
use crate::project::CleanTarget;
use crate::project::Color;
use crate::project::Project;
use crate::project::ProjectView;
use crate::project::TargetView;
use crate::size::format_size;
use crate::size::size_text;
use crate::text::decimal;
use crate::text::decimal_text;
use ratatui::layout::Constraint;
use ratatui::layout::Layout;
use ratatui::layout::Rect;
use vstd::prelude::*;

verus! {

/// A rectangle of the terminal.
#[derive(Clone, Copy, Debug, PartialEq, Eq, Structural)]
pub struct Area {
    pub x: u16,
    pub y: u16,
    pub width: u16,
    pub height: u16,
}

/// How high a row, or how wide a column, is to be.
#[derive(Clone, Copy, Debug, PartialEq, Eq, Structural)]
pub enum Extent {
    /// Just so much.
    Length(u16),
    /// A share of what is left.
    Fill(u16),
}

/// Whether `inner` lies within `outer`.
pub open spec fn is_within(inner: Area, outer: Area) -> bool {
    &&& inner.x == outer.x
    &&& inner.width == outer.width
    &&& outer.y <= inner.y
    &&& inner.y + inner.height <= outer.y + outer.height
}

/// The heights of the rows that have a height of their own, added up.
pub open spec fn lengths_of(rows: Seq<Extent>) -> nat
    decreases rows.len(),
{
    if rows.len() == 0 {
        0
    } else {
        lengths_of(rows.drop_last()) + match rows.last() {
            Extent::Length(n) => n as nat,
            Extent::Fill(_) => 0,
        }
    }
}

/// Whether there is room in an area for the rows that have a height of their own.
pub open spec fn rows_fit(area: Area, rows: Seq<Extent>) -> bool {
    lengths_of(rows) <= area.height && area.y + area.height <= u16::MAX
}

/// Where a part ends.
pub open spec fn end_of(part: Area) -> int {
    part.y + part.height
}

/// Whether the parts lie one below the other, from the start of the area on, and each row that has
/// a height of its own has that height. With a row that takes what is left, they end where the area
/// ends, and such rows share evenly: none is more than one line higher than another.
pub open spec fn is_stacked(area: Area, rows: Seq<Extent>, parts: Seq<Area>) -> bool {
    &&& parts.len() > 0 ==> parts[0].y == area.y
    &&& forall|i: int| 0 < i < parts.len() ==> (#[trigger] parts[i]).y == end_of(parts[i - 1])
    &&& forall|i: int|
        0 <= i < parts.len() ==> (#[trigger] rows[i] matches Extent::Length(n) ==> parts[i].height
            == n)
    &&& (exists|i: int| 0 <= i < rows.len() && #[trigger] rows[i] is Fill) ==> end_of(parts.last())
        == end_of(area)
    &&& forall|i: int, j: int|
        0 <= i < rows.len() && 0 <= j < rows.len() && #[trigger] rows[i] is Fill
            && #[trigger] rows[j] is Fill ==> parts[i].height <= parts[j].height + 1
}

/// Whether the row at `i` is the only one that has a height of its own, and there is no room for it
/// in the area.
pub open spec fn is_too_high(area: Area, rows: Seq<Extent>, i: int) -> bool {
    &&& rows[i] matches Extent::Length(n) && n > area.height
    &&& area.y + area.height <= u16::MAX
    &&& forall|j: int| 0 <= j < rows.len() && j != i ==> #[trigger] rows[j] is Fill
}

/// What holds of the parts that an area is split into, one for each row.
pub open spec fn is_split(area: Area, rows: Seq<Extent>, parts: Seq<Area>) -> bool {
    &&& parts.len() == rows.len()
    &&& forall|i: int| 0 <= i < parts.len() ==> is_within(#[trigger] parts[i], area)
    &&& rows_fit(area, rows) ==> is_stacked(area, rows, parts)
    &&& forall|i: int|
        0 <= i < parts.len() && is_too_high(area, rows, i) ==> #[trigger] parts[i] == area
}

/// `ratatui::layout::Layout::vertical` with the given rows, and `split`, on the given area:
/// there is a part for each row, all parts are as wide as the area, and none reaches out of it.
/// Where there is room for the rows of fixed height, each has that height, the parts lie one below
/// the other from the start of the area on, and rows that take what is left share it evenly and
/// leave nothing over. Where there is no room for the only row of fixed height, it gets the whole
/// area. Which of two rows that share is the higher one, and what gives way where several rows of
/// fixed height have no room, is left to the solver of `ratatui`, which weighs the rows against each
/// other; nothing is said of that here.
#[verifier::external_body]
fn split_rows(area: Area, rows: &Vec<Extent>) -> (parts: Vec<Area>)
    requires
        rows@.len() <= 4,
        forall|i: int| 0 <= i < rows@.len() ==> (#[trigger] rows@[i] matches Extent::Fill(n) ==> n == 1),
    ensures
        is_split(area, rows@, parts@),
{
    let constraints: Vec<Constraint> = rows.iter().map(|row| match row {
        Extent::Length(n) => Constraint::Length(*n),
        Extent::Fill(n) => Constraint::Fill(*n),
    }).collect();
    let whole = Rect { x: area.x, y: area.y, width: area.width, height: area.height };
    let parts = Layout::vertical(constraints).split(whole);
    parts.iter().map(|p| Area { x: p.x, y: p.y, width: p.width, height: p.height }).collect()
}

/// How text looks.
#[derive(Clone, Copy, Debug, PartialEq, Eq, Structural)]
pub struct TextStyle {
    pub fg: Option<Color>,
    pub bold: bool,
}

/// A piece of text in one style.
pub struct Span {
    pub text: String,
    pub style: TextStyle,
}

/// A piece of text as a value.
pub struct SpanView {
    pub text: Seq<char>,
    pub style: TextStyle,
}

impl DeepView for Span {
    type V = SpanView;

    open spec fn deep_view(&self) -> SpanView {
        SpanView { text: self.text@, style: self.style }
    }
}

/// Lines of text.
pub struct Paragraph {
    pub lines: Vec<Vec<Span>>,
    pub centered: bool,
    pub borders: bool,
    pub title: Option<&'static str>,
}

/// Lines of text as a value.
pub struct ParagraphView {
    pub lines: Seq<Seq<SpanView>>,
    pub centered: bool,
    pub borders: bool,
    pub title: Option<Seq<char>>,
}

impl DeepView for Paragraph {
    type V = ParagraphView;

    open spec fn deep_view(&self) -> ParagraphView {
        ParagraphView {
            lines: self.lines.deep_view(),
            centered: self.centered,
            borders: self.borders,
            title: self.title.deep_view(),
        }
    }
}

/// A table with borders; the row under the cursor is shown reversed.
pub struct Table {
    pub header: Vec<&'static str>,
    pub header_style: TextStyle,
    /// Empty lines below the header.
    pub header_margin: u16,
    pub widths: Vec<Extent>,
    pub rows: Vec<Vec<Span>>,
}

/// A table as a value.
pub struct TableView {
    pub header: Seq<Seq<char>>,
    pub header_style: TextStyle,
    pub header_margin: u16,
    pub widths: Seq<Extent>,
    pub rows: Seq<Seq<SpanView>>,
}

impl DeepView for Table {
    type V = TableView;

    open spec fn deep_view(&self) -> TableView {
        TableView {
            header: self.header.deep_view(),
            header_style: self.header_style,
            header_margin: self.header_margin,
            widths: self.widths@,
            rows: self.rows.deep_view(),
        }
    }
}

/// A bar with borders, filled by `part` of `whole`; it is empty where `whole` is nought.
pub struct Gauge {
    pub title: &'static str,
    pub color: Color,
    pub part: usize,
    pub whole: usize,
    pub label: String,
}

/// A bar as a value.
pub struct GaugeView {
    pub title: Seq<char>,
    pub color: Color,
    pub part: nat,
    pub whole: nat,
    pub label: Seq<char>,
}

impl DeepView for Gauge {
    type V = GaugeView;

    open spec fn deep_view(&self) -> GaugeView {
        GaugeView {
            title: self.title@,
            color: self.color,
            part: self.part as nat,
            whole: self.whole as nat,
            label: self.label@,
        }
    }
}

/// Something to draw.
pub enum Widget {
    Paragraph(Paragraph),
    Table(Table),
    Gauge(Gauge),
}

/// Something to draw, as a value.
pub enum WidgetView {
    Paragraph(ParagraphView),
    Table(TableView),
    Gauge(GaugeView),
}

impl DeepView for Widget {
    type V = WidgetView;

    open spec fn deep_view(&self) -> WidgetView {
        match self {
            Widget::Paragraph(p) => WidgetView::Paragraph(p.deep_view()),
            Widget::Table(t) => WidgetView::Table(t.deep_view()),
            Widget::Gauge(g) => WidgetView::Gauge(g.deep_view()),
        }
    }
}

/// Something to draw, and where.
pub struct Placed {
    pub area: Area,
    pub widget: Widget,
}

/// Something to draw, and where, as a value.
pub struct PlacedView {
    pub area: Area,
    pub widget: WidgetView,
}

impl DeepView for Placed {
    type V = PlacedView;

    open spec fn deep_view(&self) -> PlacedView {
        PlacedView { area: self.area, widget: self.widget.deep_view() }
    }
}

/// Text as it is.
pub open spec fn raw(text: Seq<char>) -> SpanView {
    SpanView { text, style: TextStyle { fg: None, bold: false } }
}

/// Text in a colour.
pub open spec fn tinted(text: Seq<char>, color: Color) -> SpanView {
    SpanView { text, style: TextStyle { fg: Some(color), bold: false } }
}

/// Bold text in a colour.
pub open spec fn bold(text: Seq<char>, color: Color) -> SpanView {
    SpanView { text, style: TextStyle { fg: Some(color), bold: true } }
}

fn raw_span(text: String) -> (r: Span)
    ensures
        r.deep_view() == raw(text@),
{
    Span { text, style: TextStyle { fg: None, bold: false } }
}

fn raw_text(text: &str) -> (r: Span)
    ensures
        r.deep_view() == raw(text@),
{
    raw_span(text.to_owned())
}

fn tinted_span(text: String, color: Color) -> (r: Span)
    ensures
        r.deep_view() == tinted(text@, color),
{
    Span { text, style: TextStyle { fg: Some(color), bold: false } }
}

fn bold_text(text: &str, color: Color) -> (r: Span)
    ensures
        r.deep_view() == bold(text@, color),
{
    Span { text: text.to_owned(), style: TextStyle { fg: Some(color), bold: true } }
}

/// The pictures of the turning sign, in their order.
pub open spec fn spinner_chars() -> Seq<char> {
    seq!['⠋', '⠙', '⠹', '⠸', '⠼', '⠴', '⠦', '⠧', '⠇', '⠏']
}

/// The turning sign while scanning: each directory that is looked at turns it on.
pub open spec fn spinner(scanned: u64) -> ParagraphView {
    ParagraphView {
        lines: seq![
            seq![
                tinted(" "@.push(spinner_chars()[(scanned as usize) as int % 10]) + " "@, Color::Yellow),
                raw("Scanning filesystem..."@),
            ],
        ],
        centered: true,
        borders: false,
        title: None,
    }
}

/// What is said while scanning.
pub open spec fn scan_info(scanned: u64, found: nat) -> ParagraphView {
    ParagraphView {
        lines: seq![
            seq![
                raw("Scanning... "@),
                tinted(decimal(scanned as nat) + " dirs scanned"@, Color::Cyan),
                raw(" | "@),
                tinted(decimal(found) + " projects found"@, Color::Green),
            ],
        ],
        centered: true,
        borders: true,
        title: Some(" depclean "@),
    }
}

/// A paragraph of one line.
fn one_line(spans: Vec<Span>, centered: bool, borders: bool, title: Option<&'static str>) -> (r:
    Widget)
    ensures
        r.deep_view() == WidgetView::Paragraph(
            ParagraphView {
                lines: seq![spans.deep_view()],
                centered,
                borders,
                title: title.deep_view(),
            },
        ),
{
    let ghost wanted = seq![spans.deep_view()];
    let lines = vec![spans];
    assert(lines.deep_view() =~= wanted);
    Widget::Paragraph(Paragraph { lines, centered, borders, title })
}

/// The turning sign while scanning.
pub fn spinner_widget(scanned: u64) -> (r: Widget)
    ensures
        r.deep_view() == WidgetView::Paragraph(spinner(scanned)),
{
    let chars = ['⠋', '⠙', '⠹', '⠸', '⠼', '⠴', '⠦', '⠧', '⠇', '⠏'];
    let i: usize = (scanned as usize) % 10;
    let mut text = " ".to_owned();
    text.push(chars[i]);
    text.append(" ");
    let spans = vec![tinted_span(text, Color::Yellow), raw_text("Scanning filesystem...")];
    assert(spans.deep_view() =~= spinner(scanned).lines[0]);
    one_line(spans, true, false, None)
}

/// What is said while scanning.
pub fn scan_info_widget(scanned: u64, found: usize) -> (r: Widget)
    ensures
        r.deep_view() == WidgetView::Paragraph(scan_info(scanned, found as nat)),
{
    let mut dirs = decimal_text(scanned as u128);
    dirs.append(" dirs scanned");
    let mut projects = decimal_text(found as u128);
    projects.append(" projects found");
    let spans = vec![
        raw_text("Scanning... "),
        tinted_span(dirs, Color::Cyan),
        raw_text(" | "),
        tinted_span(projects, Color::Green),
    ];
    assert(spans.deep_view() =~= scan_info(scanned, found as nat).lines[0]);
    one_line(spans, true, true, Some(" depclean "))
}

/// The line above the list.
pub open spec fn list_header(count: nat, total: u64, selected: u64) -> ParagraphView {
    ParagraphView {
        lines: seq![
            seq![
                bold(" depclean "@, Color::Cyan),
                raw(
                    "— "@ + decimal(count) + " projects | Total: "@ + size_text(total)
                        + " | Selected: "@ + size_text(selected),
                ),
            ],
        ],
        centered: false,
        borders: true,
        title: None,
    }
}

/// The line below the list: the keys and what they do.
pub open spec fn list_footer() -> ParagraphView {
    ParagraphView {
        lines: seq![
            seq![
                bold(" ↑↓ "@, Color::Cyan),
                raw("navigate  "@),
                bold("Space "@, Color::Cyan),
                raw("toggle  "@),
                bold("a "@, Color::Cyan),
                raw("select all  "@),
                bold("Enter "@, Color::Green),
                raw("delete  "@),
                bold("q "@, Color::Red),
                raw("quit"@),
            ],
        ],
        centered: false,
        borders: true,
        title: None,
    }
}

/// What is said of how much there is to delete of a project.
pub open spec fn target_text<P>(target: TargetView<P>) -> Seq<char> {
    match target {
        TargetView::Directories(dirs) => decimal(dirs.len()) + " dirs"@,
        TargetView::DockerImage { .. } => "image"@,
    }
}

/// The row of a project: whether it is chosen, its name, its language, its size, and how much
/// there is to delete.
pub open spec fn project_row<P>(p: ProjectView<P>) -> Seq<SpanView> {
    seq![
        if p.selected {
            tinted(" ["@ + "✔"@ + "]"@, Color::Green)
        } else {
            tinted(" ["@ + " "@ + "]"@, Color::DarkGray)
        },
        raw(p.display_name),
        tinted(p.lang, p.lang_color),
        tinted(size_text(p.size), Color::Yellow),
        tinted(target_text(p.target), Color::DarkGray),
    ]
}

/// The list.
pub open spec fn list_table<P>(projects: Seq<ProjectView<P>>) -> TableView {
    TableView {
        header: seq![""@, "Path"@, "Language"@, "Size"@, "Deps"@],
        header_style: TextStyle { fg: Some(Color::White), bold: true },
        header_margin: 1,
        widths: seq![
            Extent::Length(6),
            Extent::Fill(1),
            Extent::Length(10),
            Extent::Length(12),
            Extent::Length(8),
        ],
        rows: projects.map_values(|p: ProjectView<P>| project_row(p)),
    }
}

/// The line above the list.
pub fn list_header_widget(count: usize, total: u64, selected: u64) -> (r: Widget)
    ensures
        r.deep_view() == WidgetView::Paragraph(list_header(count as nat, total, selected)),
{
    let mut text = "— ".to_owned();
    text.append(decimal_text(count as u128).as_str());
    text.append(" projects | Total: ");
    text.append(format_size(total).as_str());
    text.append(" | Selected: ");
    text.append(format_size(selected).as_str());
    let spans = vec![bold_text(" depclean ", Color::Cyan), raw_span(text)];
    assert(spans.deep_view() =~= list_header(count as nat, total, selected).lines[0]);
    one_line(spans, false, true, None)
}

/// The line below the list.
pub fn list_footer_widget() -> (r: Widget)
    ensures
        r.deep_view() == WidgetView::Paragraph(list_footer()),
{
    let spans = vec![
        bold_text(" ↑↓ ", Color::Cyan),
        raw_text("navigate  "),
        bold_text("Space ", Color::Cyan),
        raw_text("toggle  "),
        bold_text("a ", Color::Cyan),
        raw_text("select all  "),
        bold_text("Enter ", Color::Green),
        raw_text("delete  "),
        bold_text("q ", Color::Red),
        raw_text("quit"),
    ];
    assert(spans.deep_view() =~= list_footer().lines[0]);
    one_line(spans, false, true, None)
}

/// The row of a project.
pub fn project_cells<P>(project: &Project<P>) -> (r: Vec<Span>)
    ensures
        r.deep_view() == project_row(project@),
{
    let mut check = " [".to_owned();
    check.append(
        if project.selected {
            "✔"
        } else {
            " "
        },
    );
    check.append("]");
    let check_color = if project.selected {
        Color::Green
    } else {
        Color::DarkGray
    };
    let deps = match &project.target {
        CleanTarget::Directories(dirs) => {
            let mut text = decimal_text(dirs.len() as u128);
            text.append(" dirs");
            text
        },
        CleanTarget::DockerImage { .. } => "image".to_owned(),
    };
    let cells = vec![
        tinted_span(check, check_color),
        raw_span(project.display_name.clone()),
        tinted_span(project.lang.to_owned(), project.lang_color),
        tinted_span(format_size(project.size), Color::Yellow),
        tinted_span(deps, Color::DarkGray),
    ];
    assert(cells.deep_view() =~= project_row(project@));
    cells
}

/// The list.
pub fn list_table_widget<P>(projects: &Vec<Project<P>>) -> (r: Widget)
    ensures
        r.deep_view() == WidgetView::Table(list_table(projects.deep_view())),
{
    let ghost wanted = list_table(projects.deep_view());
    let mut rows: Vec<Vec<Span>> = Vec::new();
    let mut i: usize = 0;
    while i < projects.len()
        invariant
            i <= projects@.len(),
            wanted == list_table(projects.deep_view()),
            rows@.len() == i,
            forall|j: int| 0 <= j < i ==> (#[trigger] rows@[j]).deep_view() == wanted.rows[j],
        decreases projects@.len() - i,
    {
        rows.push(project_cells(&projects[i]));
        i += 1;
    }
    assert(rows.deep_view() =~= wanted.rows);
    let header = vec!["", "Path", "Language", "Size", "Deps"];
    assert(header.deep_view() =~= wanted.header);
    let widths = vec![
        Extent::Length(6),
        Extent::Fill(1),
        Extent::Length(10),
        Extent::Length(12),
        Extent::Length(8),
    ];
    assert(widths@ =~= wanted.widths);
    Widget::Table(
        Table {
            header,
            header_style: TextStyle { fg: Some(Color::White), bold: true },
            header_margin: 1,
            widths,
            rows,
        },
    )
}

/// The question before deleting.
pub open spec fn confirm_box(count: nat, size: u64) -> ParagraphView {
    ParagraphView {
        lines: seq![
            Seq::empty(),
            seq![bold("  ⚠  Confirm Deletion"@, Color::Yellow)],
            Seq::empty(),
            seq![
                raw(
                    "  Delete dependencies from "@ + decimal(count) + " project(s), freeing ~"@
                        + size_text(size) + "?"@,
                ),
            ],
            Seq::empty(),
            seq![
                bold("  y "@, Color::Green),
                raw("confirm  "@),
                bold("n "@, Color::Red),
                raw("cancel"@),
            ],
        ],
        centered: false,
        borders: true,
        title: Some(" Confirm "@),
    }
}

/// The question before deleting.
pub fn confirm_widget(count: usize, size: u64) -> (r: Widget)
    ensures
        r.deep_view() == WidgetView::Paragraph(confirm_box(count as nat, size)),
{
    let ghost wanted = confirm_box(count as nat, size);
    let mut text = "  Delete dependencies from ".to_owned();
    text.append(decimal_text(count as u128).as_str());
    text.append(" project(s), freeing ~");
    text.append(format_size(size).as_str());
    text.append("?");
    let heading = vec![bold_text("  ⚠  Confirm Deletion", Color::Yellow)];
    assert(heading.deep_view() =~= wanted.lines[1]);
    let question = vec![raw_span(text)];
    assert(question.deep_view() =~= wanted.lines[3]);
    let answers = vec![
        bold_text("  y ", Color::Green),
        raw_text("confirm  "),
        bold_text("n ", Color::Red),
        raw_text("cancel"),
    ];
    assert(answers.deep_view() =~= wanted.lines[5]);
    let lines = vec![no_text(), heading, no_text(), question, no_text(), answers];
    assert(lines.deep_view() =~= wanted.lines);
    Widget::Paragraph(
        Paragraph { lines, centered: false, borders: true, title: Some(" Confirm ") },
    )
}

/// An empty line.
fn no_text() -> (r: Vec<Span>)
    ensures
        r.deep_view() == Seq::<SpanView>::empty(),
{
    let r: Vec<Span> = Vec::new();
    assert(r.deep_view() =~= Seq::<SpanView>::empty());
    r
}

/// How far the deletion has come.
pub open spec fn progress_bar(current: nat, total: nat) -> GaugeView {
    GaugeView {
        title: " Deleting... "@,
        color: Color::Red,
        part: current,
        whole: total,
        label: decimal(current) + "/"@ + decimal(total) + " items"@,
    }
}

/// How far the deletion has come.
pub fn progress_widget(current: usize, total: usize) -> (r: Widget)
    ensures
        r.deep_view() == WidgetView::Gauge(progress_bar(current as nat, total as nat)),
{
    let mut label = decimal_text(current as u128);
    label.append("/");
    label.append(decimal_text(total as u128).as_str());
    label.append(" items");
    Widget::Gauge(
        Gauge { title: " Deleting... ", color: Color::Red, part: current, whole: total, label },
    )
}

/// What is said after the deletion.
pub open spec fn done_box(freed: u64) -> ParagraphView {
    ParagraphView {
        lines: seq![
            Seq::empty(),
            seq![
                bold("  ✓ "@, Color::Green),
                raw("Done! Freed "@ + size_text(freed)),
            ],
            seq![
                raw("  Press "@),
                bold("q"@, Color::Cyan),
                raw(" to quit or "@),
                bold("Enter"@, Color::Cyan),
                raw(" to continue"@),
            ],
        ],
        centered: false,
        borders: true,
        title: Some(" Complete "@),
    }
}

/// What is said after the deletion.
pub fn done_widget(freed: u64) -> (r: Widget)
    ensures
        r.deep_view() == WidgetView::Paragraph(done_box(freed)),
{
    let ghost wanted = done_box(freed);
    let mut text = "Done! Freed ".to_owned();
    text.append(format_size(freed).as_str());
    let result = vec![bold_text("  ✓ ", Color::Green), raw_span(text)];
    assert(result.deep_view() =~= wanted.lines[1]);
    let keys = vec![
        raw_text("  Press "),
        bold_text("q", Color::Cyan),
        raw_text(" to quit or "),
        bold_text("Enter", Color::Cyan),
        raw_text(" to continue"),
    ];
    assert(keys.deep_view() =~= wanted.lines[2]);
    let lines = vec![no_text(), result, keys];
    assert(lines.deep_view() =~= wanted.lines);
    Widget::Paragraph(
        Paragraph { lines, centered: false, borders: true, title: Some(" Complete ") },
    )
}

/// The rows that the screen of a phase has.
pub open spec fn rows_of(phase: AppPhase) -> Seq<Extent> {
    match phase {
        AppPhase::Scanning => seq![
            Extent::Fill(1),
            Extent::Length(3),
            Extent::Length(3),
            Extent::Fill(1),
        ],
        AppPhase::Selecting => seq![Extent::Length(3), Extent::Fill(1), Extent::Length(3)],
        AppPhase::Confirming => seq![Extent::Fill(1), Extent::Length(7), Extent::Fill(1)],
        AppPhase::Deleting { .. } => seq![Extent::Fill(1), Extent::Length(5), Extent::Fill(1)],
        AppPhase::Done { .. } => seq![Extent::Fill(1), Extent::Length(5), Extent::Fill(1)],
    }
}

/// The rows that the screen of a phase has.
pub fn screen_rows(phase: AppPhase) -> (r: Vec<Extent>)
    ensures
        r@ == rows_of(phase),
{
    let r = match phase {
        AppPhase::Scanning => vec![
            Extent::Fill(1),
            Extent::Length(3),
            Extent::Length(3),
            Extent::Fill(1),
        ],
        AppPhase::Selecting => vec![Extent::Length(3), Extent::Fill(1), Extent::Length(3)],
        AppPhase::Confirming => vec![Extent::Fill(1), Extent::Length(7), Extent::Fill(1)],
        AppPhase::Deleting { .. } | AppPhase::Done { .. } => vec![
            Extent::Fill(1),
            Extent::Length(5),
            Extent::Fill(1),
        ],
    };
    assert(r@ =~= rows_of(phase));
    r
}

/// A paragraph in an area.
pub open spec fn text_in(area: Area, p: ParagraphView) -> PlacedView {
    PlacedView { area, widget: WidgetView::Paragraph(p) }
}

/// What the screen shows in the given parts of the terminal, one for each of its rows.
pub open spec fn frame<P>(a: AppView<P>, parts: Seq<Area>) -> Seq<PlacedView> {
    match a.phase {
        AppPhase::Scanning => seq![
            text_in(parts[1], spinner(a.dirs_scanned)),
            text_in(parts[2], scan_info(a.dirs_scanned, a.projects.len())),
        ],
        AppPhase::Selecting => seq![
            text_in(
                parts[0],
                list_header(
                    a.projects.len(),
                    total_of(a.projects) as u64,
                    total_of(chosen(a.projects)) as u64,
                ),
            ),
            PlacedView { area: parts[1], widget: WidgetView::Table(list_table(a.projects)) },
            text_in(parts[2], list_footer()),
        ],
        AppPhase::Confirming => seq![
            text_in(
                parts[1],
                confirm_box(chosen(a.projects).len(), total_of(chosen(a.projects)) as u64),
            ),
        ],
        AppPhase::Deleting { current, total } => seq![
            PlacedView {
                area: parts[1],
                widget: WidgetView::Gauge(progress_bar(current as nat, total as nat)),
            },
        ],
        AppPhase::Done { freed } => seq![text_in(parts[1], done_box(freed))],
    }
}

/// Whether the sizes that the screen shows can be added up.
pub open spec fn sizes_fit<P>(a: AppView<P>) -> bool {
    match a.phase {
        AppPhase::Selecting => total_of(a.projects) <= u64::MAX,
        AppPhase::Confirming => total_of(chosen(a.projects)) <= u64::MAX,
        _ => true,
    }
}

/// Where what holds of the state holds, every screen can be shown.
pub proof fn valid_states_can_be_shown<P>(a: AppView<P>)
    requires
        a.valid(),
    ensures
        sizes_fit(a),
{
    chosen_within_listed(a.projects);
}

/// The screen while deleting.
pub fn render_deleting(current: usize, total: usize, parts: &Vec<Area>) -> (r: Vec<Placed>)
    requires
        parts@.len() >= 2,
    ensures
        r.deep_view() == seq![
            PlacedView {
                area: parts@[1],
                widget: WidgetView::Gauge(progress_bar(current as nat, total as nat)),
            },
        ],
{
    let r = vec![Placed { area: parts[1], widget: progress_widget(current, total) }];
    assert(r.deep_view() =~= seq![r@[0].deep_view()]);
    r
}

/// The screen after the deletion.
pub fn render_done(freed: u64, parts: &Vec<Area>) -> (r: Vec<Placed>)
    requires
        parts@.len() >= 2,
    ensures
        r.deep_view() == seq![text_in(parts@[1], done_box(freed))],
{
    let r = vec![Placed { area: parts[1], widget: done_widget(freed) }];
    assert(r.deep_view() =~= seq![r@[0].deep_view()]);
    r
}

impl<P> App<P> {
    /// The screen while scanning.
    pub fn render_scanning(&self, parts: &Vec<Area>) -> (r: Vec<Placed>)
        requires
            self@.phase is Scanning,
            parts@.len() >= 3,
        ensures
            r.deep_view() == frame(self@, parts@),
    {
        let r = vec![
            Placed { area: parts[1], widget: spinner_widget(self.dirs_scanned) },
            Placed {
                area: parts[2],
                widget: scan_info_widget(self.dirs_scanned, self.project_count()),
            },
        ];
        assert(r.deep_view() =~= frame(self@, parts@));
        r
    }

    /// The screen with the list.
    pub fn render_selecting(&self, parts: &Vec<Area>) -> (r: Vec<Placed>)
        requires
            sizes_fit(self@),
            self@.phase is Selecting,
            parts@.len() >= 3,
        ensures
            r.deep_view() == frame(self@, parts@),
    {
        let header = list_header_widget(
            self.project_count(),
            self.total_size(),
            self.selected_size(),
        );
        let r = vec![
            Placed { area: parts[0], widget: header },
            Placed { area: parts[1], widget: list_table_widget(&self.projects) },
            Placed { area: parts[2], widget: list_footer_widget() },
        ];
        assert(r.deep_view() =~= frame(self@, parts@));
        r
    }

    /// The screen with the question before deleting.
    pub fn render_confirming(&self, parts: &Vec<Area>) -> (r: Vec<Placed>)
        requires
            sizes_fit(self@),
            self@.phase is Confirming,
            parts@.len() >= 2,
        ensures
            r.deep_view() == frame(self@, parts@),
    {
        let widget = confirm_widget(self.selected_count(), self.selected_size());
        let r = vec![Placed { area: parts[1], widget }];
        assert(r.deep_view() =~= frame(self@, parts@));
        r
    }

    /// What the screen shows in the given parts of the terminal, one for each of its rows.
    pub fn compose(&self, parts: &Vec<Area>) -> (r: Vec<Placed>)
        requires
            self@.valid() || sizes_fit(self@),
            parts@.len() == rows_of(self@.phase).len(),
        ensures
            r.deep_view() == frame(self@, parts@),
    {
        proof {
            if self@.valid() {
                valid_states_can_be_shown(self@);
            }
        }
        match self.phase {
            AppPhase::Scanning => self.render_scanning(parts),
            AppPhase::Selecting => self.render_selecting(parts),
            AppPhase::Confirming => self.render_confirming(parts),
            AppPhase::Deleting { current, total } => render_deleting(current, total, parts),
            AppPhase::Done { freed } => render_done(freed, parts),
        }
    }

    /// What is drawn on a terminal of the given size.
    pub fn ui(&self, area: Area) -> (r: Vec<Placed>)
        requires
            self@.valid() || sizes_fit(self@),
        ensures
            exists|parts: Seq<Area>| #[trigger]
                is_split(area, rows_of(self@.phase), parts) && r.deep_view() == frame(self@, parts),
    {
        let rows = screen_rows(self.phase);
        let parts = split_rows(area, &rows);
        self.compose(&parts)
    }
}

/// On a terminal with room for it, what is drawn further down begins where what is above has
/// ended.
pub proof fn widgets_do_not_overlap<P>(
    a: AppView<P>,
    area: Area,
    parts: Seq<Area>,
    i: int,
    j: int,
)
    requires
        is_split(area, rows_of(a.phase), parts),
        rows_fit(area, rows_of(a.phase)),
        0 <= i < j < frame(a, parts).len(),
    ensures
        end_of(frame(a, parts)[i].area) <= frame(a, parts)[j].area.y,
{
    assert(is_stacked(area, rows_of(a.phase), parts));
    assert(parts.len() >= 3);
    assert(parts[1].y == end_of(parts[0]) && parts[2].y == end_of(parts[1]));
}

/// On a terminal with room for it, the list takes all that the lines above and below it leave.
pub proof fn list_takes_the_rest<P>(a: AppView<P>, area: Area, parts: Seq<Area>)
    requires
        a.phase is Selecting,
        is_split(area, rows_of(a.phase), parts),
        area.height >= 6,
        area.y + area.height <= u16::MAX,
    ensures
        frame(a, parts)[0].area == (Area { height: 3, ..area }),
        frame(a, parts)[1].area == (Area {
            y: (area.y + 3) as u16,
            height: (area.height - 6) as u16,
            ..area
        }),
        frame(a, parts)[2].area == (Area {
            y: (area.y + area.height - 3) as u16,
            height: 3,
            ..area
        }),
{
    let rows = rows_of(a.phase);
    reveal_with_fuel(lengths_of, 4);
    assert(is_stacked(area, rows, parts));
    assert(rows[0] == Extent::Length(3) && rows[1] is Fill && rows[2] == Extent::Length(3));
    assert(is_within(parts[0], area) && is_within(parts[1], area) && is_within(parts[2], area));
    assert(parts[1].y == end_of(parts[0]) && parts[2].y == end_of(parts[1]));
}

/// On a terminal with room for it, what the screens besides the list show stands in the middle: the
/// lines that are free above and below differ by no more than one.
pub proof fn boxes_stand_in_the_middle<P>(a: AppView<P>, area: Area, parts: Seq<Area>)
    requires
        !(a.phase is Selecting),
        is_split(area, rows_of(a.phase), parts),
        rows_fit(area, rows_of(a.phase)),
    ensures
        ({
            let above = frame(a, parts)[0].area.y - area.y;
            let below = end_of(area) - end_of(frame(a, parts).last().area);
            -1 <= above - below <= 1
        }),
{
    let rows = rows_of(a.phase);
    let last = rows.len() - 1;
    assert(is_stacked(area, rows, parts));
    assert(rows[0] is Fill && rows[last] is Fill);
    assert(parts[1].y == end_of(parts[0]) && parts[2].y == end_of(parts[1]));
    assert(parts[last].y == end_of(parts[last - 1]));
    assert(parts[0].height <= parts[last].height + 1);
    assert(parts[last].height <= parts[0].height + 1);
}

/// A single box for which the terminal is too low takes the whole of it.
pub proof fn boxes_without_room_take_all<P>(a: AppView<P>, area: Area, parts: Seq<Area>)
    requires
        a.phase is Confirming || a.phase is Deleting || a.phase is Done,
        is_split(area, rows_of(a.phase), parts),
        area.height < lengths_of(rows_of(a.phase)),
        area.y + area.height <= u16::MAX,
    ensures
        frame(a, parts).len() == 1,
        frame(a, parts)[0].area == area,
{
    let rows = rows_of(a.phase);
    reveal_with_fuel(lengths_of, 4);
    assert(rows[1] is Length);
    assert(is_too_high(area, rows, 1));
    assert(parts[1] == area);
}

/// Nothing is drawn outside the terminal.
pub proof fn screens_stay_on_the_terminal<P>(a: AppView<P>, area: Area, parts: Seq<Area>, i: int)
    requires
        is_split(area, rows_of(a.phase), parts),
        0 <= i < frame(a, parts).len(),
    ensures
        is_within(frame(a, parts)[i].area, area),
{
    assert(forall|k: int| 0 <= k < parts.len() ==> is_within(#[trigger] parts[k], area));
    assert(parts.len() >= 3);
    assert(is_within(parts[0], area) && is_within(parts[1], area) && is_within(parts[2], area));
}

/// The text of a line, without its styles.
pub open spec fn text_of(line: Seq<SpanView>) -> Seq<char>
    decreases line.len(),
{
    if line.len() == 0 {
        Seq::empty()
    } else {
        text_of(line.drop_last()) + line.last().text
    }
}

proof fn lemma_text_of(line: Seq<SpanView>, n: int)
    requires
        0 < n <= line.len(),
    ensures
        text_of(line.take(n)) == text_of(line.take(n - 1)) + line[n - 1].text,
{
    assert(line.take(n).drop_last() =~= line.take(n - 1));
}

proof fn lemma_text_of_two(line: Seq<SpanView>)
    requires
        line.len() == 2,
    ensures
        text_of(line) == line[0].text + line[1].text,
{
    assert(line.take(0) =~= Seq::<SpanView>::empty());
    lemma_text_of(line, 1);
    lemma_text_of(line, 2);
    assert(line.take(2) =~= line);
    assert(text_of(line) =~= line[0].text + line[1].text);
}

proof fn lemma_text_of_four(line: Seq<SpanView>)
    requires
        line.len() == 4,
    ensures
        text_of(line) == line[0].text + line[1].text + line[2].text + line[3].text,
{
    lemma_text_of_two(line.take(2));
    lemma_text_of(line, 3);
    lemma_text_of(line, 4);
    assert(line.take(4) =~= line);
}

/// While scanning, the screen tells how many directories were looked at and how many projects were
/// found.
pub proof fn the_scan_is_told<P>(a: AppView<P>, parts: Seq<Area>)
    requires
        a.phase is Scanning,
    ensures
        ({
            let shown = frame(a, parts);
            &&& shown.len() == 2
            &&& shown[0].area == parts[1]
            &&& shown[1].area == parts[2]
            &&& shown[0].widget == WidgetView::Paragraph(spinner(a.dirs_scanned))
            &&& shown[1].widget matches WidgetView::Paragraph(p) && p.lines.len() == 1 && text_of(
                p.lines[0],
            ) == "Scanning... "@ + decimal(a.dirs_scanned as nat) + " dirs scanned"@ + " | "@
                + decimal(a.projects.len()) + " projects found"@
        }),
{
    let line = scan_info(a.dirs_scanned, a.projects.len()).lines[0];
    lemma_text_of_four(line);
    assert(text_of(line) =~= "Scanning... "@ + decimal(a.dirs_scanned as nat) + " dirs scanned"@
        + " | "@ + decimal(a.projects.len()) + " projects found"@);
}

/// The turning sign goes on by one picture with every directory, and comes round after ten.
pub proof fn the_sign_turns(n: u64, k: u64)
    requires
        n + 10 <= 0xffff_ffff,
        0 < k < 10,
    ensures
        spinner((n + 10) as u64) == spinner(n),
        spinner((n + k) as u64) != spinner(n),
        text_of(spinner(n).lines[0]).len() == 25,
{
    reveal_strlit(" ");
    reveal_strlit("Scanning filesystem...");
    let m = (n + k) as u64;
    let a = spinner(n).lines[0][0].text;
    let b = spinner(m).lines[0][0].text;
    let i = n as int % 10;
    let j = m as int % 10;
    assert(i != j);
    assert(a[1] == spinner_chars()[i] && b[1] == spinner_chars()[j]);
    assert(spinner_chars()[i] != spinner_chars()[j]);
    lemma_text_of_two(spinner(n).lines[0]);
}

/// The list is shown with a line above it that tells how many projects there are, how large they are,
/// and how large the chosen ones are.
pub proof fn the_list_is_told<P>(a: AppView<P>, parts: Seq<Area>)
    requires
        a.phase is Selecting,
        total_of(a.projects) <= u64::MAX,
    ensures
        ({
            let shown = frame(a, parts);
            &&& shown.len() == 3
            &&& shown[0].area == parts[0]
            &&& shown[1].area == parts[1]
            &&& shown[2].area == parts[2]
            &&& exists|total: u64, selected: u64|
                total == total_of(a.projects) && selected == total_of(chosen(a.projects)) && (
                shown[0].widget matches WidgetView::Paragraph(p) && p.lines.len() == 1 && text_of(
                    p.lines[0],
                ) == " depclean "@ + "— "@ + decimal(a.projects.len()) + " projects | Total: "@
                    + #[trigger] size_text(total) + " | Selected: "@ + #[trigger] size_text(
                    selected,
                ))
            &&& shown[2].widget == WidgetView::Paragraph(list_footer())
        }),
{
    chosen_within_listed(a.projects);
    let total = total_of(a.projects) as u64;
    let selected = total_of(chosen(a.projects)) as u64;
    let line = list_header(a.projects.len(), total, selected).lines[0];
    lemma_text_of_two(line);
    assert(text_of(line) =~= " depclean "@ + "— "@ + decimal(a.projects.len())
        + " projects | Total: "@ + size_text(total) + " | Selected: "@ + size_text(selected));
}

/// The list has a row for each project, in their order. A row marks whether the project is chosen, and
/// shows its name, its language in the colour of that, its size, and how many directories are to be
/// deleted, or that it is an image.
pub proof fn the_list_shows_every_project<P>(a: AppView<P>, parts: Seq<Area>, i: int)
    requires
        a.phase is Selecting,
        0 <= i < a.projects.len(),
    ensures
        frame(a, parts)[1].widget is Table,
        ({
            let rows = frame(a, parts)[1].widget->Table_0.rows;
            let p = a.projects[i];
            &&& rows.len() == a.projects.len()
            &&& rows[i].len() == 5
            &&& rows[i][0].text == if p.selected {
                " ["@ + "✔"@ + "]"@
            } else {
                " ["@ + " "@ + "]"@
            }
            &&& rows[i][1].text == p.display_name
            &&& rows[i][2].text == p.lang
            &&& rows[i][2].style.fg == Some(p.lang_color)
            &&& rows[i][3].text == size_text(p.size)
            &&& rows[i][4].text == match p.target {
                TargetView::Directories(dirs) => decimal(dirs.len()) + " dirs"@,
                TargetView::DockerImage { .. } => "image"@,
            }
        }),
{
}

/// The question tells how many projects are chosen, and how large they are.
pub proof fn the_question_is_told<P>(a: AppView<P>, parts: Seq<Area>)
    requires
        a.phase is Confirming,
        total_of(chosen(a.projects)) <= u64::MAX,
    ensures
        ({
            let shown = frame(a, parts);
            &&& shown.len() == 1
            &&& shown[0].area == parts[1]
            &&& exists|size: u64|
                size == total_of(chosen(a.projects)) && (shown[0].widget matches WidgetView::Paragraph(
                    p,
                ) && p.lines.len() == 6 && text_of(p.lines[3]) == "  Delete dependencies from "@
                    + decimal(chosen(a.projects).len()) + " project(s), freeing ~"@
                    + #[trigger] size_text(size) + "?"@)
            &&& shown[0].widget matches WidgetView::Paragraph(p) && text_of(p.lines[5]) == "  y "@
                + "confirm  "@ + "n "@ + "cancel"@
        }),
{
    let size = total_of(chosen(a.projects)) as u64;
    let p = confirm_box(chosen(a.projects).len(), size);
    let line = p.lines[3];
    assert(line.take(0) =~= Seq::<SpanView>::empty());
    lemma_text_of(line, 1);
    assert(line.take(1) =~= line);
    assert(text_of(line) =~= "  Delete dependencies from "@ + decimal(chosen(a.projects).len())
        + " project(s), freeing ~"@ + size_text(size) + "?"@);
    lemma_text_of_four(p.lines[5]);
}

/// While deleting, the bar tells how many of the items are done; afterwards it is told how much was
/// freed.
pub proof fn the_deletion_is_told<P>(a: AppView<P>, parts: Seq<Area>)
    ensures
        a.phase matches AppPhase::Deleting { current, total } ==> {
            let shown = frame(a, parts);
            &&& shown.len() == 1
            &&& shown[0].area == parts[1]
            &&& shown[0].widget matches WidgetView::Gauge(g) && g.part == current && g.whole == total
                && g.label == decimal(current as nat) + "/"@ + decimal(total as nat) + " items"@
        },
        a.phase matches AppPhase::Done { freed } ==> {
            let shown = frame(a, parts);
            &&& shown.len() == 1
            &&& shown[0].area == parts[1]
            &&& shown[0].widget matches WidgetView::Paragraph(p) && p.lines.len() == 3 && text_of(
                p.lines[1],
            ) == "  ✓ "@ + "Done! Freed "@ + size_text(freed)
        },
{
    if let AppPhase::Done { freed } = a.phase {
        let line = done_box(freed).lines[1];
        lemma_text_of_two(line);
        assert(text_of(line) =~= "  ✓ "@ + "Done! Freed "@ + size_text(freed));
    }
}

} // verus!
