//! Tables for the terminal.
use vstd::prelude::*;
use vstd::string::*;

use comfy_table::modifiers::UTF8_ROUND_CORNERS;
use comfy_table::presets::UTF8_FULL;
use comfy_table::{Attribute, Cell, Color, Table};

verus! {

/// How a cell is shown.
#[derive(Debug, Clone, Copy, PartialEq, Eq, Structural)]
pub enum CellStyle {
    Plain,
    RedBold,
    DarkGrey,
}

impl DeepView for CellStyle {
    type V = CellStyle;

    open spec fn deep_view(&self) -> CellStyle {
        *self
    }
}

/// A cell of a table.
#[derive(Debug, Clone)]
pub struct CellText {
    pub text: String,
    pub style: CellStyle,
}

impl DeepView for CellText {
    type V = (Seq<char>, CellStyle);

    open spec fn deep_view(&self) -> (Seq<char>, CellStyle) {
        (self.text@, self.style)
    }
}

/// A row of a table, by its texts and styles.
pub type RowInfo = Seq<(Seq<char>, CellStyle)>;

/// A table: the texts of its header, and its rows.
#[derive(Debug)]
pub struct TableText {
    pub header: Vec<String>,
    pub rows: Vec<Vec<CellText>>,
}

/// What a `TableText` stands for.
#[verifier::ext_equal]
pub struct TableInfo {
    pub header: Seq<Seq<char>>,
    pub rows: Seq<RowInfo>,
}

impl DeepView for TableText {
    type V = TableInfo;

    open spec fn deep_view(&self) -> TableInfo {
        TableInfo { header: self.header.deep_view(), rows: self.rows.deep_view() }
    }
}

/// A row of plain cells.
pub open spec fn plain_row(texts: Seq<Seq<char>>) -> RowInfo {
    texts.map_values(|text: Seq<char>| (text, CellStyle::Plain))
}

/// Whether every cell of the rows is plain.
pub open spec fn all_plain(rows: Seq<RowInfo>) -> bool {
    forall|r: int, c: int|
        0 <= r < rows.len() && 0 <= c < rows[r].len() ==> (#[trigger] rows[r][c]).1
            == CellStyle::Plain
}

/// The texts that `comfy_table` may draw for a header and rows of cells, with
/// round corners, whatever the output and the environment are.
pub uninterp spec fn drawings(header: Seq<Seq<char>>, rows: Seq<RowInfo>) -> Set<Seq<char>>;

/// `comfy_table::Table`, with the preset `UTF8_FULL` and the modifier
/// `UTF8_ROUND_CORNERS`, a header from texts, and rows of cells of which each
/// has a text and perhaps a colour and an attribute, written to a string.
///
/// It is claimed that the string is one that the header and the cells may come
/// out as, and the only one where every cell is plain. Which one it is where a
/// cell is not plain is left unsaid: whether styles are written depends on
/// whether the output is a terminal, and on the environment.
#[verifier::external_body]
fn draw_table(header: &Vec<String>, rows: &Vec<Vec<CellText>>) -> (out: String)
    ensures
        drawings(header.deep_view(), rows.deep_view()).contains(out@),
        all_plain(rows.deep_view()) ==> drawings(header.deep_view(), rows.deep_view()) == set![
            out@,
        ],
{
    let mut table = Table::new();
    table.load_preset(UTF8_FULL).apply_modifier(UTF8_ROUND_CORNERS).set_header(header);
    table.add_rows(rows.iter().map(|row| row.iter().map(|cell| match cell.style {
        CellStyle::Plain => Cell::new(&cell.text),
        CellStyle::RedBold => Cell::new(&cell.text).fg(Color::Red).add_attribute(Attribute::Bold),
        CellStyle::DarkGrey => Cell::new(&cell.text).fg(Color::DarkGrey),
    })));
    table.to_string()
}

/// A table of plain cells drawn: there is one way only.
pub open spec fn drawn(table: TableInfo) -> Seq<char> {
    drawings(table.header, table.rows).choose()
}

/// Whether a text is a table drawn.
pub open spec fn draws(table: TableInfo, text: Seq<char>) -> bool {
    &&& drawings(table.header, table.rows).contains(text)
    &&& all_plain(table.rows) ==> text == drawn(table)
}

/// A table drawn.
pub fn draw(table: &TableText) -> (out: String)
    ensures
        draws(table.deep_view(), out@),
{
    draw_table(&table.header, &table.rows)
}

/// A plain cell.
pub fn plain_cell(text: &str) -> (cell: CellText)
    ensures
        cell.deep_view() == (text@, CellStyle::Plain),
{
    CellText { text: text.to_owned(), style: CellStyle::Plain }
}

/// A list of texts.
pub fn texts(a: &str, b: &str, c: &str) -> (out: Vec<String>)
    ensures
        out.deep_view() == seq![a@, b@, c@],
{
    let mut out: Vec<String> = Vec::new();
    out.push(a.to_owned());
    out.push(b.to_owned());
    out.push(c.to_owned());
    assert(out.deep_view() =~= seq![a@, b@, c@]);
    out
}

/// A row of plain cells.
pub fn plain_cells(items: &Vec<String>) -> (row: Vec<CellText>)
    ensures
        row.deep_view() == plain_row(items.deep_view()),
{
    let ghost all = items.deep_view();
    let mut row: Vec<CellText> = Vec::new();
    assert(row.deep_view() =~= plain_row(all.take(0)));
    for i in 0..items.len()
        invariant
            all == items.deep_view(),
            row.deep_view() == plain_row(all.take(i as int)),
    {
        let ghost before = row.deep_view();
        row.push(plain_cell(items[i].as_str()));
        assert(row.deep_view() =~= before.push((all[i as int], CellStyle::Plain)));
        assert(plain_row(all.take(i + 1)) =~= before.push((all[i as int], CellStyle::Plain)));
    }
    assert(all.take(all.len() as int) =~= all);
    row
}

/// A list of texts has them in their order, and a row of plain cells has a plain
/// cell for each.
pub proof fn law_plain_cells(
    a: &str,
    b: &str,
    c: &str,
    items: Vec<String>,
    row: Vec<CellText>,
    i: int,
)
    requires
        call_ensures(texts, (a, b, c), items),
        call_ensures(plain_cells, (&items,), row),
        0 <= i < items.len(),
    ensures
        items.len() == 3,
        items@[0]@ == a@ && items@[1]@ == b@ && items@[2]@ == c@,
        row.len() == items.len(),
        row@[i].text@ == items@[i]@,
        row@[i].style is Plain,
{
    let deep = items.deep_view();
    assert(deep.len() == items.len());
    assert(deep[0] == items@[0]@ && deep[1] == items@[1]@ && deep[2] == items@[2]@);
    assert(row.deep_view().len() == row.len());
    assert(row.deep_view()[i] == row@[i].deep_view());
    assert(deep[i] == items@[i]@);
}

} // verus!
