//! `list`: the Hosts a run would select, printed from the host file alone.
//!
//! Nothing is contacted and nothing runs, so a listing is also the cheap way to
//! see what a `-g` selects before committing to a run. It is not a Report: no
//! Host has a Status, because no Host did anything.

use vstd::prelude::*;
use vstd::utf8::{encode_utf8, is_ascii_chars, is_ascii_chars_encode_utf8};

use crate::host::{Host, HostModel};
use crate::style::{
    bold, bold_style, dim, dim_style, law_a_style_adds_nothing_to_read, left_inside,
    lemma_plain_is_visible, lemma_visible_in_turn, render, render_reset, reset_code, style_codes,
    styled, visible, Style,
};
use crate::text::{
    decimal, law_filling_puts_spaces_after, opt_text, pad, padded, texts, write_decimal,
};

verus! {

/// Which fields some Host sets. A column no Host fills would be a stripe of
/// dashes down the page, so a field brings its column with it: a host file of
/// bare names lists names.
#[derive(Debug, Clone, Copy, PartialEq, Eq, Structural)]
pub struct Shown {
    pub user: bool,
    pub port: bool,
    pub ip: bool,
    pub own: bool,
}

/// The Hosts as a listing sees them.
pub open spec fn listed(hosts: Seq<&Host>) -> Seq<HostModel> {
    hosts.map_values(|h: &Host| h@)
}

/// Which columns a listing of these Hosts has beside the name.
pub open spec fn columns_of(hosts: Seq<HostModel>) -> Shown {
    Shown {
        user: exists|i: int| 0 <= i < hosts.len() && (#[trigger] hosts[i]).user is Some,
        port: exists|i: int| 0 <= i < hosts.len() && (#[trigger] hosts[i]).port is Some,
        ip: exists|i: int| 0 <= i < hosts.len() && (#[trigger] hosts[i]).ip is Some,
        own: exists|i: int| 0 <= i < hosts.len() && (#[trigger] hosts[i]).unique_privilege_pass,
    }
}

/// Whether the columns are titled. A header over one column of names tells the
/// reader nothing they cannot see; over several it is what says which column is
/// which.
pub open spec fn is_titled(shown: Shown) -> bool {
    shown.user || shown.port || shown.ip || shown.own
}

/// A cell, where its column is shown.
pub open spec fn cell(shown: bool, text: Seq<char>) -> Seq<Seq<char>> {
    if shown {
        seq![text]
    } else {
        Seq::empty()
    }
}

/// A field as its cell shows it.
pub open spec fn or_dash(text: Option<Seq<char>>) -> Seq<char> {
    match text {
        Some(t) => t,
        None => "-"@,
    }
}

/// A port as its cell shows it.
pub open spec fn port_cell(port: Option<u16>) -> Seq<char> {
    match port {
        Some(port) => decimal(port as int),
        None => "-"@,
    }
}

/// The titles of the columns.
pub open spec fn titles(shown: Shown) -> Seq<Seq<char>> {
    seq!["HOST"@] + cell(shown.user, "USER"@) + cell(shown.port, "PORT"@) + cell(shown.ip, "IP"@)
        + cell(shown.own, "OWN-PASSWORD"@)
}

/// The cells of one Host.
pub open spec fn cells(host: HostModel, shown: Shown) -> Seq<Seq<char>> {
    seq![host.name] + cell(shown.user, or_dash(host.user)) + cell(
        shown.port,
        port_cell(host.port),
    ) + cell(shown.ip, or_dash(host.ip)) + cell(
        shown.own,
        if host.unique_privilege_pass {
            "yes"@
        } else {
            "-"@
        },
    )
}

/// The rows of the listing: the titles, where there are any, and one row for
/// each Host.
pub open spec fn rows_of(hosts: Seq<HostModel>) -> Seq<Seq<Seq<char>>> {
    let shown = columns_of(hosts);
    (if is_titled(shown) {
        seq![titles(shown)]
    } else {
        Seq::empty()
    }) + Seq::new(hosts.len(), |i: int| cells(hosts[i], shown))
}

/// How wide a column is: as wide as its widest cell, in bytes.
pub open spec fn width_of(rows: Seq<Seq<Seq<char>>>, column: int) -> int
    decreases rows.len(),
{
    if rows.len() == 0 {
        0
    } else {
        let before = width_of(rows.drop_last(), column);
        let own = encode_utf8(rows.last()[column]).len() as int;
        if before < own {
            own
        } else {
            before
        }
    }
}

/// How a cell is shown: the titles are dim, so the Hosts read as the listing
/// and the titles do not; a Host's name is bold, as it is in the report's first
/// column: weight survives where a colour may not.
pub open spec fn cell_style(title: bool, column: int) -> Option<Style> {
    if title {
        Some(dim_style())
    } else if column == 0 {
        Some(bold_style())
    } else {
        None
    }
}

/// A cell on its line. The padding is written inside the styled span: a space
/// has no colour, so the reset lands where the next column starts.
pub open spec fn cell_text(
    text: Seq<char>,
    width: int,
    title: bool,
    column: int,
    last: bool,
) -> Seq<char> {
    let filled = if last {
        text
    } else {
        padded(text, width) + "  "@
    };
    match cell_style(title, column) {
        Some(style) => style_codes(style) + filled + reset_code(style),
        None => filled,
    }
}

/// The first `n` cells of a row.
pub open spec fn row_text(
    row: Seq<Seq<char>>,
    rows: Seq<Seq<Seq<char>>>,
    title: bool,
    n: int,
) -> Seq<char>
    decreases n,
{
    if n <= 0 {
        Seq::empty()
    } else {
        row_text(row, rows, title, n - 1) + cell_text(
            row[n - 1],
            width_of(rows, n - 1),
            title,
            n - 1,
            n == row.len(),
        )
    }
}

/// The first `n` lines of the listing.
pub open spec fn lines_text(rows: Seq<Seq<Seq<char>>>, titled: bool, n: int) -> Seq<char>
    decreases n,
{
    if n <= 0 {
        Seq::empty()
    } else {
        lines_text(rows, titled, n - 1) + row_text(
            rows[n - 1],
            rows,
            titled && n == 1,
            rows[n - 1].len() as int,
        ) + "\n"@
    }
}

/// The listing: one row for each Host, one column per field.
pub open spec fn table_text(hosts: Seq<HostModel>) -> Seq<char> {
    let rows = rows_of(hosts);
    lines_text(rows, is_titled(columns_of(hosts)), rows.len() as int)
}

fn find_columns(selected: &[&Host]) -> (r: Shown)
    ensures
        r == columns_of(listed(selected@)),
{
    let ghost all = listed(selected@);
    let mut shown = Shown { user: false, port: false, ip: false, own: false };
    let mut i: usize = 0;
    while i < selected.len()
        invariant
            i <= selected@.len(),
            all == listed(selected@),
            shown.user == exists|j: int| 0 <= j < i && (#[trigger] all[j]).user is Some,
            shown.port == exists|j: int| 0 <= j < i && (#[trigger] all[j]).port is Some,
            shown.ip == exists|j: int| 0 <= j < i && (#[trigger] all[j]).ip is Some,
            shown.own == exists|j: int| 0 <= j < i && (#[trigger] all[j]).unique_privilege_pass,
        decreases selected@.len() - i,
    {
        assert(all[i as int] == selected@[i as int]@);
        let host = selected[i];
        shown.user = shown.user || host.user.is_some();
        shown.port = shown.port || host.port.is_some();
        shown.ip = shown.ip || host.ip.is_some();
        shown.own = shown.own || host.unique_privilege_pass;
        i += 1;
    }
    shown
}

fn push_cell(cells: &mut Vec<String>, shown: bool, text: String)
    ensures
        texts(final(cells)@) == texts(old(cells)@) + cell(shown, text@),
{
    let ghost before = cells@;
    let ghost made = text@;
    if shown {
        cells.push(text);
        assert(texts(cells@) =~= texts(before) + seq![made]);
    } else {
        assert(texts(cells@) =~= texts(before) + Seq::<Seq<char>>::empty());
    }
}

fn write_or_dash(text: &Option<String>) -> (r: String)
    ensures
        r@ == or_dash(opt_text(*text)),
{
    match text {
        Some(t) => t.clone(),
        None => "-".to_string(),
    }
}

fn write_titles(shown: Shown) -> (r: Vec<String>)
    ensures
        texts(r@) == titles(shown),
{
    let mut row: Vec<String> = Vec::new();
    row.push("HOST".to_string());
    assert(texts(row@) =~= seq!["HOST"@]);
    push_cell(&mut row, shown.user, "USER".to_string());
    push_cell(&mut row, shown.port, "PORT".to_string());
    push_cell(&mut row, shown.ip, "IP".to_string());
    push_cell(&mut row, shown.own, "OWN-PASSWORD".to_string());
    row
}

fn write_cells(host: &Host, shown: Shown) -> (r: Vec<String>)
    ensures
        texts(r@) == cells(host@, shown),
{
    let mut row: Vec<String> = Vec::new();
    row.push(host.name.clone());
    assert(texts(row@) =~= seq![host.name@]);
    push_cell(&mut row, shown.user, write_or_dash(&host.user));
    let port = match host.port {
        Some(port) => write_decimal(port as u64),
        None => "-".to_string(),
    };
    push_cell(&mut row, shown.port, port);
    push_cell(&mut row, shown.ip, write_or_dash(&host.ip));
    let own = if host.unique_privilege_pass {
        "yes".to_string()
    } else {
        "-".to_string()
    };
    push_cell(&mut row, shown.own, own);
    row
}

/// The rows as texts.
pub open spec fn row_views(rows: Seq<Vec<String>>) -> Seq<Seq<Seq<char>>> {
    rows.map_values(|row: Vec<String>| texts(row@))
}

/// Every row has as many cells as there are columns.
proof fn lemma_rows_are_even(hosts: Seq<HostModel>)
    ensures
        forall|i: int|
            0 <= i < rows_of(hosts).len() ==> (#[trigger] rows_of(hosts)[i]).len() == titles(
                columns_of(hosts),
            ).len(),
{
    let shown = columns_of(hosts);
    let rows = rows_of(hosts);
    assert forall|i: int| 0 <= i < rows.len() implies (#[trigger] rows[i]).len() == titles(
        shown,
    ).len() by {
        if is_titled(shown) {
            if i > 0 {
                assert(rows[i] == cells(hosts[i - 1], shown));
            } else {
                assert(rows[i] == titles(shown));
            }
        } else {
            assert(rows[i] == cells(hosts[i], shown));
        }
    }
}

fn write_rows(selected: &[&Host], shown: Shown) -> (r: Vec<Vec<String>>)
    requires
        shown == columns_of(listed(selected@)),
    ensures
        row_views(r@) == rows_of(listed(selected@)),
{
    let ghost all = listed(selected@);
    let mut rows: Vec<Vec<String>> = Vec::new();
    let ghost head: Seq<Seq<Seq<char>>> = if is_titled(shown) {
        seq![titles(shown)]
    } else {
        Seq::empty()
    };
    if shown.user || shown.port || shown.ip || shown.own {
        let row = write_titles(shown);
        rows.push(row);
    }
    assert(row_views(rows@) =~= head);
    let ghost body = Seq::new(all.len(), |i: int| cells(all[i], shown));
    let mut i: usize = 0;
    assert(head + body.take(0) =~= head);
    while i < selected.len()
        invariant
            i <= selected@.len(),
            all == listed(selected@),
            body == Seq::new(all.len(), |i: int| cells(all[i], shown)),
            row_views(rows@) == head + body.take(i as int),
        decreases selected@.len() - i,
    {
        let ghost before = rows@;
        let row = write_cells(selected[i], shown);
        let ghost made = texts(row@);
        rows.push(row);
        i += 1;
        proof {
            assert(all[i - 1] == selected@[i - 1]@);
            assert(row_views(rows@) =~= row_views(before).push(made));
            assert(body.take(i as int) =~= body.take(i - 1).push(body[i - 1]));
        }
    }
    assert(body.take(body.len() as int) =~= body);
    rows
}

fn find_width(rows: &[Vec<String>], column: usize) -> (r: usize)
    requires
        forall|i: int| 0 <= i < rows@.len() ==> column < (#[trigger] rows@[i])@.len(),
    ensures
        r == width_of(row_views(rows@), column as int),
{
    let ghost all = row_views(rows@);
    let mut width: usize = 0;
    let mut i: usize = 0;
    while i < rows.len()
        invariant
            i <= rows@.len(),
            all == row_views(rows@),
            forall|i: int| 0 <= i < rows@.len() ==> column < (#[trigger] rows@[i])@.len(),
            width == width_of(all.take(i as int), column as int),
        decreases rows@.len() - i,
    {
        assert(column < rows@[i as int]@.len());
        let text = rows[i][column].as_str();
        // The length in bytes.
        let own: usize = text.as_bytes().len();
        if width < own {
            width = own;
        }
        i += 1;
        proof {
            assert(all[i - 1] == texts(rows@[i - 1]@));
            assert(all[i - 1][column as int] == rows@[i - 1]@[column as int]@);
            assert(all.take(i as int).drop_last() == all.take(i - 1));
            assert(all.take(i as int).last() == all[i - 1]);
        }
    }
    assert(all.take(all.len() as int) == all);
    width
}

fn write_cell(text: &str, width: usize, title: bool, column: usize, last: bool) -> (r: String)
    ensures
        r@ == cell_text(text@, width as int, title, column as int, last),
{
    let filled = if last {
        text.to_string()
    } else {
        let mut s = pad(text, width);
        s.append("  ");
        s
    };
    if title || column == 0 {
        let style = if title {
            dim()
        } else {
            bold()
        };
        let mut s = render(style);
        s.append(filled.as_str());
        let reset = render_reset(style);
        s.append(reset.as_str());
        s
    } else {
        filled
    }
}

fn write_row(rows: &[Vec<String>], index: usize, widths: &[usize], title: bool) -> (r: String)
    requires
        index < rows@.len(),
        widths@.len() == rows@[index as int]@.len(),
        forall|c: int|
            0 <= c < widths@.len() ==> #[trigger] widths@[c] == width_of(row_views(rows@), c),
    ensures
        r@ == row_text(
            texts(rows@[index as int]@),
            row_views(rows@),
            title,
            rows@[index as int]@.len() as int,
        ),
{
    let ghost all = row_views(rows@);
    let ghost row = texts(rows@[index as int]@);
    let mut line = String::new();
    let n: usize = rows[index].len();
    let mut column: usize = 0;
    while column < n
        invariant
            column <= n,
            index < rows@.len(),
            n == rows@[index as int]@.len(),
            n == widths@.len(),
            row == texts(rows@[index as int]@),
            all == row_views(rows@),
            forall|c: int| 0 <= c < widths@.len() ==> #[trigger] widths@[c] == width_of(all, c),
            line@ == row_text(row, all, title, column as int),
        decreases n - column,
    {
        let text = rows[index][column].as_str();
        let shown = write_cell(text, widths[column], title, column, column + 1 == n);
        line.append(shown.as_str());
        assert(row[column as int] == text@);
        column += 1;
    }
    line
}

/// The Hosts as a table: one row each, one column per field.
pub fn table(selected: &[&Host]) -> (r: String)
    ensures
        r@ == table_text(listed(selected@)),
{
    let ghost hosts = listed(selected@);
    let shown = find_columns(selected);
    let titled = shown.user || shown.port || shown.ip || shown.own;
    let rows = write_rows(selected, shown);
    let columns = write_titles(shown).len();
    let ghost all = row_views(rows@);
    proof {
        lemma_rows_are_even(hosts);
        assert(titles(shown).len() == columns);
        assert forall|i: int| 0 <= i < rows@.len() implies (#[trigger] rows@[i])@.len()
            == columns by {
            assert(all[i] == texts(rows@[i]@));
            assert(rows_of(hosts)[i].len() == columns);
        }
    }
    let mut widths: Vec<usize> = Vec::new();
    let mut c: usize = 0;
    while c < columns
        invariant
            c <= columns,
            widths@.len() == c,
            all == row_views(rows@),
            forall|i: int| 0 <= i < rows@.len() ==> (#[trigger] rows@[i])@.len() == columns,
            forall|k: int| 0 <= k < c ==> #[trigger] widths@[k] == width_of(all, k),
        decreases columns - c,
    {
        let width = find_width(rows.as_slice(), c);
        widths.push(width);
        c += 1;
    }
    let mut out = String::new();
    let mut i: usize = 0;
    while i < rows.len()
        invariant
            i <= rows@.len(),
            all == row_views(rows@),
            widths@.len() == columns,
            forall|i: int| 0 <= i < rows@.len() ==> (#[trigger] rows@[i])@.len() == columns,
            forall|k: int| 0 <= k < columns ==> #[trigger] widths@[k] == width_of(all, k),
            out@ == lines_text(all, titled, i as int),
        decreases rows@.len() - i,
    {
        assert(rows@[i as int]@.len() == columns);
        let line = write_row(rows.as_slice(), i, widths.as_slice(), titled && i == 0);
        out.append(line.as_str());
        out.append("\n");
        assert(all[i as int] == texts(rows@[i as int]@));
        i += 1;
    }
    out
}

/// One Host, as a line of JSON: the host file's fields, under the names the
/// host file gives them, and absent when the Host does not set them.
#[derive(Debug)]
pub struct JsonHost {
    pub host: String,
    pub user: Option<String>,
    pub port: Option<u16>,
    pub ip: Option<String>,
    pub unique_privilege_pass: bool,
}

impl JsonHost {
    /// What a line of JSON says of a Host.
    pub fn of(host: &Host) -> (r: JsonHost)
        ensures
            r.host@ == host@.name,
            opt_text(r.user) == host@.user,
            r.port == host@.port,
            opt_text(r.ip) == host@.ip,
            r.unique_privilege_pass == host@.unique_privilege_pass,
    {
        JsonHost {
            host: host.name.clone(),
            user: match &host.user {
                Some(user) => Some(user.clone()),
                None => None,
            },
            port: host.port,
            ip: match &host.ip {
                Some(ip) => Some(ip.clone()),
                None => None,
            },
            unique_privilege_pass: host.unique_privilege_pass,
        }
    }
}

proof fn lemma_width_holds(rows: Seq<Seq<Seq<char>>>, column: int, i: int)
    requires
        0 <= i < rows.len(),
    ensures
        encode_utf8(rows[i][column]).len() <= width_of(rows, column),
    decreases rows.len(),
{
    if i < rows.len() - 1 {
        lemma_width_holds(rows.drop_last(), column, i);
        assert(rows.drop_last()[i] == rows[i]);
    }
}

/// The columns line up: a cell of ASCII text that is not the last of its row
/// fills its column exactly, whichever row it stands in.
pub proof fn law_the_columns_line_up(hosts: Seq<HostModel>, i: int, column: int)
    requires
        0 <= i < rows_of(hosts).len(),
        0 <= column < rows_of(hosts)[i].len(),
        is_ascii_chars(rows_of(hosts)[i][column]),
    ensures
        padded(rows_of(hosts)[i][column], width_of(rows_of(hosts), column)).len() == width_of(
            rows_of(hosts),
            column,
        ),
{
    lemma_width_holds(rows_of(hosts), column, i);
    is_ascii_chars_encode_utf8(rows_of(hosts)[i][column]);
}

/// Every Host is one row, every row has as many cells as every other, and a
/// listing of bare names has no titles.
pub proof fn law_a_listing_is_one_row_per_host(hosts: Seq<HostModel>)
    ensures
        rows_of(hosts).len() == hosts.len() + (if is_titled(columns_of(hosts)) {
            1int
        } else {
            0
        }),
        forall|i: int, j: int|
            0 <= i < rows_of(hosts).len() && 0 <= j < rows_of(hosts).len() ==> (
            #[trigger] rows_of(hosts)[i]).len() == (#[trigger] rows_of(hosts)[j]).len(),
        (forall|i: int|
            0 <= i < hosts.len() ==> {
                let h = #[trigger] hosts[i];
                h.user is None && h.port is None && h.ip is None && !h.unique_privilege_pass
            }) ==> rows_of(hosts) == Seq::new(hosts.len(), |i: int| seq![hosts[i].name]),
{
    lemma_rows_are_even(hosts);
    let bare = forall|i: int|
        0 <= i < hosts.len() ==> {
            let h = #[trigger] hosts[i];
            h.user is None && h.port is None && h.ip is None && !h.unique_privilege_pass
        };
    if bare {
        let shown = columns_of(hosts);
        assert(!is_titled(shown));
        assert forall|i: int| 0 <= i < hosts.len() implies #[trigger] rows_of(hosts)[i] == seq![
            hosts[i].name,
        ] by {
            assert(cells(hosts[i], shown) =~= seq![hosts[i].name]);
        }
        assert(rows_of(hosts) =~= Seq::new(hosts.len(), |i: int| seq![hosts[i].name]));
    }
}

/// Whether some Host is given a user.
pub open spec fn some_user(hosts: Seq<HostModel>) -> bool {
    exists|i: int| 0 <= i < hosts.len() && (#[trigger] hosts[i]).user is Some
}

/// Whether some Host is given a port.
pub open spec fn some_port(hosts: Seq<HostModel>) -> bool {
    exists|i: int| 0 <= i < hosts.len() && (#[trigger] hosts[i]).port is Some
}

/// Whether some Host is given an address.
pub open spec fn some_ip(hosts: Seq<HostModel>) -> bool {
    exists|i: int| 0 <= i < hosts.len() && (#[trigger] hosts[i]).ip is Some
}

/// Whether some Host has a password of its own.
pub open spec fn some_own(hosts: Seq<HostModel>) -> bool {
    exists|i: int| 0 <= i < hosts.len() && (#[trigger] hosts[i]).unique_privilege_pass
}

/// One where the column is there.
pub open spec fn one_if(shown: bool) -> int {
    if shown {
        1
    } else {
        0
    }
}

/// A listing has a row for each Host, in order, and titles above them where any
/// Host sets anything. A row begins with the Host's name. A column is there
/// exactly where some Host has something to put in it, and holds what each Host
/// sets, or a dash.
#[verifier::spinoff_prover]
#[verifier::rlimit(40)]
pub proof fn law_a_listing_shows_what_each_host_sets(hosts: Seq<HostModel>, i: int)
    requires
        0 <= i < hosts.len(),
    ensures
        ({
            let rows = rows_of(hosts);
            let u = one_if(some_user(hosts));
            let p = one_if(some_port(hosts));
            let a = one_if(some_ip(hosts));
            let o = one_if(some_own(hosts));
            let titled = u + p + a + o > 0;
            let row = rows[i + one_if(titled)];
            &&& rows.len() == hosts.len() + one_if(titled)
            &&& row.len() == 1 + u + p + a + o
            &&& row[0] == hosts[i].name
            &&& u == 1 ==> row[1] == (match hosts[i].user {
                Some(user) => user,
                None => "-"@,
            })
            &&& p == 1 ==> row[1 + u] == (match hosts[i].port {
                Some(port) => decimal(port as int),
                None => "-"@,
            })
            &&& a == 1 ==> row[1 + u + p] == (match hosts[i].ip {
                Some(ip) => ip,
                None => "-"@,
            })
            &&& o == 1 ==> row[1 + u + p + a] == (if hosts[i].unique_privilege_pass {
                "yes"@
            } else {
                "-"@
            })
            &&& titled ==> rows[0].len() == row.len() && rows[0][0] == "HOST"@
            &&& u == 1 ==> rows[0][1] == "USER"@
            &&& p == 1 ==> rows[0][1 + u] == "PORT"@
            &&& a == 1 ==> rows[0][1 + u + p] == "IP"@
            &&& o == 1 ==> rows[0][1 + u + p + a] == "OWN-PASSWORD"@
        }),
{
    let shown = columns_of(hosts);
    assert(shown.user == some_user(hosts));
    assert(shown.port == some_port(hosts));
    assert(shown.ip == some_ip(hosts));
    assert(shown.own == some_own(hosts));
    let rows = rows_of(hosts);
    let titled = is_titled(shown);
    assert(rows[i + one_if(titled)] == cells(hosts[i], shown));
}

/// A column is as wide as the widest thing in it, and no wider.
#[verifier::spinoff_prover]
pub proof fn law_a_column_is_as_wide_as_its_widest_cell(
    rows: Seq<Seq<Seq<char>>>,
    column: int,
    i: int,
) -> (widest: int)
    requires
        0 <= i < rows.len(),
    ensures
        encode_utf8(rows[i][column]).len() <= width_of(rows, column),
        0 <= widest < rows.len(),
        width_of(rows, column) == encode_utf8(rows[widest][column]).len(),
    decreases rows.len(),
{
    lemma_width_holds(rows, column, i);
    let before = rows.drop_last();
    assert(rows[rows.len() - 1] == rows.last());
    assert(before.len() == 0 ==> width_of(before, column) == 0);
    if before.len() > 0 && width_of(before, column) >= encode_utf8(rows.last()[column]).len() {
        let widest = law_a_column_is_as_wide_as_its_widest_cell(before, column, 0);
        assert(before[widest] == rows[widest]);
        widest
    } else {
        rows.len() - 1
    }
}

/// A listing is its rows, one line each.
pub proof fn law_a_listing_is_its_rows(hosts: Seq<HostModel>)
    ensures
        ({
            let rows = rows_of(hosts);
            table_text(hosts) == Seq::new(
                rows.len(),
                |i: int| row_text(
                    rows[i],
                    rows,
                    i == 0 && rows.len() > hosts.len(),
                    rows[i].len() as int,
                ) + "\n"@,
            ).flatten()
        }),
{
    let rows = rows_of(hosts);
    let titled = is_titled(columns_of(hosts));
    let f = |i: int| row_text(
        rows[i],
        rows,
        i == 0 && rows.len() > hosts.len(),
        rows[i].len() as int,
    ) + "\n"@;
    assert(titled == (rows.len() > hosts.len()));
    lemma_lines_in_turn(rows, titled, rows.len() as int, f);
}

proof fn lemma_lines_in_turn(
    rows: Seq<Seq<Seq<char>>>,
    titled: bool,
    n: int,
    f: spec_fn(int) -> Seq<char>,
)
    requires
        0 <= n <= rows.len(),
        forall|i: int|
            0 <= i < rows.len() ==> #[trigger] f(i) == row_text(
                rows[i],
                rows,
                titled && i == 0,
                rows[i].len() as int,
            ) + "\n"@,
    ensures
        lines_text(rows, titled, n) == Seq::new(n as nat, f).flatten(),
    decreases n,
{
    let parts = Seq::new(n as nat, f);
    parts.lemma_flatten_and_flatten_alt_are_equivalent();
    if n > 0 {
        lemma_lines_in_turn(rows, titled, n - 1, f);
        let before = Seq::new((n - 1) as nat, f);
        before.lemma_flatten_and_flatten_alt_are_equivalent();
        assert(parts.drop_last() =~= before);
        assert(parts.last() == f(n - 1));
        let row = row_text(rows[n - 1], rows, titled && n == 1, rows[n - 1].len() as int);
        assert(lines_text(rows, titled, n) =~= lines_text(rows, titled, n - 1) + (row + "\n"@));
    } else {
        assert(parts.flatten() =~= Seq::<char>::empty());
    }
}

/// What stands in a row for one cell: the cell filled to its column and two
/// spaces, and the last cell as it is.
pub open spec fn filled_cell(
    row: Seq<Seq<char>>,
    rows: Seq<Seq<Seq<char>>>,
    column: int,
) -> Seq<char> {
    if column == row.len() - 1 {
        row[column]
    } else {
        padded(row[column], width_of(rows, column)) + "  "@
    }
}

/// A row reads as its cells from left to right, each in its column.
pub proof fn law_a_row_reads_as_its_cells(
    row: Seq<Seq<char>>,
    rows: Seq<Seq<Seq<char>>>,
    title: bool,
    n: int,
)
    requires
        0 <= n <= row.len(),
        forall|c: int| 0 <= c < row.len() ==> !(#[trigger] row[c]).contains('\x1b'),
    ensures
        visible(row_text(row, rows, title, n), false) == Seq::new(
            n as nat,
            |c: int| filled_cell(row, rows, c),
        ).flatten(),
        !left_inside(row_text(row, rows, title, n), false),
    decreases n,
{
    let parts = Seq::new(n as nat, |c: int| filled_cell(row, rows, c));
    parts.lemma_flatten_and_flatten_alt_are_equivalent();
    if n > 0 {
        law_a_row_reads_as_its_cells(row, rows, title, n - 1);
        let before = Seq::new((n - 1) as nat, |c: int| filled_cell(row, rows, c));
        before.lemma_flatten_and_flatten_alt_are_equivalent();
        assert(parts.drop_last() =~= before);
        let filled = filled_cell(row, rows, n - 1);
        assert(parts.last() == filled);
        let width = width_of(rows, n - 1);
        let cell = cell_text(row[n - 1], width, title, n - 1, n == row.len());
        assert(!row[n - 1].contains('\x1b'));
        assert(!filled.contains('\x1b')) by {
            reveal_strlit("  ");
            if filled.contains('\x1b') {
                let i = choose|i: int| 0 <= i < filled.len() && filled[i] == '\x1b';
                if n < row.len() {
                    let part = padded(row[n - 1], width);
                    law_filling_puts_spaces_after(row[n - 1], width, i);
                    if i < part.len() {
                        assert(part[i] == '\x1b');
                        assert(i < row[n - 1].len());
                    } else {
                        assert(filled[i] == "  "@[i - part.len()]);
                    }
                }
            }
        }
        lemma_plain_is_visible(filled);
        match cell_style(title, n - 1) {
            Some(style) => {
                assert(cell == styled(style, filled));
                law_a_style_adds_nothing_to_read(style, filled);
            },
            None => {},
        }
        lemma_visible_in_turn(row_text(row, rows, title, n - 1), cell, false);
    } else {
        assert(parts.flatten() =~= Seq::<char>::empty());
        lemma_plain_is_visible(Seq::empty());
    }
}

/// Titles are dim, the names of Hosts are bold, and everything else is plain.
pub proof fn law_titles_are_dim_and_names_are_bold(column: int)
    ensures
        cell_style(true, column) == Some(dim_style()),
        cell_style(false, 0) == Some(bold_style()),
        column != 0 ==> cell_style(false, column) is None,
{
}

/// A listing is of the Hosts that were selected, each once, in their order.
pub proof fn law_a_listing_is_of_what_was_selected(hosts: Seq<&Host>, i: int)
    ensures
        listed(hosts).len() == hosts.len(),
        0 <= i < hosts.len() ==> listed(hosts)[i] == hosts[i]@,
{
}

} // verus!
