use vstd::prelude::*;
use crate::value::{Value, names_of, text_of, field_of, find_field, lemma_find_key_bounds};
use crate::text::{decimal, fill_of, decimal_text, fill_text, terminal_width};
use crate::space::{ColumnSpace, first_pass, second_pass, overage_width, lemma_first_pass_bound, lemma_second_pass_bound, lemma_sep_total};

verus! {

/// How a table cell is shown.
#[derive(Clone, Copy, Debug, PartialEq, Eq, Structural)]
pub enum CellStyle {
    /// An ordinary data cell.
    Plain,
    /// A row number: emphasized and right-aligned.
    Index,
    /// The marker that stands for columns left out: centred.
    Ellipsis,
}

/// Rows of cells, each a text and its style.
pub type Entries = Vec<Vec<(String, CellStyle)>>;

pub open spec fn strings_view(s: Seq<String>) -> Seq<Seq<char>> {
    s.map_values(|x: String| x@)
}

pub open spec fn cells_view(row: Vec<(String, CellStyle)>) -> Seq<(Seq<char>, CellStyle)> {
    row@.map_values(|c: (String, CellStyle)| (c.0@, c.1))
}

pub open spec fn matrix_view(rows: Seq<Vec<(String, CellStyle)>>) -> Seq<Seq<(Seq<char>, CellStyle)>> {
    rows.map_values(|r: Vec<(String, CellStyle)>| cells_view(r))
}

/// `acc` with `name` added at the end unless it is already there.
pub open spec fn add_name(acc: Seq<Seq<char>>, name: Seq<char>) -> Seq<Seq<char>> {
    if acc.contains(name) { acc } else { acc.push(name) }
}

pub open spec fn add_names(acc: Seq<Seq<char>>, names: Seq<Seq<char>>) -> Seq<Seq<char>>
    decreases names.len(),
{
    if names.len() == 0 {
        acc
    } else {
        add_name(add_names(acc, names.drop_last()), names.last())
    }
}

/// What one value adds to the header list: a row's field names (none for a
/// row without fields), or the anonymous (empty) header for any other value.
pub open spec fn merge_one(acc: Seq<Seq<char>>, v: Value) -> Seq<Seq<char>> {
    if v is Row {
        add_names(acc, names_of(v))
    } else {
        add_name(acc, Seq::empty())
    }
}

/// The union of the values' headers, in first-seen order.
pub open spec fn merged_headers(values: Seq<Value>) -> Seq<Seq<char>>
    decreases values.len(),
{
    if values.len() == 0 {
        Seq::empty()
    } else {
        merge_one(merged_headers(values.drop_last()), values.last())
    }
}

proof fn lemma_add_name(acc: Seq<Seq<char>>, name: Seq<char>)
    ensures
        acc.no_duplicates() ==> add_name(acc, name).no_duplicates(),
        add_name(acc, name).contains(name),
        add_name(acc, name).take(acc.len() as int) == acc,
        add_name(acc, name).len() >= acc.len(),
{
    if !acc.contains(name) {
        let r = acc.push(name);
        assert(r[acc.len() as int] == name);
        assert(r.take(acc.len() as int) =~= acc);
    } else {
        assert(acc.take(acc.len() as int) =~= acc);
    }
}

proof fn lemma_prefix_contains(short: Seq<Seq<char>>, long: Seq<Seq<char>>, x: Seq<char>)
    requires
        long.len() >= short.len(),
        long.take(short.len() as int) == short,
        short.contains(x),
    ensures
        long.contains(x),
{
    let i = choose|i: int| 0 <= i < short.len() && short[i] == x;
    assert(long[i] == long.take(short.len() as int)[i]);
}

proof fn lemma_prefix_trans(a: Seq<Seq<char>>, b: Seq<Seq<char>>, c: Seq<Seq<char>>)
    requires
        b.len() >= a.len(),
        b.take(a.len() as int) == a,
        c.len() >= b.len(),
        c.take(b.len() as int) == b,
    ensures
        c.take(a.len() as int) == a,
{
    assert(c.take(a.len() as int) =~= a) by {
        assert forall|i: int| 0 <= i < a.len() implies c.take(a.len() as int)[i] == a[i] by {
            assert(c[i] == c.take(b.len() as int)[i]);
            assert(b[i] == b.take(a.len() as int)[i]);
        }
    }
}

proof fn lemma_add_names(acc: Seq<Seq<char>>, names: Seq<Seq<char>>)
    ensures
        acc.no_duplicates() ==> add_names(acc, names).no_duplicates(),
        forall|j: int| 0 <= j < names.len() ==> add_names(acc, names).contains(#[trigger] names[j]),
        add_names(acc, names).len() >= acc.len(),
        add_names(acc, names).take(acc.len() as int) == acc,
    decreases names.len(),
{
    if names.len() > 0 {
        let init = names.drop_last();
        lemma_add_names(acc, init);
        let mid = add_names(acc, init);
        lemma_add_name(mid, names.last());
        let r = add_name(mid, names.last());
        lemma_prefix_trans(acc, mid, r);
        assert forall|j: int| 0 <= j < names.len() implies r.contains(#[trigger] names[j]) by {
            if j < names.len() - 1 {
                assert(names[j] == init[j]);
                lemma_prefix_contains(mid, r, names[j]);
            }
        }
    } else {
        assert(acc.take(acc.len() as int) =~= acc);
    }
}

/// The header union has no duplicates; it holds every field name of every
/// row and the anonymous header when some value is not a row; and the
/// headers of any leading part of the values come first, in the same order,
/// so headers stand in the order in which they are first seen.
pub proof fn lemma_header_union(values: Seq<Value>)
    ensures
        merged_headers(values).no_duplicates(),
        forall|i: int, j: int| 0 <= i < values.len() && 0 <= j < names_of(values[i]).len()
            ==> merged_headers(values).contains(#[trigger] names_of(values[i])[j]),
        forall|i: int| 0 <= i < values.len() && !(#[trigger] values[i] is Row)
            ==> merged_headers(values).contains(Seq::<char>::empty()),
        forall|n: int| 0 <= n <= values.len() ==> merged_headers(values).len() >= #[trigger] merged_headers(values.take(n)).len()
            && merged_headers(values).take(merged_headers(values.take(n)).len() as int) == merged_headers(values.take(n)),
    decreases values.len(),
{
    let m = merged_headers(values);
    if values.len() == 0 {
        assert forall|n: int| 0 <= n <= values.len() implies m.len() >= #[trigger] merged_headers(values.take(n)).len()
            && m.take(merged_headers(values.take(n)).len() as int) == merged_headers(values.take(n)) by {
            assert(values.take(n).len() == 0);
            assert(m.take(0) =~= m);
        }
    } else {
        let init = values.drop_last();
        let v = values.last();
        lemma_header_union(init);
        let mi = merged_headers(init);
        lemma_add_names(mi, names_of(v));
        lemma_add_name(mi, Seq::empty());
        assert(m.len() >= mi.len() && m.take(mi.len() as int) == mi);
        assert forall|i: int, j: int| 0 <= i < values.len() && 0 <= j < names_of(values[i]).len()
            implies m.contains(#[trigger] names_of(values[i])[j]) by {
            if i < values.len() - 1 {
                assert(values[i] == init[i]);
                assert(mi.contains(names_of(init[i])[j]));
                lemma_prefix_contains(mi, m, names_of(values[i])[j]);
            }
        }
        assert forall|i: int| 0 <= i < values.len() && !(#[trigger] values[i] is Row)
            implies m.contains(Seq::<char>::empty()) by {
            if i < values.len() - 1 {
                assert(values[i] == init[i]);
                lemma_prefix_contains(mi, m, Seq::<char>::empty());
            }
        }
        assert forall|n: int| 0 <= n <= values.len() implies m.len() >= #[trigger] merged_headers(values.take(n)).len()
            && m.take(merged_headers(values.take(n)).len() as int) == merged_headers(values.take(n)) by {
            if n == values.len() {
                assert(values.take(n) =~= values);
                assert(m.take(m.len() as int) =~= m);
            } else {
                assert(values.take(n) =~= init.take(n));
                let mn = merged_headers(init.take(n));
                lemma_prefix_trans(mn, mi, m);
            }
        }
    }
}

/// The text of the cell of value `v` under header `h`.
pub open spec fn cell_text(v: Value, h: Seq<char>) -> Seq<char> {
    match v {
        Value::Row(fields) => if h.len() == 0 {
            Seq::empty()
        } else {
            match field_of(fields@, h) {
                Some(x) => text_of(x),
                None => Seq::empty(),
            }
        },
        _ => if h.len() == 0 { text_of(v) } else { Seq::empty() },
    }
}

/// The row of value `v` numbered `idx`: its number, then one cell per header.
pub open spec fn row_cells(v: Value, headers: Seq<Seq<char>>, idx: nat) -> Seq<(Seq<char>, CellStyle)> {
    seq![(decimal(idx), CellStyle::Index)] + headers.map_values(|h: Seq<char>| (cell_text(v, h), CellStyle::Plain))
}

pub open spec fn rows_of(values: Seq<Value>, headers: Seq<Seq<char>>, start: nat) -> Seq<Seq<(Seq<char>, CellStyle)>> {
    Seq::new(values.len(), |i: int| row_cells(values[i], headers, (start + i) as nat))
}

/// The widest of the cells in column `j` of the first `n` rows.
pub open spec fn column_max(rows: Seq<Seq<(Seq<char>, CellStyle)>>, j: int, n: int) -> nat
    decreases n,
{
    if n <= 0 {
        0
    } else {
        let prev = column_max(rows, j, n - 1);
        let w = rows[n - 1][j].0.len();
        if w > prev { w } else { prev }
    }
}

/// A column's natural width: its widest cell or its header.
pub open spec fn natural_width(headers: Seq<Seq<char>>, rows: Seq<Seq<(Seq<char>, CellStyle)>>, j: int) -> nat {
    let c = column_max(rows, j, rows.len() as int);
    if c > headers[j].len() { c } else { headers[j].len() }
}

pub open spec fn ellipsis() -> Seq<char> {
    seq!['.', '.', '.']
}

/// A layout that was `max_columns` columns or fewer stays; a wider one keeps
/// its first `max_columns` columns and gets an ellipsis column.
pub open spec fn truncated_headers(headers: Seq<Seq<char>>, max_columns: int) -> Seq<Seq<char>> {
    if max_columns < headers.len() { headers.take(max_columns).push(ellipsis()) } else { headers }
}

pub open spec fn truncated_rows(
    rows: Seq<Seq<(Seq<char>, CellStyle)>>,
    header_count: int,
    max_columns: int,
) -> Seq<Seq<(Seq<char>, CellStyle)>> {
    if max_columns < header_count {
        rows.map_values(|r: Seq<(Seq<char>, CellStyle)>|
            r.take(if max_columns < r.len() { max_columns } else { r.len() as int }).push((ellipsis(), CellStyle::Ellipsis)))
    } else {
        rows
    }
}

/// A column is wrapped when it is one of the data columns `1..end` (never
/// the row numbers, nor the ellipsis column) and it exceeds both the even
/// share and the width that the first pass left to exceeding columns.
pub open spec fn is_wrapped(widths: Seq<usize>, naive: int, limit: int, j: int, end: int) -> bool {
    1 <= j < end && widths[j] > naive && widths[j] > limit
}

/// `s` wrapped to `width` columns; empty text stays empty.
pub open spec fn wrap_text(s: Seq<char>, width: nat) -> Seq<char> {
    if s.len() == 0 { s } else { fill_of(s, width) }
}

fn wrap(s: &String, width: usize) -> (r: String)
    ensures
        r@ == wrap_text(s@, width as nat),
{
    if s.as_str().unicode_len() == 0 {
        s.clone()
    } else {
        fill_text(s, width)
    }
}

pub open spec fn wrapped_headers(headers: Seq<Seq<char>>, widths: Seq<usize>, naive: int, limit: int, width: nat, end: int) -> Seq<Seq<char>> {
    Seq::new(headers.len(), |j: int| if is_wrapped(widths, naive, limit, j, end) { wrap_text(headers[j], width) } else { headers[j] })
}

pub open spec fn wrapped_rows(
    rows: Seq<Seq<(Seq<char>, CellStyle)>>,
    widths: Seq<usize>,
    naive: int,
    limit: int,
    width: nat,
    k: int,
    end: int,
) -> Seq<Seq<(Seq<char>, CellStyle)>> {
    Seq::new(rows.len(), |i: int| Seq::new(rows[i].len(), |j: int|
        if j < k && is_wrapped(widths, naive, limit, j, end) { (wrap_text(rows[i][j].0, width), rows[i][j].1) } else { rows[i][j] }))
}

/// Builds the header list of `values` in first-seen order.
pub fn merge_descriptors(values: &[Value]) -> (r: Vec<String>)
    ensures
        strings_view(r@) == merged_headers(values@),
{
    let mut ret: Vec<String> = Vec::new();
    let mut i: usize = 0;
    while i < values.len()
        invariant
            i <= values@.len(),
            strings_view(ret@) == merged_headers(values@.take(i as int)),
        decreases values@.len() - i,
    {
        let descs = values[i].column_names();
        proof {
            assert(values@.take(i + 1).drop_last() =~= values@.take(i as int));
        }
        let ghost before = strings_view(ret@);
        let is_row = match &values[i] {
            Value::Row(_) => true,
            _ => false,
        };
        if !is_row {
            let empty = String::new();
            add_if_absent(&mut ret, empty);
        } else {
            let mut j: usize = 0;
            while j < descs.len()
                invariant
                    j <= descs@.len(),
                    strings_view(descs@) == names_of(values@[i as int]),
                    strings_view(ret@) == add_names(before, strings_view(descs@).take(j as int)),
                decreases descs@.len() - j,
            {
                proof {
                    assert(strings_view(descs@).take(j + 1).drop_last() =~= strings_view(descs@).take(j as int));
                }
                add_if_absent(&mut ret, descs[j].clone());
                j = j + 1;
            }
            proof {
                assert(strings_view(descs@).take(j as int) =~= strings_view(descs@));
            }
        }
        i = i + 1;
    }
    proof {
        assert(values@.take(i as int) =~= values@);
    }
    ret
}

fn add_if_absent(list: &mut Vec<String>, name: String)
    ensures
        strings_view(final(list)@) == add_name(strings_view(old(list)@), name@),
{
    let mut i: usize = 0;
    while i < list.len()
        invariant
            i <= list@.len(),
            forall|j: int| 0 <= j < i ==> list@[j]@ != name@,
        decreases list@.len() - i,
    {
        if list[i] == name {
            proof {
                assert(strings_view(list@)[i as int] == name@);
            }
            return;
        }
        i = i + 1;
    }
    proof {
        assert(!strings_view(list@).contains(name@));
    }
    let ghost prev = list@;
    list.push(name);
    proof {
        assert(strings_view(list@) =~= strings_view(prev).push(name@));
    }
}

/// The text of the cell of `value` under `header`.
fn cell(value: &Value, header: &String) -> (r: String)
    ensures
        r@ == cell_text(*value, header@),
{
    let anonymous = header.as_str().unicode_len() == 0;
    match value {
        Value::Row(fields) => {
            if anonymous {
                String::new()
            } else {
                let found = find_field(fields, header);
                proof {
                    lemma_find_key_bounds(fields@, header@, fields@.len() as int);
                }
                match found {
                    Some(j) => fields[j].1.display(),
                    None => String::new(),
                }
            }
        },
        _ => {
            if anonymous {
                value.display()
            } else {
                String::new()
            }
        },
    }
}

/// The headers that rows are laid out under: the anonymous header when
/// there are none.
pub open spec fn entry_headers(headers: Seq<Seq<char>>) -> Seq<Seq<char>> {
    if headers.len() == 0 { seq![Seq::<char>::empty()] } else { headers }
}

/// Lays the values out as rows: the row number, then one cell per header.
/// An empty header list first gets the anonymous header.
pub fn values_to_entries(values: &[Value], headers: &mut Vec<String>, starting_idx: usize) -> (r: Entries)
    requires
        starting_idx + values@.len() <= usize::MAX,
    ensures
        strings_view(final(headers)@) == entry_headers(strings_view(old(headers)@)),
        matrix_view(r@) == rows_of(values@, strings_view(final(headers)@), starting_idx as nat),
{
    if headers.len() == 0 {
        headers.push(String::new());
        proof {
            assert(strings_view(headers@) =~= seq![Seq::<char>::empty()]);
        }
    } else {
        proof {
            assert(strings_view(old(headers)@).len() > 0);
        }
    }
    let headers: &Vec<String> = headers;
    let mut entries: Entries = Vec::new();
    let ghost hs = strings_view(headers@);
    let mut idx: usize = 0;
    while idx < values.len()
        invariant
            idx <= values@.len(),
            starting_idx + values@.len() <= usize::MAX,
            hs == strings_view(headers@),
            entries@.len() == idx,
            forall|i: int| 0 <= i < idx ==> #[trigger] cells_view(entries@[i]) == row_cells(values@[i], hs, (starting_idx + i) as nat),
        decreases values@.len() - idx,
    {
        let mut row: Vec<(String, CellStyle)> = Vec::new();
        row.push((decimal_text(starting_idx + idx), CellStyle::Index));
        let mut j: usize = 0;
        while j < headers.len()
            invariant
                j <= headers@.len(),
                idx < values@.len(),
                hs == strings_view(headers@),
                row@.len() == j + 1,
                cells_view(row)[0] == (decimal((starting_idx + idx) as nat), CellStyle::Index),
                forall|c: int| 0 <= c < j ==> #[trigger] cells_view(row)[c + 1] == (cell_text(values@[idx as int], hs[c]), CellStyle::Plain),
            decreases headers@.len() - j,
        {
            let text = cell(&values[idx], &headers[j]);
            let ghost prev = row@;
            let ghost prevc = cells_view(row);
            row.push((text, CellStyle::Plain));
            proof {
                assert(hs[j as int] == headers@[j as int]@);
                assert(cells_view(row)[j + 1] == (row@[j + 1].0@, row@[j + 1].1));
                assert forall|c: int| 0 <= c < j + 1 implies #[trigger] cells_view(row)[c + 1] == (cell_text(values@[idx as int], hs[c]), CellStyle::Plain) by {
                    if c < j {
                        assert(prevc[c + 1] == (cell_text(values@[idx as int], hs[c]), CellStyle::Plain));
                        assert(row@[c + 1] == prev[c + 1]);
                        assert(cells_view(row)[c + 1] == (prev[c + 1].0@, prev[c + 1].1));
                    }
                }
            }
            j = j + 1;
        }
        proof {
            let want = row_cells(values@[idx as int], hs, (starting_idx + idx) as nat);
            assert(want.len() == row@.len());
            assert forall|c: int| 0 <= c < want.len() implies cells_view(row)[c] == want[c] by {
                if c > 0 {
                    assert(cells_view(row)[(c - 1) + 1] == (cell_text(values@[idx as int], hs[c - 1]), CellStyle::Plain));
                }
            }
            assert(cells_view(row) =~= want);
        }
        entries.push(row);
        idx = idx + 1;
    }
    proof {
        assert(matrix_view(entries@) =~= rows_of(values@, hs, starting_idx as nat));
    }
    entries
}

/// The natural width of each column: its widest cell or its header.
pub fn max_per_column(headers: &Vec<String>, entries: &Entries) -> (r: Vec<usize>)
    requires
        forall|i: int| 0 <= i < entries@.len() ==> entries@[i]@.len() >= headers@.len(),
    ensures
        r@.len() == headers@.len(),
        forall|j: int| 0 <= j < headers@.len() ==>
            r@[j] as int == natural_width(strings_view(headers@), matrix_view(entries@), j),
{
    let mut max_per_column: Vec<usize> = Vec::new();
    let ghost rows = matrix_view(entries@);
    let mut i: usize = 0;
    while i < headers.len()
        invariant
            i <= headers@.len(),
            rows == matrix_view(entries@),
            forall|r: int| 0 <= r < entries@.len() ==> entries@[r]@.len() >= headers@.len(),
            max_per_column@.len() == i,
            forall|j: int| 0 <= j < i ==>
                max_per_column@[j] as int == natural_width(strings_view(headers@), rows, j),
        decreases headers@.len() - i,
    {
        let mut current_col_max: usize = 0;
        let mut n: usize = 0;
        while n < entries.len()
            invariant
                n <= entries@.len(),
                i < headers@.len(),
                rows == matrix_view(entries@),
                forall|r: int| 0 <= r < entries@.len() ==> entries@[r]@.len() >= headers@.len(),
                current_col_max as int == column_max(rows, i as int, n as int),
            decreases entries@.len() - n,
        {
            let value_length = entries[n][i].0.as_str().unicode_len();
            proof {
                assert(rows[n as int][i as int].0 == entries@[n as int]@[i as int].0@);
            }
            if value_length > current_col_max {
                current_col_max = value_length;
            }
            n = n + 1;
        }
        let header_length = headers[i].as_str().unicode_len();
        let width = if current_col_max > header_length { current_col_max } else { header_length };
        proof {
            assert(strings_view(headers@)[i as int] == headers@[i as int]@);
            assert(rows.len() == entries@.len());
        }
        max_per_column.push(width);
        i = i + 1;
    }
    max_per_column
}

/// Keeps at most `termwidth / 10` columns; when columns are dropped, an
/// ellipsis column is added after the kept ones.
pub fn maybe_truncate_columns(headers: &mut Vec<String>, entries: &mut Entries, termwidth: usize)
    ensures
        strings_view(final(headers)@) == truncated_headers(strings_view(old(headers)@), (termwidth / 10) as int),
        matrix_view(final(entries)@) == truncated_rows(matrix_view(old(entries)@), old(headers)@.len() as int, (termwidth / 10) as int),
{
    let max_num_of_columns = termwidth / 10;
    if max_num_of_columns < headers.len() {
        let ghost old_rows = matrix_view(entries@);
        let ghost m = max_num_of_columns as int;
        headers.truncate(max_num_of_columns);
        proof {
            reveal_strlit("...");
        }
        let ghost kept = headers@;
        let e = String::from_str("...");
        assert(e@ =~= ellipsis());
        headers.push(e);
        proof {
            assert(kept =~= old(headers)@.take(m));
            assert(strings_view(headers@) =~= strings_view(old(headers)@).take(m).push(ellipsis()));
        }
        let mut i: usize = 0;
        while i < entries.len()
            invariant
                i <= entries@.len() == old_rows.len(),
                m < old(headers)@.len(),
                m == max_num_of_columns,
                forall|r: int| 0 <= r < i ==> #[trigger] cells_view(entries@[r]) == old_rows[r].take(
                    if m < old_rows[r].len() { m } else { old_rows[r].len() as int }).push((ellipsis(), CellStyle::Ellipsis)),
                forall|r: int| i <= r < entries@.len() ==> #[trigger] cells_view(entries@[r]) == old_rows[r],
            decreases entries@.len() - i,
        {
            proof {
                reveal_strlit("...");
            }
            let ghost before = entries@[i as int];
            let e = String::from_str("...");
            assert(e@ =~= ellipsis());
            entries[i].truncate(max_num_of_columns);
            let ghost cut = entries@[i as int]@;
            entries[i].push((e, CellStyle::Ellipsis));
            proof {
                assert(cells_view(before) == old_rows[i as int]);
                let c = if m < before@.len() { m } else { before@.len() as int };
                assert(cut =~= before@.take(c));
                assert(entries@[i as int]@ =~= cut.push((e, CellStyle::Ellipsis)));
                assert(cells_view(entries@[i as int]) =~= old_rows[i as int].take(c).push((ellipsis(), CellStyle::Ellipsis)));
            }
            i = i + 1;
        }
        proof {
            assert(matrix_view(entries@) =~= truncated_rows(old_rows, old(headers)@.len() as int, m));
        }
    }
}

/// Wraps the header and the cells of every data column before
/// `wrappable_end` that exceeds both the even share and the first pass's
/// width, to `max_column_width`.
fn wrap_cells(
    headers: &mut Vec<String>,
    entries: &mut Entries,
    max_per_column: &Vec<usize>,
    max_naive_column_width: usize,
    first_pass_width: usize,
    max_column_width: usize,
    wrappable_end: usize,
)
    requires
        old(headers)@.len() <= max_per_column@.len(),
        forall|i: int| 0 <= i < old(entries)@.len() ==> old(entries)@[i]@.len() >= old(headers)@.len(),
    ensures
        strings_view(final(headers)@) == wrapped_headers(strings_view(old(headers)@), max_per_column@,
            max_naive_column_width as int, first_pass_width as int, max_column_width as nat, wrappable_end as int),
        matrix_view(final(entries)@) == wrapped_rows(matrix_view(old(entries)@), max_per_column@,
            max_naive_column_width as int, first_pass_width as int, max_column_width as nat, old(headers)@.len() as int,
            wrappable_end as int),
{
    let ghost hs = strings_view(headers@);
    let ghost rows = matrix_view(entries@);
    let ghost naive = max_naive_column_width as int;
    let ghost limit = first_pass_width as int;
    let ghost w = max_column_width as nat;
    let ghost k = headers@.len() as int;
    let ghost end = wrappable_end as int;
    let mut head: usize = 0;
    while head < headers.len()
        invariant
            head <= headers@.len() == k,
            k <= max_per_column@.len(),
            naive == max_naive_column_width,
            limit == first_pass_width,
            w == max_column_width,
            end == wrappable_end,
            entries@.len() == rows.len(),
            forall|i: int| 0 <= i < rows.len() ==> rows[i].len() >= k,
            forall|j: int| 0 <= j < head ==> #[trigger] strings_view(headers@)[j] ==
                (if is_wrapped(max_per_column@, naive, limit, j, end) { wrap_text(hs[j], w) } else { hs[j] }),
            forall|j: int| head <= j < k ==> #[trigger] strings_view(headers@)[j] == hs[j],
            forall|i: int| 0 <= i < rows.len() ==> #[trigger] cells_view(entries@[i]).len() == rows[i].len(),
            forall|i: int, j: int| 0 <= i < rows.len() && 0 <= j < rows[i].len() ==> #[trigger] cells_view(entries@[i])[j] ==
                (if j < head && is_wrapped(max_per_column@, naive, limit, j, end) { (wrap_text(rows[i][j].0, w), rows[i][j].1) } else { rows[i][j] }),
        decreases k - head,
    {
        let column_max = max_per_column[head];
        if head >= 1 && head < wrappable_end && column_max > max_naive_column_width && column_max > first_pass_width {
            let h = wrap(&headers[head], max_column_width);
            proof {
                assert(strings_view(headers@)[head as int] == hs[head as int]);
            }
            let ghost hprev = headers@;
            let ghost hv = strings_view(headers@);
            headers[head] = h;
            proof {
                assert forall|j: int| 0 <= j < k implies #[trigger] strings_view(headers@)[j] ==
                    (if j <= head && is_wrapped(max_per_column@, naive, limit, j, end) { wrap_text(hs[j], w) } else { hs[j] }) by {
                    if j != head {
                        assert(headers@[j] == hprev[j]);
                        assert(hv[j] == hprev[j]@);
                        if j < head {
                            assert(hv[j] == (if is_wrapped(max_per_column@, naive, limit, j, end) { wrap_text(hs[j], w) } else { hs[j] }));
                        } else {
                            assert(hv[j] == hs[j]);
                        }
                    }
                }
            }
            let mut i: usize = 0;
            while i < entries.len()
                invariant
                    i <= entries@.len() == rows.len(),
                    head < k,
                    naive == max_naive_column_width,
                    limit == first_pass_width,
                    w == max_column_width,
                    end == wrappable_end,
                    is_wrapped(max_per_column@, naive, limit, head as int, end),
                    forall|r: int| 0 <= r < rows.len() ==> rows[r].len() >= k,
                    forall|r: int| 0 <= r < rows.len() ==> #[trigger] cells_view(entries@[r]).len() == rows[r].len(),
                    forall|r: int, j: int| 0 <= r < rows.len() && 0 <= j < rows[r].len() ==> #[trigger] cells_view(entries@[r])[j] ==
                        (if (j < head || (j == head && r < i)) && is_wrapped(max_per_column@, naive, limit, j, end)
                            { (wrap_text(rows[r][j].0, w), rows[r][j].1) } else { rows[r][j] }),
                decreases entries@.len() - i,
            {
                let ghost before = cells_view(entries@[i as int]);
                assert(before.len() == entries@[i as int]@.len());
                let t = wrap(&entries[i][head].0, max_column_width);
                proof {
                    assert(before[head as int] == rows[i as int][head as int]);
                }
                let ghost rprev = entries@[i as int]@;
                entries[i][head].0 = t;
                proof {
                    assert forall|j: int| 0 <= j < rows[i as int].len() implies #[trigger] cells_view(entries@[i as int])[j] ==
                        (if (j < head || j == head) && is_wrapped(max_per_column@, naive, limit, j, end)
                            { (wrap_text(rows[i as int][j].0, w), rows[i as int][j].1) } else { rows[i as int][j] }) by {
                        if j != head {
                            assert(entries@[i as int]@[j] == rprev[j]);
                            assert(before[j] == (rprev[j].0@, rprev[j].1));
                        }
                    }
                }
                i = i + 1;
            }
        }
        head = head + 1;
    }
    proof {
        assert(strings_view(headers@) =~= wrapped_headers(hs, max_per_column@, naive, limit, w, end));
        let want = wrapped_rows(rows, max_per_column@, naive, limit, w, k, end);
        assert forall|i: int| 0 <= i < rows.len() implies #[trigger] matrix_view(entries@)[i] == want[i] by {
            assert(cells_view(entries@[i]) =~= want[i]);
        }
        assert(matrix_view(entries@) =~= want);
    }
}

/// Every row of a layout starts with its row number, `start + i`, styled as
/// an index, whatever the other columns hold.
pub proof fn lemma_index_column(values: Seq<Value>, start: nat, termwidth: int, i: int)
    requires
        0 <= i < values.len(),
    ensures
        layout_rows(values, start, termwidth)[i].len() > 0,
        layout_rows(values, start, termwidth)[i][0] == (decimal(start + i as nat), CellStyle::Index),
{
    let w = effective_width(termwidth);
    let rows0 = base_rows(values, start);
    let h0 = base_headers(values);
    let m = w / 10;
    assert(rows0[i] == row_cells(values[i], entry_headers(merged_headers(values)), (start + i) as nat));
    assert(rows0[i][0] == (decimal((start + i) as nat), CellStyle::Index));
    let rows1 = truncated_rows(rows0, h0.len() as int, m);
    assert(rows1[i][0] == rows0[i][0]);
}

/// When columns are dropped, the last header is a literal ellipsis and so is
/// the last cell of every row, styled as an ellipsis.
pub proof fn lemma_ellipsis_column(values: Seq<Value>, start: nat, termwidth: int)
    requires
        is_truncated(values, termwidth),
    ensures
        layout_headers(values, start, termwidth).len() == effective_width(termwidth) / 10 + 1,
        layout_headers(values, start, termwidth)[effective_width(termwidth) / 10] == ellipsis(),
        forall|i: int| 0 <= i < values.len() ==> #[trigger] layout_rows(values, start, termwidth)[i].len()
            == effective_width(termwidth) / 10 + 1
            && layout_rows(values, start, termwidth)[i][effective_width(termwidth) / 10]
            == (ellipsis(), CellStyle::Ellipsis),
{
    lemma_column_count(values, start, termwidth);
    let m = effective_width(termwidth) / 10;
    let h0 = base_headers(values);
    let rows0 = base_rows(values, start);
    let h1 = truncated_headers(h0, m);
    assert(h1[m] == ellipsis());
    assert forall|i: int| 0 <= i < values.len() implies #[trigger] layout_rows(values, start, termwidth)[i].len() == m + 1
        && layout_rows(values, start, termwidth)[i][m] == (ellipsis(), CellStyle::Ellipsis) by {
        assert(rows0[i] == row_cells(values[i], entry_headers(merged_headers(values)), (start + i) as nat));
        assert(rows0[i].len() == h0.len());
        let rows1 = truncated_rows(rows0, h0.len() as int, m);
        assert(rows1[i][m] == (ellipsis(), CellStyle::Ellipsis));
    }
}

/// A layout keeps all its columns (the row numbers and one per header that
/// rows are laid out under) when there are at most `W / 10` of them; otherwise it keeps
/// `W / 10` and adds the ellipsis column. Every row has one cell per column.
pub proof fn lemma_column_count(values: Seq<Value>, start: nat, termwidth: int)
    ensures
        layout_headers(values, start, termwidth).len() == kept_columns(values, termwidth),
        kept_columns(values, termwidth) == if effective_width(termwidth) / 10 < 1 + entry_headers(merged_headers(values)).len() {
            effective_width(termwidth) / 10 + 1
        } else {
            1 + entry_headers(merged_headers(values)).len() as int
        },
        forall|i: int| 0 <= i < values.len() ==> #[trigger] layout_rows(values, start, termwidth)[i].len()
            == kept_columns(values, termwidth),
        layout_rows(values, start, termwidth).len() == values.len(),
{
    let h0 = base_headers(values);
    let rows0 = base_rows(values, start);
    let k = kept_columns(values, termwidth);
    assert(h0.len() == 1 + entry_headers(merged_headers(values)).len());
    assert forall|i: int| 0 <= i < values.len() implies #[trigger] layout_rows(values, start, termwidth)[i].len() == k by {
        assert(rows0[i] == row_cells(values[i], entry_headers(merged_headers(values)), (start + i) as nat));
        assert(rows0[i].len() == h0.len());
    }
}

/// A list of values none of which is a row is shown without a header row.
pub proof fn lemma_scalars_hide_header(values: Seq<Value>, start: nat, termwidth: int)
    requires
        values.len() > 0,
        forall|i: int| 0 <= i < values.len() ==> !(#[trigger] values[i] is Row),
    ensures
        !shows_header(layout_headers(values, start, termwidth)),
{
    lemma_scalar_headers(values);
    let w = effective_width(termwidth);
    let h0 = base_headers(values);
    assert(h0 =~= seq![seq!['#'], Seq::<char>::empty()]);
    let h1 = truncated_headers(h0, w / 10);
    assert(h1 == h0);
    let h2 = layout_headers(values, start, termwidth);
    assert(h2.len() == 2);
    assert(h2[1].len() == 0);
}

proof fn lemma_scalar_headers(values: Seq<Value>)
    requires
        values.len() > 0,
        forall|i: int| 0 <= i < values.len() ==> !(#[trigger] values[i] is Row),
    ensures
        merged_headers(values) == seq![Seq::<char>::empty()],
    decreases values.len(),
{
    let v = values.last();
    assert(values[values.len() - 1] == v);
    if values.len() == 1 {
        assert(values.drop_last().len() == 0);
        assert(merged_headers(values.drop_last()) == Seq::<Seq<char>>::empty());
        assert(add_name(Seq::empty(), Seq::<char>::empty()) =~= seq![Seq::<char>::empty()]);
    } else {
        let init = values.drop_last();
        assert forall|i: int| 0 <= i < init.len() implies !(#[trigger] init[i] is Row) by {
            assert(init[i] == values[i]);
        }
        lemma_scalar_headers(init);
        assert(seq![Seq::<char>::empty()].contains(Seq::<char>::empty())) by {
            assert(seq![Seq::<char>::empty()][0] == Seq::<char>::empty());
        }
    }
}

/// A laid-out table: header texts, and rows of styled cells whose first
/// column is the row number.
#[derive(Debug)]
pub struct TableView {
    pub headers: Vec<String>,
    pub entries: Entries,
}

/// Columns of the terminal kept free beside the table.
pub const TERMINAL_MARGIN: usize = 7;

/// Whether a header row is shown for these headers.
pub open spec fn shows_header(headers: Seq<Seq<char>>) -> bool {
    !((headers.len() == 2 && headers[1].len() == 0) || (headers.len() == 1 && headers[0].len() == 0))
}

/// The width budget: the given width, but no less than 20.
pub open spec fn effective_width(termwidth: int) -> int {
    if termwidth < 20 { 20 } else { termwidth }
}

/// The headers before truncation: the row-number column, then the union
/// (the anonymous header when the union is empty).
pub open spec fn base_headers(values: Seq<Value>) -> Seq<Seq<char>> {
    seq![seq!['#']] + entry_headers(merged_headers(values))
}

pub open spec fn base_rows(values: Seq<Value>, start: nat) -> Seq<Seq<(Seq<char>, CellStyle)>> {
    rows_of(values, entry_headers(merged_headers(values)), start)
}

/// The natural width of each column before truncation.
pub open spec fn base_widths(values: Seq<Value>, start: nat) -> Seq<usize> {
    Seq::new(base_headers(values).len(), |j: int| natural_width(base_headers(values), base_rows(values, start), j) as usize)
}

/// The columns kept after truncation.
pub open spec fn kept_columns(values: Seq<Value>, termwidth: int) -> int {
    truncated_headers(base_headers(values), effective_width(termwidth) / 10).len() as int
}

/// The even share of each column: `(W - 3 * (k - 1)) / k`.
pub open spec fn naive_width(values: Seq<Value>, termwidth: int) -> int {
    let w = effective_width(termwidth);
    let k = kept_columns(values, termwidth);
    (w - 3 * (k - 1)) / k
}

/// The width that the first pass leaves to each exceeding column.
pub open spec fn first_limit(values: Seq<Value>, start: nat, termwidth: int) -> int {
    let k = kept_columns(values, termwidth);
    let fp = first_pass(base_widths(values, start), naive_width(values, termwidth), k, k);
    overage_width(fp.0, fp.1, fp.2, effective_width(termwidth))
}

/// The width that the second pass leaves to each column still exceeding.
pub open spec fn final_limit(values: Seq<Value>, start: nat, termwidth: int) -> int {
    let k = kept_columns(values, termwidth);
    let widths = base_widths(values, start);
    let naive = naive_width(values, termwidth);
    let fp = first_pass(widths, naive, k, k);
    let sp = second_pass(widths, naive, first_limit(values, start, termwidth), k, k);
    overage_width(sp.0, fp.1 + sp.1, sp.2, effective_width(termwidth))
}

/// Whether the columns are truncated and an ellipsis column added.
pub open spec fn is_truncated(values: Seq<Value>, termwidth: int) -> bool {
    effective_width(termwidth) / 10 < base_headers(values).len()
}

/// The end of the columns that may be wrapped: all but the ellipsis column.
pub open spec fn wrap_end(values: Seq<Value>, termwidth: int) -> int {
    if is_truncated(values, termwidth) { kept_columns(values, termwidth) - 1 } else { kept_columns(values, termwidth) }
}

/// The header texts of the table that `values` are laid out as.
pub open spec fn layout_headers(values: Seq<Value>, start: nat, termwidth: int) -> Seq<Seq<char>> {
    wrapped_headers(
        truncated_headers(base_headers(values), effective_width(termwidth) / 10),
        base_widths(values, start),
        naive_width(values, termwidth),
        first_limit(values, start, termwidth),
        final_limit(values, start, termwidth) as nat,
        wrap_end(values, termwidth),
    )
}

/// The rows of the table that `values` are laid out as.
pub open spec fn layout_rows(values: Seq<Value>, start: nat, termwidth: int) -> Seq<Seq<(Seq<char>, CellStyle)>> {
    wrapped_rows(
        truncated_rows(base_rows(values, start), base_headers(values).len() as int, effective_width(termwidth) / 10),
        base_widths(values, start),
        naive_width(values, termwidth),
        first_limit(values, start, termwidth),
        final_limit(values, start, termwidth) as nat,
        kept_columns(values, termwidth),
        wrap_end(values, termwidth),
    )
}

impl TableView {
    pub open spec fn headers_view(&self) -> Seq<Seq<char>> {
        strings_view(self.headers@)
    }

    pub open spec fn rows_view(&self) -> Seq<Seq<(Seq<char>, CellStyle)>> {
        matrix_view(self.entries@)
    }

    /// A table of the given headers and rows.
    pub fn new(headers: Vec<String>, entries: Entries) -> (r: TableView)
        ensures
            r.headers == headers && r.entries == entries,
    {
        TableView { headers, entries }
    }

    /// Lays `values` out for the terminal on standard output, less a margin
    /// of 7 columns; nothing for no values.
    pub fn from_list(values: &[Value], starting_idx: usize) -> (r: Option<TableView>)
        requires
            starting_idx + values@.len() <= usize::MAX,
        ensures
            r is None <==> values@.len() == 0,
            r matches Some(t) ==> exists|w: int| 0 <= w < usize::MAX
                && t.headers_view() == layout_headers(values@, starting_idx as nat, w)
                && t.rows_view() == layout_rows(values@, starting_idx as nat, w),
            r matches Some(t) ==> forall|i: int| 0 <= i < values@.len() ==> #[trigger] t.rows_view()[i][0]
                == (decimal((starting_idx + i) as nat), CellStyle::Index),
    {
        let width = terminal_width();
        let width = if width > TERMINAL_MARGIN { width - TERMINAL_MARGIN } else { 0 };
        let r = TableView::from_list_with_width(values, starting_idx, width);
        proof {
            if r is Some {
                let t = r->Some_0;
                assert(t.headers_view() == layout_headers(values@, starting_idx as nat, width as int));
            }
        }
        r
    }

    /// Whether the header row is shown: it is left out when the only column
    /// beside the row numbers is the anonymous one.
    pub fn header_visible(&self) -> (r: bool)
        ensures
            r == shows_header(self.headers_view()),
    {
        let n = self.headers.len();
        proof {
            assert(self.headers_view().len() == n);
        }
        if n == 2 {
            proof {
                assert(self.headers_view()[1] == self.headers@[1]@);
            }
            self.headers[1].as_str().unicode_len() != 0
        } else if n == 1 {
            proof {
                assert(self.headers_view()[0] == self.headers@[0]@);
            }
            self.headers[0].as_str().unicode_len() != 0
        } else {
            true
        }
    }

    /// Lays `values` out for a terminal `termwidth` columns wide, numbering
    /// rows from `starting_idx`; nothing for no values.
    pub fn from_list_with_width(values: &[Value], starting_idx: usize, termwidth: usize) -> (r: Option<TableView>)
        requires
            starting_idx + values@.len() <= usize::MAX,
            termwidth < usize::MAX,
        ensures
            r is None <==> values@.len() == 0,
            r matches Some(t) ==> t.headers_view() == layout_headers(values@, starting_idx as nat, termwidth as int)
                && t.rows_view() == layout_rows(values@, starting_idx as nat, termwidth as int),
            r matches Some(t) ==> forall|i: int| 0 <= i < values@.len() ==> #[trigger] t.rows_view()[i][0]
                == (decimal((starting_idx + i) as nat), CellStyle::Index),
            r matches Some(t) ==> (is_truncated(values@, termwidth as int) ==>
                t.headers_view()[effective_width(termwidth as int) / 10] == ellipsis()
                && forall|i: int| 0 <= i < values@.len() ==> #[trigger] t.rows_view()[i][effective_width(termwidth as int) / 10]
                    == (ellipsis(), CellStyle::Ellipsis)),
    {
        if values.len() == 0 {
            return None;
        }
        let termwidth = if termwidth < 20 { 20 } else { termwidth };
        let ghost vs = values@;
        let ghost start = starting_idx as nat;
        let mut headers = merge_descriptors(values);
        let mut entries = values_to_entries(values, &mut headers, starting_idx);
        proof {
            reveal_strlit("#");
        }
        let index_header = String::from_str("#");
        assert(index_header@ =~= seq!['#']);
        let ghost mprev = headers@;
        headers.insert(0, index_header);
        proof {
            assert(strings_view(headers@) =~= base_headers(vs));
            let hs = strings_view(mprev);
            assert(matrix_view(entries@) == rows_of(vs, hs, start));
            assert(matrix_view(entries@).len() == entries@.len());
            assert(rows_of(vs, hs, start).len() == vs.len());
            assert(entries@.len() == vs.len());
            assert forall|i: int| 0 <= i < entries@.len() implies entries@[i]@.len() == headers@.len() by {
                assert(matrix_view(entries@)[i].len() == entries@[i]@.len());
                assert(rows_of(vs, hs, start)[i] == row_cells(vs[i], hs, (start + i) as nat));
                assert(row_cells(vs[i], hs, (start + i) as nat).len() == 1 + hs.len());
            }
        }
        let max_per_column = max_per_column(&headers, &entries);
        let ghost widths = max_per_column@;
        proof {
            assert(widths =~= base_widths(vs, start));
        }
        let k0 = headers.len();
        let ghost rows0 = matrix_view(entries@);
        proof {
            assert forall|i: int| 0 <= i < rows0.len() implies #[trigger] rows0[i].len() == k0 by {
                assert(rows0[i].len() == entries@[i]@.len());
            }
        }
        maybe_truncate_columns(&mut headers, &mut entries, termwidth);
        let headers_len = headers.len();
        let ghost k = headers_len as int;
        let ghost w = termwidth as int;
        proof {
            assert(strings_view(headers@).len() == k);
            if w / 10 < k0 {
                assert(k == w / 10 + 1);
            } else {
                assert(k == k0);
            }
            assert(matrix_view(entries@).len() == entries@.len());
            assert(entries@.len() == rows0.len());
            assert forall|i: int| 0 <= i < entries@.len() implies #[trigger] entries@[i]@.len() == k by {
                assert(matrix_view(entries@)[i].len() == entries@[i]@.len());
                assert(rows0[i].len() == k0);
            }
            assert(1 <= k <= w / 10 + 1);
            assert(k <= k0);
            assert(10 * (k - 1) <= w) by (nonlinear_arith)
                requires k - 1 <= w / 10, w >= 20;
            assert forall|i: int| 0 <= i < entries@.len() implies entries@[i]@.len() >= headers@.len() by {
                assert(matrix_view(entries@)[i].len() == entries@[i]@.len());
            }
        }
        let max_naive_column_width = (termwidth - 3 * (headers_len - 1)) / headers_len;
        let ghost a = max_naive_column_width as int;
        proof {
            let x = w - 3 * (k - 1);
            assert(k * a <= x) by (nonlinear_arith)
                requires a == x / k, k >= 1, x >= 0;
            if k >= 2 {
                assert(x >= 2 * k);
                assert(a >= 2) by (nonlinear_arith)
                    requires a == x / k, k >= 2, x >= 2 * k;
            } else {
                assert(a == x);
            }
            lemma_sep_total(k, k);
        }
        let column_space = ColumnSpace::measure(max_per_column.as_slice(), max_naive_column_width, headers_len);
        let ghost o1 = column_space.num_overages as int;
        let ghost u1 = column_space.underage_sum as int;
        let ghost s1 = column_space.overage_separator_sum as int;
        proof {
            lemma_first_pass_bound(widths, a, k, k);
            assert((k - o1) * a == k * a - o1 * a) by (nonlinear_arith);
            if o1 > 0 {
                assert(o1 * a >= 2) by (nonlinear_arith)
                    requires o1 >= 1, a >= 2;
            }
        }
        let max_column_width = column_space.max_width(termwidth);
        let ghost m1 = max_column_width as int;
        proof {
            if o1 > 0 {
                let rem = w - 1 - u1 - s1;
                assert(o1 * m1 <= rem && m1 >= 0) by (nonlinear_arith)
                    requires m1 == rem / o1, o1 >= 1, rem >= 0;
            } else {
                assert(o1 * m1 == 0) by (nonlinear_arith)
                    requires o1 == 0;
            }
        }
        let column_space = column_space.fix_almost_column_width(
            max_per_column.as_slice(),
            max_naive_column_width,
            max_column_width,
            headers_len,
        );
        proof {
            lemma_second_pass_bound(widths, a, m1, k, k);
            let o2 = column_space.num_overages as int;
            assert((o1 - o2) * m1 <= o1 * m1) by (nonlinear_arith)
                requires 0 <= o2 <= o1, m1 >= 0;
        }
        let final_width = column_space.max_width(termwidth);
        proof {
            assert forall|i: int| 0 <= i < entries@.len() implies entries@[i]@.len() >= headers@.len() by {
                assert(matrix_view(entries@)[i].len() == entries@[i]@.len());
            }
        }
        let wrappable_end = if termwidth / 10 < k0 { headers_len - 1 } else { headers_len };
        wrap_cells(&mut headers, &mut entries, &max_per_column, max_naive_column_width, max_column_width, final_width,
            wrappable_end);
        proof {
            assert forall|i: int| 0 <= i < vs.len() implies #[trigger] matrix_view(entries@)[i][0]
                == (decimal((start + i) as nat), CellStyle::Index) by {
                lemma_index_column(vs, start, termwidth as int, i);
            }
            if is_truncated(vs, termwidth as int) {
                lemma_ellipsis_column(vs, start, termwidth as int);
            }
        }
        Some(TableView { headers, entries })
    }
}

} // verus!
