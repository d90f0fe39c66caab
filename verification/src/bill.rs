//! Beautifying a credit card bill: every line's cells separated by tabs, the
//! amount (the last cell) as a plain number, and lines padded with `-` cells
//! before the amount so that all have as many cells.

use vstd::prelude::*;

use crate::text::{
    append_str, ends_with_seq, ends_with_str, join_strings, join_with, lemma_join_split,
    lemma_split_from_nonempty, replace_seq, replace_str, split_on, split_str, starts_with_seq, str_eq,
    views,
};

verus! {

/// The amount without its separators: `1,250.00` gives `1250`, `12.50`
/// gives `1250`.
pub open spec fn money_text(cell: Seq<char>) -> Seq<char> {
    if ends_with_seq(cell, ".00"@) {
        replace_seq(replace_seq(cell, ".00"@, ""@), ","@, ""@)
    } else {
        replace_seq(cell, "."@, ""@)
    }
}

/// Replacing every `c` with nothing leaves no `c`.
proof fn lemma_replace_char_gone(s: Seq<char>, c: char)
    ensures
        !replace_seq(s, seq![c], Seq::empty()).contains(c),
    decreases s.len(),
{
    if s.len() > 0 {
        let r = replace_seq(s, seq![c], Seq::empty());
        if starts_with_seq(s, seq![c]) {
            lemma_replace_char_gone(s.skip(1), c);
            assert(r == Seq::<char>::empty() + replace_seq(s.skip(1), seq![c], Seq::empty()));
            assert(Seq::<char>::empty() + replace_seq(s.skip(1), seq![c], Seq::empty()) =~= replace_seq(
                s.skip(1),
                seq![c],
                Seq::empty(),
            ));
        } else {
            let rest = replace_seq(s.drop_first(), seq![c], Seq::empty());
            lemma_replace_char_gone(s.drop_first(), c);
            assert(s[0] != c) by {
                if s[0] == c {
                    assert(s.subrange(0, 1) =~= seq![c]);
                }
            }
            assert(r == seq![s[0]] + rest);
            if r.contains(c) {
                let i = choose|i: int| 0 <= i < r.len() && r[i] == c;
                assert(i > 0);
                assert(rest[i - 1] == c);
            }
        }
    }
}

/// The characters other than `c`.
pub open spec fn other_than(c: char) -> spec_fn(char) -> bool {
    |x: char| x != c
}

/// Replacing every `c` with nothing keeps every other character, in order.
proof fn lemma_replace_char_filters(s: Seq<char>, c: char)
    ensures
        replace_seq(s, seq![c], Seq::empty()) == s.filter(other_than(c)),
    decreases s.len(),
{
    reveal_with_fuel(Seq::filter, 2);
    if s.len() > 0 {
        let head = seq![s[0]];
        let rest = s.drop_first();
        lemma_replace_char_filters(rest, c);
        assert(s == head + rest);
        Seq::filter_distributes_over_add(head, rest, other_than(c));
        assert(head.drop_last() =~= Seq::<char>::empty());
        if s[0] == c {
            assert(s.subrange(0, 1) =~= seq![c]);
            assert(s.skip(1) =~= rest);
            assert(head.filter(other_than(c)) =~= Seq::<char>::empty());
            assert(Seq::<char>::empty() + rest.filter(other_than(c)) =~= rest.filter(other_than(c)));
        } else {
            assert(!starts_with_seq(s, seq![c])) by {
                if starts_with_seq(s, seq![c]) {
                    assert(s.subrange(0, 1)[0] == c);
                }
            }
            assert(head.filter(other_than(c)) =~= head);
        }
    }
}

/// Making an amount plain keeps its digits: an amount ending in `.00` loses
/// that `.00` and its `,` separators and nothing else, any other amount loses
/// its `.` and nothing else.
pub proof fn lemma_money_text_keeps_the_rest(cell: Seq<char>)
    ensures
        ends_with_seq(cell, ".00"@) ==> money_text(cell) == replace_seq(cell, ".00"@, ""@).filter(
            other_than(','),
        ),
        !ends_with_seq(cell, ".00"@) ==> money_text(cell) == cell.filter(other_than('.')),
{
    reveal_strlit(",");
    reveal_strlit(".");
    reveal_strlit("");
    assert(","@ =~= seq![',']);
    assert("."@ =~= seq!['.']);
    assert(""@ =~= Seq::<char>::empty());
    lemma_replace_char_filters(replace_seq(cell, ".00"@, ""@), ',');
    lemma_replace_char_filters(cell, '.');
}

/// An amount in whole units (ending in `.00`) comes out with no thousands
/// separator left, and any other amount with no `.` left.
pub proof fn lemma_money_text_plain(cell: Seq<char>)
    ensures
        ends_with_seq(cell, ".00"@) ==> !money_text(cell).contains(','),
        !ends_with_seq(cell, ".00"@) ==> !money_text(cell).contains('.'),
{
    reveal_strlit(",");
    reveal_strlit(".");
    reveal_strlit("");
    assert(","@ =~= seq![',']);
    assert("."@ =~= seq!['.']);
    assert(""@ =~= Seq::<char>::empty());
    lemma_replace_char_gone(replace_seq(cell, ".00"@, ""@), ',');
    lemma_replace_char_gone(cell, '.');
}

/// The cells of a line (separated by spaces), the amount (the last cell, or
/// the one before a trailing `CR`) made plain and put last.
pub open spec fn bill_cells(line: Seq<char>) -> Seq<Seq<char>> {
    let cells = split_on(line, ' ');
    if cells.last() == "CR"@ {
        cells.drop_last().drop_last().push(money_text(cells.drop_last().last()))
    } else {
        cells.drop_last().push(money_text(cells.last()))
    }
}

/// The most cells a line has.
pub open spec fn max_cells(lines: Seq<Seq<char>>) -> nat
    decreases lines.len(),
{
    if lines.len() == 0 {
        0
    } else {
        let m = max_cells(lines.drop_last());
        let n = bill_cells(lines.last()).len();
        if n > m {
            n
        } else {
            m
        }
    }
}

/// The cells padded to `width` with `-` cells before the last one.
pub open spec fn padded(cells: Seq<Seq<char>>, width: nat) -> Seq<Seq<char>> {
    if cells.len() < width {
        cells.drop_last() + Seq::new((width - cells.len()) as nat, |i: int| "-"@) + seq![
            cells.last(),
        ]
    } else {
        cells
    }
}

/// The beautified bill: the lines of `content`, each one's cells padded to
/// the most cells a line has and joined by tabs.
pub open spec fn beautified(content: Seq<char>) -> Seq<char> {
    let lines = split_on(content, '\n');
    let width = max_cells(lines);
    join_with(lines.map_values(|l: Seq<char>| join_with(padded(bill_cells(l), width), "\t"@)), "\n"@)
}

/// The amount without its separators.
fn money(cell: &str) -> (r: String)
    ensures
        r@ == money_text(cell@),
{
    proof {
        reveal_strlit(".00");
        reveal_strlit(",");
        reveal_strlit(".");
    }
    if ends_with_str(cell, ".00") {
        let without_cents = replace_str(cell, ".00", "");
        replace_str(without_cents.as_str(), ",", "")
    } else {
        replace_str(cell, ".", "")
    }
}

/// The cells of a line, the amount made plain and put last.
fn line_cells(line: &str) -> (cells: Vec<String>)
    requires
        line@ != "CR"@,
    ensures
        views(cells@) == bill_cells(line@),
{
    let mut cells = split_str(line, ' ');
    let ghost all = views(cells@);
    proof {
        lemma_split_from_nonempty(Seq::empty(), line@, ' ');
    }
    let mut money_cell = cells.pop().unwrap();
    assert(views(cells@) =~= all.drop_last());
    if str_eq(money_cell.as_str(), "CR") {
        proof {
            if all.len() == 1 {
                lemma_join_split(line@, ' ');
                assert(line@ == all[0]);
            }
        }
        money_cell = cells.pop().unwrap();
        assert(views(cells@) =~= all.drop_last().drop_last());
    }
    let m = money(money_cell.as_str());
    let ghost before = views(cells@);
    cells.push(m);
    assert(views(cells@) =~= before.push(m@));
    cells
}

/// The cells padded to `width` with `-` cells before the last one.
fn pad(cells: Vec<String>, width: usize) -> (r: Vec<String>)
    requires
        cells@.len() > 0,
    ensures
        views(r@) == padded(views(cells@), width as nat),
{
    let ghost cv = views(cells@);
    if cells.len() < width {
        let mut cells = cells;
        let money_cell = cells.pop().unwrap();
        assert(views(cells@) =~= cv.drop_last());
        let count = width - cells.len() - 1;
        let mut k: usize = 0;
        while k < count
            invariant
                k <= count,
                views(cells@) == cv.drop_last() + Seq::new(k as nat, |i: int| "-"@),
            decreases count - k,
        {
            let ghost before = views(cells@);
            cells.push("-".to_owned());
            assert(views(cells@) =~= before.push("-"@));
            assert(cv.drop_last() + Seq::new((k + 1) as nat, |i: int| "-"@) =~= (cv.drop_last()
                + Seq::new(k as nat, |i: int| "-"@)).push("-"@));
            k = k + 1;
        }
        let ghost before = views(cells@);
        cells.push(money_cell);
        assert(views(cells@) =~= before.push(cv.last()));
        assert(views(cells@) =~= padded(cv, width as nat));
        cells
    } else {
        cells
    }
}

/// The bill.
/// A line that is not just `CR` has at least one cell.
proof fn lemma_line_has_cells(line: Seq<char>)
    requires
        line != "CR"@,
    ensures
        bill_cells(line).len() >= 1,
{
    let cells = split_on(line, ' ');
    lemma_split_from_nonempty(Seq::empty(), line, ' ');
    if cells.len() == 1 {
        lemma_join_split(line, ' ');
        assert(cells[0] == line);
        assert(cells.last() == line);
    }
}

/// No line has more cells than the widest one.
proof fn lemma_max_cells_bound(lines: Seq<Seq<char>>, i: int)
    requires
        0 <= i < lines.len(),
    ensures
        bill_cells(lines[i]).len() <= max_cells(lines),
    decreases lines.len(),
{
    if i < lines.len() - 1 {
        lemma_max_cells_bound(lines.drop_last(), i);
        assert(lines.drop_last()[i] == lines[i]);
    }
}

/// Every line of a beautified bill has as many cells as the widest line of
/// the bill: the columns line up.
pub proof fn lemma_bill_lines_aligned(content: Seq<char>, i: int)
    requires
        0 <= i < split_on(content, '\n').len(),
        forall|j: int|
            0 <= j < split_on(content, '\n').len() ==> #[trigger] split_on(content, '\n')[j] != "CR"@,
    ensures
        padded(bill_cells(split_on(content, '\n')[i]), max_cells(split_on(content, '\n'))).len()
            == max_cells(split_on(content, '\n')),
{
    let lines = split_on(content, '\n');
    lemma_line_has_cells(lines[i]);
    lemma_max_cells_bound(lines, i);
}

pub struct BillCli;

impl BillCli {
    /// The bill `file_content` beautified: each line's cells (separated by
    /// spaces) joined by tabs, its amount (the last cell, or the one before a
    /// trailing `CR`, which is dropped) without separators (`1,250.00` gives
    /// `1250`, `12.50` gives `1250`), and `-` cells put before the amount so
    /// that every line has as many cells as the longest.
    pub fn cc_beautify_content(file_content: &str) -> (r: String)
        requires
            forall|i: int|
                0 <= i < split_on(file_content@, '\n').len() ==> #[trigger] split_on(
                    file_content@,
                    '\n',
                )[i] != "CR"@,
        ensures
            r@ == beautified(file_content@),
    {
        let lines = split_str(file_content, '\n');
        let ghost lv = views(lines@);
        let mut cells_of_lines: Vec<Vec<String>> = Vec::new();
        let mut width: usize = 0;
        let mut i: usize = 0;
        while i < lines.len()
            invariant
                i <= lines@.len(),
                lv == views(lines@),
                lv == split_on(file_content@, '\n'),
                forall|j: int| 0 <= j < lv.len() ==> #[trigger] lv[j] != "CR"@,
                cells_of_lines@.len() == i,
                forall|j: int|
                    0 <= j < i ==> views(#[trigger] cells_of_lines@[j]@) == bill_cells(lv[j]),
                width == max_cells(lv.take(i as int)),
            decreases lines@.len() - i,
        {
            assert(lines@[i as int]@ == lv[i as int]);
            let cells = line_cells(lines[i].as_str());
            assert(lv.take(i + 1).drop_last() =~= lv.take(i as int));
            if cells.len() > width {
                width = cells.len();
            }
            cells_of_lines.push(cells);
            i = i + 1;
        }
        assert(lv.take(i as int) =~= lv);
        let ghost joined_lines = lv.map_values(
            |l: Seq<char>| join_with(padded(bill_cells(l), max_cells(lv)), "\t"@),
        );
        let mut out_lines: Vec<String> = Vec::new();
        let mut cells_of_lines = cells_of_lines;
        let mut k: usize = 0;
        while cells_of_lines.len() > 0
            invariant
                k + cells_of_lines@.len() == lv.len(),
                lv.len() <= usize::MAX,
                width == max_cells(lv),
                forall|j: int|
                    0 <= j < cells_of_lines@.len() ==> views(#[trigger] cells_of_lines@[j]@)
                        == bill_cells(lv[k + j]),
                views(out_lines@) == joined_lines.take(k as int),
                joined_lines == lv.map_values(
                    |l: Seq<char>| join_with(padded(bill_cells(l), max_cells(lv)), "\t"@),
                ),
            decreases cells_of_lines@.len(),
        {
            let ghost before_rest = cells_of_lines@;
            let cells = cells_of_lines.remove(0);
            assert(forall|j: int|
                0 <= j < cells_of_lines@.len() ==> cells_of_lines@[j] == before_rest[j + 1]);
            assert(views(cells@) == bill_cells(lv[k as int]));
            proof {
                lemma_split_from_nonempty(Seq::empty(), lv[k as int], ' ');
            }
            let padded_cells = pad(cells, width);
            let line = join_strings(&padded_cells, "\t");
            let ghost before = views(out_lines@);
            out_lines.push(line);
            assert(views(out_lines@) =~= before.push(joined_lines[k as int]));
            assert(joined_lines.take(k + 1) =~= joined_lines.take(k as int).push(
                joined_lines[k as int],
            ));
            k = k + 1;
        }
        assert(joined_lines.take(k as int) =~= joined_lines);
        join_strings(&out_lines, "\n")
    }
}

} // verus!
