//! Column layout: names of varying length packed into rows of equal-width
//! columns that fit a terminal.

use vstd::prelude::*;
use vstd::utf8::{encode_scalar, encode_utf8};

verus! {

/// The width and the number of the columns of a layout.
#[derive(Clone, Copy, Debug, PartialEq, Eq, Structural)]
pub struct Layout {
    pub column_width: usize,
    pub columns_per_row: usize,
}

/// The length of a name as the layout measures it: the number of bytes of its
/// UTF-8 encoding.
pub open spec fn name_len(name: Seq<char>) -> nat {
    encode_utf8(name).len()
}

/// The greatest `name_len` among `names`; 0 for no names.
pub open spec fn max_len(names: Seq<Seq<char>>) -> nat
    decreases names.len(),
{
    if names.len() == 0 {
        0
    } else {
        let before = max_len(names.drop_last());
        let last = name_len(names.last());
        if last > before {
            last
        } else {
            before
        }
    }
}

/// The width of a column: room for the longest name and the padding.
pub open spec fn column_width(names: Seq<Seq<char>>, padding: nat) -> nat {
    max_len(names) + padding
}

/// How many columns of `column_width` fit into `terminal_width`, but at least
/// one: a terminal narrower than a column still shows one column per row, and
/// so does a column of width 0, for which the quotient is not defined.
pub open spec fn columns_per_row(terminal_width: nat, column_width: nat) -> nat {
    if column_width == 0 || terminal_width / column_width == 0 {
        1
    } else {
        terminal_width / column_width
    }
}

/// `count` spaces.
pub open spec fn spaces(count: nat) -> Seq<char> {
    Seq::new(count, |i: int| ' ')
}

/// `name`, followed by as many spaces as it takes to make it `width`
/// characters long. A name that is longer than that stays as it is.
pub open spec fn pad(name: Seq<char>, width: nat) -> Seq<char> {
    if name.len() >= width {
        name
    } else {
        name + spaces((width - name.len()) as nat)
    }
}

/// The names, each padded to `width`.
pub open spec fn fields(names: Seq<Seq<char>>, width: nat) -> Seq<Seq<char>> {
    Seq::new(names.len(), |i: int| pad(names[i], width))
}

/// The fields in row-major order, `per_row` to a row: the first row is the
/// first `per_row` fields joined, and so on. The last row holds what is left.
pub open spec fn rows(fields: Seq<Seq<char>>, per_row: nat) -> Seq<Seq<char>>
    decreases fields.len(),
{
    if fields.len() == 0 || per_row == 0 {
        Seq::empty()
    } else if fields.len() <= per_row {
        seq![fields.flatten()]
    } else {
        seq![fields.take(per_row as int).flatten()] + rows(fields.skip(per_row as int), per_row)
    }
}

/// The rows that `pack` makes of `names` for a terminal of `terminal_width`
/// columns, with `padding` spaces between the longest name and the next
/// column.
pub open spec fn packed(names: Seq<Seq<char>>, terminal_width: nat, padding: nat) -> Seq<Seq<char>> {
    let width = column_width(names, padding);
    rows(fields(names, width), columns_per_row(terminal_width, width))
}

/// The number of rows that `count` fields fill, `per_row` to a row.
pub open spec fn row_count(count: nat, per_row: nat) -> nat {
    if per_row == 0 {
        0
    } else {
        ((count + per_row - 1) / (per_row as int)) as nat
    }
}

/// `max_len` is an upper bound of the lengths, and one that a name reaches
/// unless there is no name.
pub proof fn lemma_max_len(names: Seq<Seq<char>>)
    ensures
        forall|i: int| 0 <= i < names.len() ==> name_len(#[trigger] names[i]) <= max_len(names),
        names.len() == 0 ==> max_len(names) == 0,
        names.len() > 0 ==> exists|i: int|
            0 <= i < names.len() && name_len(#[trigger] names[i]) == max_len(names),
    decreases names.len(),
{
    if names.len() > 0 {
        let front = names.drop_last();
        lemma_max_len(front);
        assert forall|i: int| 0 <= i < names.len() implies name_len(#[trigger] names[i])
            <= max_len(names) by {
            if i < front.len() {
                assert(names[i] == front[i]);
            }
        }
        if name_len(names.last()) > max_len(front) || front.len() == 0 {
            assert(name_len(names[names.len() - 1]) == max_len(names));
        } else {
            let i = choose|i: int| 0 <= i < front.len() && name_len(#[trigger] front[i]) == max_len(front);
            assert(names[i] == front[i]);
        }
    }
}

/// A name has at most as many characters as its encoding has bytes.
pub proof fn lemma_chars_at_most_name_len(name: Seq<char>)
    ensures
        name.len() <= name_len(name),
    decreases name.len(),
{
    if name.len() > 0 {
        lemma_chars_at_most_name_len(name.drop_first());
        assert(encode_scalar(name[0] as u32).len() >= 1);
    }
}

/// Packing is a function of the names, the terminal width and the padding:
/// two results for the same three are the same rows.
pub proof fn lemma_pack_deterministic(
    names: Seq<Seq<char>>,
    terminal_width: nat,
    padding: nat,
    first: Seq<Seq<char>>,
    second: Seq<Seq<char>>,
)
    requires
        first == packed(names, terminal_width, padding),
        second == packed(names, terminal_width, padding),
    ensures
        first == second,
{
}

/// A row holds at least one column, whatever the widths are. Where a column
/// fits into the terminal, a row holds as many columns as fit and no more.
pub proof fn lemma_columns_per_row(terminal_width: nat, column_width: nat)
    ensures
        columns_per_row(terminal_width, column_width) >= 1,
        0 < column_width <= terminal_width ==> {
            let count = columns_per_row(terminal_width, column_width);
            count * column_width <= terminal_width < (count + 1) * column_width
        },
{
    if 0 < column_width <= terminal_width {
        let quotient = terminal_width as int / column_width as int;
        vstd::arithmetic::div_mod::lemma_div_non_zero(terminal_width as int, column_width as int);
        vstd::arithmetic::div_mod::lemma_fundamental_div_mod(
            terminal_width as int,
            column_width as int,
        );
        assert(column_width * quotient == quotient * column_width) by (nonlinear_arith);
        assert((quotient + 1) * column_width == quotient * column_width + column_width)
            by (nonlinear_arith);
    }
}

/// No names are packed into no rows.
pub proof fn lemma_pack_empty(terminal_width: nat, padding: nat)
    ensures
        packed(Seq::empty(), terminal_width, padding).len() == 0,
{
}

/// Every field is exactly as wide as the column.
pub proof fn lemma_field_width(names: Seq<Seq<char>>, padding: nat, i: int)
    requires
        0 <= i < names.len(),
    ensures
        fields(names, column_width(names, padding))[i].len() == column_width(names, padding),
{
    lemma_max_len(names);
    lemma_chars_at_most_name_len(names[i]);
}

/// The fields fill `row_count` rows.
pub proof fn lemma_rows_len(fields: Seq<Seq<char>>, per_row: nat)
    ensures
        rows(fields, per_row).len() == row_count(fields.len(), per_row),
    decreases fields.len(),
{
    if fields.len() == 0 || per_row == 0 {
        if per_row > 0 {
            vstd::arithmetic::div_mod::lemma_basic_div(per_row - 1, per_row as int);
        }
    } else if fields.len() <= per_row {
        vstd::arithmetic::div_mod::lemma_div_plus_one(fields.len() - 1, per_row as int);
        vstd::arithmetic::div_mod::lemma_basic_div(fields.len() - 1, per_row as int);
    } else {
        let rest = fields.skip(per_row as int);
        lemma_rows_len(rest, per_row);
        vstd::arithmetic::div_mod::lemma_div_plus_one(rest.len() + per_row - 1, per_row as int);
    }
}

/// The rows hold every field once, in the order of the fields: joined, the
/// rows are the fields joined.
pub proof fn lemma_rows_keep_fields(fields: Seq<Seq<char>>, per_row: nat)
    requires
        per_row >= 1,
    ensures
        rows(fields, per_row).flatten() == fields.flatten(),
    decreases fields.len(),
{
    if fields.len() == 0 {
    } else if fields.len() <= per_row {
        seq![fields.flatten()].lemma_flatten_one_element();
    } else {
        let head = fields.take(per_row as int);
        let rest = fields.skip(per_row as int);
        lemma_rows_keep_fields(rest, per_row);
        seq![head.flatten()].lemma_flatten_one_element();
        vstd::seq_lib::lemma_flatten_concat(seq![head.flatten()], rows(rest, per_row));
        vstd::seq_lib::lemma_flatten_concat(head, rest);
        assert(head + rest == fields);
    }
}

/// The length in bytes of the longest of `strings`; 0 if there are none.
pub fn get_string_max_length(strings: &Vec<String>) -> (longest: usize)
    ensures
        longest == max_len(strings.deep_view()),
{
    let mut longest: usize = 0;
    let mut i: usize = 0;
    while i < strings.len()
        invariant
            i <= strings.len(),
            longest == max_len(strings.deep_view().take(i as int)),
        decreases strings.len() - i,
    {
        let length: usize = strings[i].as_str().as_bytes().len();
        assert(strings.deep_view().take(i + 1).drop_last() == strings.deep_view().take(i as int));
        assert(strings.deep_view().take(i + 1).last() == strings[i as int]@);
        if length > longest {
            longest = length;
        }
        i = i + 1;
    }
    assert(strings.deep_view().take(i as int) == strings.deep_view());
    longest
}

/// The layout of `names` on a terminal of `terminal_width` columns, or `None`
/// where the column width is more than a `usize` holds.
pub fn compute_layout(names: &Vec<String>, terminal_width: usize, padding: usize) -> (layout:
    Option<Layout>)
    ensures
        match layout {
            Some(l) => {
                &&& l.column_width == column_width(names.deep_view(), padding as nat)
                &&& l.columns_per_row == columns_per_row(
                    terminal_width as nat,
                    l.column_width as nat,
                )
                &&& l.columns_per_row >= 1
            },
            None => column_width(names.deep_view(), padding as nat) > usize::MAX,
        },
{
    let longest: usize = get_string_max_length(names);
    match longest.checked_add(padding) {
        Some(width) => Some(
            Layout { column_width: width, columns_per_row: columns_for(longest, padding, terminal_width) },
        ),
        None => None,
    }
}

/// The number of columns to a row for names of at most `longest` bytes.
fn columns_for(longest: usize, padding: usize, terminal_width: usize) -> (count: usize)
    ensures
        count == columns_per_row(terminal_width as nat, (longest + padding) as nat),
        count >= 1,
{
    match longest.checked_add(padding) {
        Some(width) => {
            if width == 0 {
                1
            } else {
                let quotient: usize = terminal_width / width;
                if quotient == 0 {
                    1
                } else {
                    quotient
                }
            }
        },
        None => {
            proof {
                vstd::arithmetic::div_mod::lemma_basic_div(
                    terminal_width as int,
                    longest + padding,
                );
            }
            1
        },
    }
}

/// Appends `count` spaces to `text`.
fn append_spaces(text: &mut String, count: usize)
    ensures
        final(text)@ == old(text)@ + spaces(count as nat),
{
    let mut done: usize = 0;
    while done < count
        invariant
            done <= count,
            text@ == old(text)@ + spaces(done as nat),
        decreases count - done,
    {
        proof {
            reveal_strlit(" ");
        }
        text.append(" ");
        done = done + 1;
    }
}

/// Appends to `row` the field of `name` in a column of `longest + padding`
/// characters.
fn append_field(row: &mut String, name: &str, longest: usize, padding: usize)
    requires
        name_len(name@) <= longest,
    ensures
        final(row)@ == old(row)@ + pad(name@, (longest + padding) as nat),
{
    let shown: usize = name.unicode_len();
    proof {
        lemma_chars_at_most_name_len(name@);
    }
    row.append(name);
    append_spaces(row, longest - shown);
    append_spaces(row, padding);
    assert(spaces((longest - shown) as nat) + spaces(padding as nat) == spaces(
        (longest + padding - shown) as nat,
    ));
}

/// Packs `names` into rows for a terminal of `terminal_width` columns. Every
/// name is padded with spaces to the column width, which is the length of the
/// longest name plus `padding`; a row holds as many columns as fit into the
/// terminal, but at least one. No names give no rows.
pub fn pack(names: &Vec<String>, terminal_width: usize, padding: usize) -> (lines: Vec<String>)
    ensures
        lines.deep_view() == packed(names.deep_view(), terminal_width as nat, padding as nat),
{
    let longest: usize = get_string_max_length(names);
    let per_row: usize = columns_for(longest, padding, terminal_width);
    let ghost all = fields(names.deep_view(), (longest + padding) as nat);
    let mut lines: Vec<String> = Vec::new();
    let mut start: usize = 0;
    proof {
        lemma_max_len(names.deep_view());
        assert(all.skip(0) == all);
        assert(lines.deep_view() + rows(all, per_row as nat) == rows(all, per_row as nat));
    }
    while start < names.len()
        invariant
            start <= names.len(),
            per_row >= 1,
            longest == max_len(names.deep_view()),
            forall|i: int|
                0 <= i < names.len() ==> name_len(#[trigger] names.deep_view()[i]) <= longest,
            all == fields(names.deep_view(), (longest + padding) as nat),
            lines.deep_view() + rows(all.skip(start as int), per_row as nat) == rows(
                all,
                per_row as nat,
            ),
        decreases names.len() - start,
    {
        let end: usize = if names.len() - start <= per_row {
            names.len()
        } else {
            start + per_row
        };
        let mut row = String::new();
        let mut next: usize = start;
        while next < end
            invariant
                start <= next <= end <= names.len(),
                forall|i: int|
                    0 <= i < names.len() ==> name_len(#[trigger] names.deep_view()[i]) <= longest,
                all == fields(names.deep_view(), (longest + padding) as nat),
                row@ == all.subrange(start as int, next as int).flatten(),
            decreases end - next,
        {
            assert(names.deep_view()[next as int] == names[next as int]@);
            append_field(&mut row, names[next].as_str(), longest, padding);
            proof {
                let before = all.subrange(start as int, next as int);
                before.lemma_flatten_push(all[next as int]);
                assert(all.subrange(start as int, next + 1) == before.push(all[next as int]));
            }
            next = next + 1;
        }
        proof {
            let rest = all.skip(start as int);
            assert(all.subrange(start as int, end as int) == rest.take(end - start));
            assert(rest.skip(end - start) == all.skip(end as int));
            if end == names.len() {
                assert(rest.take(end - start) == rest);
            }
        }
        let ghost above = lines.deep_view();
        lines.push(row);
        assert(lines.deep_view() == above.push(row@));
        assert(above.push(row@) + rows(all.skip(end as int), per_row as nat) == above + rows(
            all.skip(start as int),
            per_row as nat,
        ));
        start = end;
    }
    lines
}

} // verus!
