//! The text form of the accounts: one line `name,balance` per account.
use vstd::prelude::*;

use crate::storage::{
    deposit_fits, deposited, keys_distinct, lemma_drop_last_distinct, lemma_rows_map_dom, rows_map,
    with_user, Row, Storage,
};
use crate::text::{
    chars_of, int_decimal, is_whitespace, lemma_nat_digits, lemma_parse_int_decimal, nat_digits,
    parse_i64, parse_i64_range, push_char, push_chars, push_i64, trim, trim_bounds, trim_start,
};
use crate::{Balance, Name};

verus! {

/// How many times `c` occurs in `s`.
pub open spec fn count_char(s: Seq<char>, c: char) -> nat
    decreases s.len(),
{
    if s.len() == 0 {
        0
    } else {
        count_char(s.drop_last(), c) + if s.last() == c {
            1nat
        } else {
            0nat
        }
    }
}

/// The position of the first `c` in `s`, or -1 when there is none.
pub open spec fn first_index(s: Seq<char>, c: char) -> int
    decreases s.len(),
{
    if s.len() == 0 {
        -1
    } else if first_index(s.drop_last(), c) >= 0 {
        first_index(s.drop_last(), c)
    } else if s.last() == c {
        s.len() - 1
    } else {
        -1
    }
}

/// The two fields of a line with exactly one comma: the text before it and the text after it.
pub open spec fn split_fields(t: Seq<char>) -> Option<(Seq<char>, Seq<char>)> {
    if count_char(t, ',') == 1 {
        let i = first_index(t, ',');
        Some((t.take(i), t.skip(i + 1)))
    } else {
        None
    }
}

/// The account that a line describes: the line is trimmed, and when it then has exactly
/// one comma, the name is the text before it and the balance is the text after it read
/// as an `i64`, or zero when it is no such number. `None` for any other line.
pub open spec fn parse_line(line: Seq<char>) -> Option<Row> {
    match split_fields(trim(line)) {
        Some((name, rest)) => Some(
            (
                name,
                match parse_i64(rest) {
                    Some(v) => v,
                    None => 0i64,
                },
            ),
        ),
        None => None,
    }
}

/// The balances after one line is read into `m`: its account is opened when it is new,
/// and its balance is paid into it. `None` when that payment overflows `i64`, or when
/// `m` is `None`.
pub open spec fn load_line(m: Option<Map<Seq<char>, i64>>, line: Seq<char>) -> Option<Map<Seq<char>, i64>> {
    match m {
        None => None,
        Some(m) => match parse_line(line) {
            None => Some(m),
            Some((name, amount)) => {
                let opened = with_user(m, name);
                if deposit_fits(opened, name, amount) {
                    Some(deposited(opened, name, amount))
                } else {
                    None
                }
            },
        },
    }
}

/// The balances that the lines describe, read one after the other into an empty bank.
pub open spec fn load_lines(lines: Seq<Seq<char>>) -> Option<Map<Seq<char>, i64>>
    decreases lines.len(),
{
    if lines.len() == 0 {
        Some(Map::empty())
    } else {
        load_line(load_lines(lines.drop_last()), lines.last())
    }
}

/// The line that describes one account.
pub open spec fn csv_line(row: Row) -> Seq<char> {
    row.0 + seq![','] + int_decimal(row.1 as int)
}

/// The line of each account, in order.
pub open spec fn csv_lines(rows: Seq<Row>) -> Seq<Seq<char>> {
    rows.map_values(|r: Row| csv_line(r))
}

/// The text of all the accounts: each line followed by a newline.
pub open spec fn csv_text(rows: Seq<Row>) -> Seq<char>
    decreases rows.len(),
{
    if rows.len() == 0 {
        Seq::empty()
    } else {
        csv_text(rows.drop_last()) + csv_line(rows.last()) + seq!['\n']
    }
}

/// A name that its line gives back unchanged: it holds no comma and does not start with whitespace.
pub open spec fn csv_safe_name(name: Seq<char>) -> bool {
    &&& forall|i: int| 0 <= i < name.len() ==> #[trigger] name[i] != ','
    &&& (name.len() > 0 ==> !is_whitespace(name[0]))
}

/// The lines read from a file, by the characters of each.
pub open spec fn lines_view(lines: Seq<String>) -> Seq<Seq<char>> {
    lines.map_values(|l: String| l@)
}

proof fn lemma_count_concat(a: Seq<char>, b: Seq<char>, c: char)
    ensures
        count_char(a + b, c) == count_char(a, c) + count_char(b, c),
    decreases b.len(),
{
    if b.len() == 0 {
        assert(a + b =~= a);
    } else {
        lemma_count_concat(a, b.drop_last(), c);
        assert((a + b).drop_last() =~= a + b.drop_last());
    }
}

proof fn lemma_count_none(s: Seq<char>, c: char)
    requires
        forall|i: int| 0 <= i < s.len() ==> #[trigger] s[i] != c,
    ensures
        count_char(s, c) == 0,
        first_index(s, c) == -1,
    decreases s.len(),
{
    if s.len() > 0 {
        lemma_count_none(s.drop_last(), c);
    }
}

proof fn lemma_first_index_after(a: Seq<char>, rest: Seq<char>, c: char)
    requires
        forall|i: int| 0 <= i < a.len() ==> #[trigger] a[i] != c,
    ensures
        first_index(a.push(c) + rest, c) == a.len(),
    decreases rest.len(),
{
    if rest.len() == 0 {
        assert(a.push(c) + rest =~= a.push(c));
        assert(a.push(c).drop_last() =~= a);
        lemma_count_none(a, c);
    } else {
        lemma_first_index_after(a, rest.drop_last(), c);
        assert((a.push(c) + rest).drop_last() =~= a.push(c) + rest.drop_last());
    }
}

proof fn lemma_int_decimal_shape(v: int)
    ensures
        int_decimal(v).len() > 0,
        !is_whitespace(int_decimal(v).last()),
        forall|i: int| 0 <= i < int_decimal(v).len() ==> #[trigger] int_decimal(v)[i] != ',',
{
    let d = if v < 0 {
        (-v) as nat
    } else {
        v as nat
    };
    lemma_nat_digits(d);
    let s = int_decimal(v);
    assert forall|i: int| 0 <= i < s.len() implies #[trigger] s[i] != ',' by {
        if v < 0 && i > 0 {
            assert(s[i] == nat_digits(d)[i - 1]);
        }
    }
    if v < 0 {
        assert(s.last() == nat_digits(d).last());
    }
}

/// A line written for an account with a safe name is read back as that account.
pub proof fn lemma_parse_csv_line(row: Row)
    requires
        csv_safe_name(row.0),
    ensures
        parse_line(csv_line(row)) == Some(row),
{
    let (name, v) = row;
    let digits = int_decimal(v as int);
    let line = csv_line(row);
    lemma_int_decimal_shape(v as int);
    assert(line =~= name.push(',') + digits);
    assert(line.len() > 0);
    assert(!is_whitespace(line[0])) by {
        if name.len() == 0 {
            assert(line[0] == ',');
        } else {
            assert(line[0] == name[0]);
        }
    }
    assert(trim_start(line) == line);
    assert(line.last() == digits.last());
    assert(trim(line) == line);
    lemma_count_none(name, ',');
    lemma_count_none(digits, ',');
    lemma_count_concat(name, seq![','], ',');
    assert(count_char(seq![','], ',') == 1) by {
        assert(seq![','].drop_last() =~= Seq::<char>::empty());
        assert(count_char(Seq::<char>::empty(), ',') == 0);
    }
    assert(name + seq![','] =~= name.push(','));
    lemma_count_concat(name.push(','), digits, ',');
    lemma_first_index_after(name, digits, ',');
    assert(line.take(name.len() as int) =~= name);
    assert(line.skip(name.len() as int + 1) =~= digits);
    lemma_parse_int_decimal(v);
}

/// Reading lines stops for good at the first line whose payment overflows.
proof fn lemma_load_lines_stays_none(lines: Seq<Seq<char>>, k: int)
    requires
        0 <= k <= lines.len(),
        load_lines(lines.take(k)) is None,
    ensures
        load_lines(lines) is None,
    decreases lines.len() - k,
{
    if k < lines.len() {
        assert(lines.take(k + 1).drop_last() =~= lines.take(k));
        lemma_load_lines_stays_none(lines, k + 1);
    } else {
        assert(lines.take(k) =~= lines);
    }
}

/// Reading back the lines written for accounts with distinct, safe names gives those
/// accounts again.
pub proof fn law_lines_round_trip(rows: Seq<Row>)
    requires
        keys_distinct(rows),
        forall|i: int| 0 <= i < rows.len() ==> csv_safe_name(#[trigger] rows[i].0),
    ensures
        load_lines(csv_lines(rows)) == Some(rows_map(rows)),
    decreases rows.len(),
{
    if rows.len() > 0 {
        let dl = rows.drop_last();
        let row = rows.last();
        lemma_drop_last_distinct(rows);
        assert forall|i: int| 0 <= i < dl.len() implies csv_safe_name(#[trigger] dl[i].0) by {
            assert(dl[i] == rows[i]);
        }
        law_lines_round_trip(dl);
        assert(csv_lines(rows).drop_last() =~= csv_lines(dl));
        assert(csv_lines(rows).last() == csv_line(row));
        assert(csv_safe_name(rows[rows.len() - 1].0));
        lemma_parse_csv_line(row);
        lemma_rows_map_dom(dl, row.0);
        let m = rows_map(dl);
        assert(with_user(m, row.0) == m.insert(row.0, 0));
        assert(deposited(m.insert(row.0, 0), row.0, row.1) =~= m.insert(row.0, row.1));
    } else {
        assert(csv_lines(rows) =~= Seq::<Seq<char>>::empty());
    }
}

/// Counts the commas in `s[from..to]`, and finds the first.
fn scan_commas(s: &Vec<char>, from: usize, to: usize) -> (r: (usize, usize))
    requires
        from <= to <= s.len(),
    ensures
        r.0 == count_char(s@.subrange(from as int, to as int), ','),
        r.0 > 0 ==> from <= r.1 < to && r.1 == from + first_index(
            s@.subrange(from as int, to as int),
            ',',
        ),
{
    let ghost t = s@.subrange(from as int, to as int);
    let mut count: usize = 0;
    let mut first: usize = 0;
    let mut i: usize = from;
    assert(t.take(0) =~= Seq::<char>::empty());
    while i < to
        invariant
            from <= i <= to <= s.len(),
            t == s@.subrange(from as int, to as int),
            count == count_char(t.take(i - from), ','),
            count <= i - from,
            count > 0 ==> from <= first < i && first == from + first_index(t.take(i - from), ','),
            count == 0 ==> first_index(t.take(i - from), ',') == -1,
        decreases to - i,
    {
        proof {
            assert(t.take(i - from + 1).drop_last() =~= t.take(i - from));
            assert(t.take(i - from + 1).last() == s@[i as int]);
        }
        if s[i] == ',' {
            if count == 0 {
                first = i;
            }
            count = count + 1;
        }
        i = i + 1;
    }
    assert(t.take(i - from) =~= t);
    (count, first)
}

/// The characters `s[from..to]` as a `String`.
fn string_of_range(s: &Vec<char>, from: usize, to: usize) -> (r: String)
    requires
        from <= to <= s.len(),
    ensures
        r@ == s@.subrange(from as int, to as int),
{
    let mut r = String::new();
    push_chars(&mut r, s, from, to);
    assert(r@ =~= s@.subrange(from as int, to as int));
    r
}

/// The account that `line` describes, when it describes one.
pub fn read_line(line: &String) -> (r: Option<(Name, Balance)>)
    ensures
        match r {
            Some((name, amount)) => parse_line(line@) == Some((name@, amount)),
            None => parse_line(line@) is None,
        },
{
    let chars = chars_of(line);
    let (start, end) = trim_bounds(&chars);
    let ghost t = chars@.subrange(start as int, end as int);
    let (commas, comma) = scan_commas(&chars, start, end);
    if commas != 1 {
        return None;
    }
    let name = string_of_range(&chars, start, comma);
    assert(name@ =~= t.take(comma - start));
    assert(chars@.subrange(comma + 1, end as int) =~= t.skip(comma - start + 1));
    let amount = match parse_i64_range(&chars, comma + 1, end) {
        Some(v) => v,
        None => 0,
    };
    Some((name, amount))
}

/// The balances of a bank opened with the accounts John, Alice, Bob and Vasya, all at zero.
pub open spec fn default_users() -> Map<Seq<char>, i64> {
    Map::empty().insert("John"@, 0i64).insert("Alice"@, 0i64).insert("Bob"@, 0i64).insert(
        "Vasya"@,
        0i64,
    )
}

impl Storage {
    /// A bank with the accounts John, Alice, Bob and Vasya, all at zero: what one starts
    /// with when there is no saved file.
    pub fn with_default_users() -> (s: Storage)
        ensures
            s@ == default_users(),
    {
        broadcast use vstd::string::to_string_from_display_ensures_for_str;

        proof {
            reveal_strlit("John");
            reveal_strlit("Alice");
            reveal_strlit("Bob");
            reveal_strlit("Vasya");
        }
        let mut s = Storage::new();
        s.add_user("John".to_string());
        s.add_user("Alice".to_string());
        s.add_user("Bob".to_string());
        s.add_user("Vasya".to_string());
        s
    }

    /// Reads accounts from lines of the form `name,balance`, one after the other, into an
    /// empty bank. A line is trimmed first; a line that then has not exactly one comma is
    /// skipped; a balance that is no `i64` counts as zero; a name met again has the new
    /// balance paid into its account. `None` when such a payment overflows `i64`.
    pub fn from_csv_lines(lines: &Vec<String>) -> (r: Option<Storage>)
        ensures
            match r {
                Some(s) => load_lines(lines_view(lines@)) == Some(s@),
                None => load_lines(lines_view(lines@)) is None,
            },
    {
        let ghost all = lines_view(lines@);
        let mut storage = Storage::new();
        let mut i: usize = 0;
        assert(all.take(0) =~= Seq::<Seq<char>>::empty());
        while i < lines.len()
            invariant
                0 <= i <= lines.len(),
                all == lines_view(lines@),
                load_lines(all.take(i as int)) == Some(storage@),
            decreases lines.len() - i,
        {
            proof {
                assert(all.take(i + 1).drop_last() =~= all.take(i as int));
                assert(all.take(i + 1).last() == lines@[i as int]@);
            }
            match read_line(&lines[i]) {
                Some((name, amount)) => {
                    storage.add_user(name.clone());
                    let current = match storage.get_balance(&name) {
                        Some(b) => b,
                        None => 0,
                    };
                    if current.checked_add(amount).is_none() {
                        proof {
                            lemma_load_lines_stays_none(all, i + 1);
                        }
                        return None;
                    }
                    let _ = storage.deposit(&name, amount);
                },
                None => {},
            }
            i = i + 1;
        }
        assert(all.take(i as int) =~= all);
        Some(storage)
    }

    /// The accounts as text: one line `name,balance` per account, each followed by a newline.
    pub fn to_csv(&self) -> (r: String)
        ensures
            exists|rows: Seq<Row>|
                {
                    &&& keys_distinct(rows)
                    &&& rows_map(rows) == self@
                    &&& r@ == csv_text(rows)
                },
    {
        let all = self.get_all();
        let ghost rows = all@.map_values(|p: (Name, Balance)| (p.0@, p.1));
        let mut out = String::new();
        let mut i: usize = 0;
        assert(rows.take(0) =~= Seq::<Row>::empty());
        while i < all.len()
            invariant
                0 <= i <= all.len(),
                rows == all@.map_values(|p: (Name, Balance)| (p.0@, p.1)),
                out@ == csv_text(rows.take(i as int)),
            decreases all.len() - i,
        {
            let name = chars_of(&all[i].0);
            push_chars(&mut out, &name, 0, name.len());
            push_char(&mut out, ',');
            push_i64(&mut out, all[i].1);
            push_char(&mut out, '\n');
            proof {
                assert(name@.subrange(0, name@.len() as int) =~= rows[i as int].0);
                assert(rows.take(i + 1).drop_last() =~= rows.take(i as int));
                assert(out@ =~= csv_text(rows.take(i + 1)));
            }
            i = i + 1;
        }
        assert(rows.take(i as int) =~= rows);
        out
    }
}

} // verus!
