//! The list of shapes to cut, as the user edits it: rows are added with
//! fresh ids, a row added without a name is named after its id, and the
//! list can be filled with an example or from imported text.

use vstd::prelude::*;
use vstd::string::*;
use crate::shape_entry::ShapeEntry;
use crate::import::{parse_import, import_rows, row_views};

verus! {

/// The character of the decimal digit `d`.
pub open spec fn digit_char(d: int) -> char {
    (48 + d) as char
}

/// `n` written in decimal, without leading zeros.
pub open spec fn decimal_text(n: nat) -> Seq<char>
    decreases n,
{
    if n < 10 {
        seq![digit_char(n as int)]
    } else {
        decimal_text(n / 10).push(digit_char((n % 10) as int))
    }
}

/// The name a row gets when it is added without one.
pub open spec fn default_name(id: nat) -> Seq<char> {
    "图形"@ + decimal_text(id)
}

/// The text of one decimal digit.
fn digit_str(d: usize) -> (r: &'static str)
    requires
        d < 10,
    ensures
        r@ == seq![digit_char(d as int)],
{
    proof {
        reveal_strlit("0");
        reveal_strlit("1");
        reveal_strlit("2");
        reveal_strlit("3");
        reveal_strlit("4");
        reveal_strlit("5");
        reveal_strlit("6");
        reveal_strlit("7");
        reveal_strlit("8");
        reveal_strlit("9");
    }
    let r = match d {
        0 => "0",
        1 => "1",
        2 => "2",
        3 => "3",
        4 => "4",
        5 => "5",
        6 => "6",
        7 => "7",
        8 => "8",
        _ => "9",
    };
    assert(r@ =~= seq![digit_char(d as int)]);
    r
}

/// Appends `n` in decimal to `s`.
fn append_decimal(s: String, n: usize) -> (r: String)
    ensures
        r@ == s@ + decimal_text(n as nat),
    decreases n,
{
    if n < 10 {
        s.concat(digit_str(n))
    } else {
        let t = append_decimal(s, n / 10);
        let r = t.concat(digit_str(n % 10));
        assert(r@ =~= s@ + decimal_text(n as nat));
        r
    }
}

/// The name a row gets when it is added without one: `图形` and its id.
pub fn default_shape_name(id: usize) -> (r: String)
    ensures
        r@ == default_name(id as nat),
{
    append_decimal(String::from_str("图形"), id)
}

/// The row `add_shape` makes.
pub open spec fn new_entry(id: usize, name: Seq<char>, w: Seq<char>, h: Seq<char>) -> (usize, Seq<char>, Seq<char>, Seq<char>) {
    (id, if name.len() == 0 { default_name(id as nat) } else { name }, w, h)
}

/// The texts of a row.
pub open spec fn entry_view(e: ShapeEntry) -> (usize, Seq<char>, Seq<char>, Seq<char>) {
    (e.id, e.name@, e.w@, e.h@)
}

/// The texts of every row.
pub open spec fn entry_views(es: Seq<ShapeEntry>) -> Seq<(usize, Seq<char>, Seq<char>, Seq<char>)> {
    es.map_values(|e: ShapeEntry| entry_view(e))
}

/// The rows of the example cabinet, as (name, width, height).
pub open spec fn example_rows() -> Seq<(Seq<char>, Seq<char>, Seq<char>)> {
    seq![
        ("门板A"@, "800"@, "2000"@),
        ("门板B"@, "800"@, "2000"@),
        ("侧板L"@, "600"@, "2200"@),
        ("侧板R"@, "600"@, "2200"@),
        ("顶板"@, "1000"@, "600"@),
        ("底板"@, "1000"@, "600"@),
        ("抽屉面A"@, "400"@, "280"@),
        ("抽屉面B"@, "400"@, "280"@),
        ("搁板1"@, "900"@, "250"@),
        ("搁板2"@, "900"@, "250"@),
        ("搁板3"@, "500"@, "250"@),
        ("背板"@, "980"@, "2180"@),
    ]
}

/// The rows that adding `rows` one after the other makes, the first with
/// id `first`.
pub open spec fn added_entries(first: usize, rows: Seq<(Seq<char>, Seq<char>, Seq<char>)>) -> Seq<
    (usize, Seq<char>, Seq<char>, Seq<char>),
> {
    Seq::new(rows.len(), |k: int| new_entry((first + k) as usize, rows[k].0, rows[k].1, rows[k].2))
}

/// Every row's id is below `next_id`, and no two rows share an id.
pub open spec fn ids_fresh(shapes: Seq<ShapeEntry>, next_id: usize) -> bool {
    &&& forall|i: int| 0 <= i < shapes.len() ==> (#[trigger] shapes[i]).id < next_id
    &&& forall|i: int, j: int| 0 <= i < shapes.len() && 0 <= j < shapes.len() && i != j ==> shapes[i].id != shapes[j].id
}

/// `s` with the rows at `i` and `i + 1` exchanged.
pub open spec fn swap_next<T>(s: Seq<T>, i: int) -> Seq<T> {
    s.update(i, s[i + 1]).update(i + 1, s[i])
}

/// The shapes to cut and the id the next added row gets.
pub struct ShapeList {
    pub shapes: Vec<ShapeEntry>,
    pub next_id: usize,
}

impl ShapeList {
    /// No rows; the first row added gets id 1.
    pub fn new() -> (l: Self)
        ensures
            l.shapes@.len() == 0,
            l.next_id == 1,
            ids_fresh(l.shapes@, l.next_id),
    {
        ShapeList { shapes: Vec::new(), next_id: 1 }
    }

    /// Adds a row with the next id; a row without a name is named after its
    /// id.
    pub fn add_shape(&mut self, name: &str, w: &str, h: &str)
        requires
            old(self).next_id < usize::MAX,
        ensures
            final(self).next_id == old(self).next_id + 1,
            entry_views(final(self).shapes@) == entry_views(old(self).shapes@).push(
                new_entry(old(self).next_id, name@, w@, h@),
            ),
            ids_fresh(old(self).shapes@, old(self).next_id) ==> ids_fresh(final(self).shapes@, final(self).next_id),
    {
        let id = self.next_id;
        self.next_id = self.next_id + 1;
        let name = if name.unicode_len() == 0 {
            default_shape_name(id)
        } else {
            String::from_str(name)
        };
        let ghost old_shapes = self.shapes@;
        self.shapes.push(ShapeEntry { id, name, w: String::from_str(w), h: String::from_str(h) });
        assert(entry_views(self.shapes@) =~= entry_views(old_shapes).push(new_entry(id, name@, w@, h@)));
        assert forall|i: int| 0 <= i < old_shapes.len() implies self.shapes@[i] == old_shapes[i] by {}
    }

    /// Adds the rows, one after the other, and returns how many there were.
    pub fn add_rows(&mut self, rows: &Vec<(String, String, String)>) -> (count: usize)
        requires
            old(self).next_id + rows@.len() < usize::MAX,
        ensures
            count == rows@.len(),
            final(self).next_id == old(self).next_id + rows@.len(),
            entry_views(final(self).shapes@) == entry_views(old(self).shapes@) + added_entries(
                old(self).next_id,
                row_views(rows@),
            ),
            ids_fresh(old(self).shapes@, old(self).next_id) ==> ids_fresh(final(self).shapes@, final(self).next_id),
    {
        let ghost fresh0 = ids_fresh(self.shapes@, self.next_id);
        let ghost first = self.next_id;
        let ghost before = entry_views(self.shapes@);
        let n = rows.len();
        for k in 0..n
            invariant
                n == rows@.len(),
                first + n < usize::MAX,
                self.next_id == first + k,
                entry_views(self.shapes@) == before + added_entries(first, row_views(rows@)).take(k as int),
                fresh0 ==> ids_fresh(self.shapes@, self.next_id),
        {
            let r = &rows[k];
            let ghost shapes0 = entry_views(self.shapes@);
            self.add_shape(r.0.as_str(), r.1.as_str(), r.2.as_str());
            assert(added_entries(first, row_views(rows@)).take(k + 1) =~= added_entries(first, row_views(rows@)).take(
                k as int,
            ).push(new_entry((first + k) as usize, r.0@, r.1@, r.2@)));
            assert(entry_views(self.shapes@) =~= before + added_entries(first, row_views(rows@)).take(k + 1));
        }
        assert(added_entries(first, row_views(rows@)).take(n as int) =~= added_entries(first, row_views(rows@)));
        n
    }

    /// Adds the shapes that a text describes, one per line, and returns how
    /// many there were.
    pub fn import_text(&mut self, text: &str) -> (count: usize)
        requires
            old(self).next_id + import_rows(text@).len() < usize::MAX,
        ensures
            count == import_rows(text@).len(),
            final(self).next_id == old(self).next_id + count,
            entry_views(final(self).shapes@) == entry_views(old(self).shapes@) + added_entries(
                old(self).next_id,
                import_rows(text@),
            ),
            ids_fresh(old(self).shapes@, old(self).next_id) ==> ids_fresh(final(self).shapes@, final(self).next_id),
    {
        let rows = parse_import(text);
        proof {
            assert(row_views(rows@).len() == rows@.len());
        }
        self.add_rows(&rows)
    }

    /// Removes the row at `i`, when there is one.
    pub fn remove_at(&mut self, i: usize)
        ensures
            final(self).next_id == old(self).next_id,
            final(self).shapes@ == if i < old(self).shapes@.len() {
                old(self).shapes@.remove(i as int)
            } else {
                old(self).shapes@
            },
            ids_fresh(old(self).shapes@, old(self).next_id) ==> ids_fresh(final(self).shapes@, final(self).next_id),
    {
        let ghost s0 = self.shapes@;
        if i < self.shapes.len() {
            self.shapes.remove(i);
            proof {
                let s1 = self.shapes@;
                assert forall|a: int| 0 <= a < s1.len() implies #[trigger] s1[a] == s0[if a < i { a } else { a + 1 }] by {}
            }
        }
    }

    /// Moves the row at `i` one place up, when there is a row above it.
    pub fn move_up(&mut self, i: usize)
        ensures
            final(self).next_id == old(self).next_id,
            final(self).shapes@ == if 0 < i < old(self).shapes@.len() {
                swap_next(old(self).shapes@, i - 1)
            } else {
                old(self).shapes@
            },
            ids_fresh(old(self).shapes@, old(self).next_id) ==> ids_fresh(final(self).shapes@, final(self).next_id),
    {
        if 0 < i && i < self.shapes.len() {
            self.swap_with_next(i - 1);
        }
    }

    /// Moves the row at `i` one place down, when there is a row below it.
    pub fn move_down(&mut self, i: usize)
        ensures
            final(self).next_id == old(self).next_id,
            final(self).shapes@ == if i + 1 < old(self).shapes@.len() {
                swap_next(old(self).shapes@, i as int)
            } else {
                old(self).shapes@
            },
            ids_fresh(old(self).shapes@, old(self).next_id) ==> ids_fresh(final(self).shapes@, final(self).next_id),
    {
        if i < self.shapes.len() && i + 1 < self.shapes.len() {
            self.swap_with_next(i);
        }
    }

    /// Exchanges the rows at `i` and `i + 1`.
    fn swap_with_next(&mut self, i: usize)
        requires
            i + 1 < old(self).shapes@.len(),
        ensures
            final(self).next_id == old(self).next_id,
            final(self).shapes@ == swap_next(old(self).shapes@, i as int),
            ids_fresh(old(self).shapes@, old(self).next_id) ==> ids_fresh(final(self).shapes@, final(self).next_id),
    {
        let ghost s0 = self.shapes@;
        let _n = self.shapes.len();  // bounds `i + 1` by the length
        let e = self.shapes.remove(i + 1);
        self.shapes.insert(i, e);
        assert(self.shapes@ =~= swap_next(s0, i as int));
        proof {
            let s1 = self.shapes@;
            let src = |a: int| if a == i { i + 1 } else if a == i + 1 { i as int } else { a };
            assert forall|a: int| 0 <= a < s1.len() implies #[trigger] s1[a] == s0[src(a)] by {}
            if ids_fresh(s0, self.next_id) {
                assert forall|a: int, b: int| 0 <= a < s1.len() && 0 <= b < s1.len() && a != b implies s1[a].id
                    != s1[b].id by {
                    assert(s1[a] == s0[src(a)] && s1[b] == s0[src(b)]);
                }
            }
        }
    }

    /// Removes every row; the ids already given stay used.
    pub fn clear(&mut self)
        ensures
            final(self).next_id == old(self).next_id,
            final(self).shapes@.len() == 0,
            ids_fresh(final(self).shapes@, final(self).next_id),
    {
        self.shapes.clear();
    }

    /// Replaces the rows by the example cabinet, with ids from 1, and gives
    /// the example board's length and width.
    pub fn load_example(&mut self) -> (board: (&'static str, &'static str))
        ensures
            final(self).next_id == 13,
            entry_views(final(self).shapes@) == added_entries(1, example_rows()),
            ids_fresh(final(self).shapes@, final(self).next_id),
            board.0@ == "2440"@,
            board.1@ == "1220"@,
    {
        proof {
            reveal_strlit("门板A");
            reveal_strlit("门板B");
            reveal_strlit("侧板L");
            reveal_strlit("侧板R");
            reveal_strlit("顶板");
            reveal_strlit("底板");
            reveal_strlit("抽屉面A");
            reveal_strlit("抽屉面B");
            reveal_strlit("搁板1");
            reveal_strlit("搁板2");
            reveal_strlit("搁板3");
            reveal_strlit("背板");
        }
        self.shapes = Vec::new();
        self.next_id = 1;
        self.add_shape("门板A", "800", "2000");
        self.add_shape("门板B", "800", "2000");
        self.add_shape("侧板L", "600", "2200");
        self.add_shape("侧板R", "600", "2200");
        self.add_shape("顶板", "1000", "600");
        self.add_shape("底板", "1000", "600");
        self.add_shape("抽屉面A", "400", "280");
        self.add_shape("抽屉面B", "400", "280");
        self.add_shape("搁板1", "900", "250");
        self.add_shape("搁板2", "900", "250");
        self.add_shape("搁板3", "500", "250");
        self.add_shape("背板", "980", "2180");
        assert(entry_views(self.shapes@) =~= added_entries(1, example_rows()));
        ("2440", "1220")
    }
}

} // verus!
