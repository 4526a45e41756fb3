//! The plain-text shape list: one shape per line, as `name,width,height`
//! or `width,height`, with the fields separated by `,`, `;` or tabs. Blank
//! lines and lines starting with `#` are skipped, spaces around lines and
//! fields are ignored, empty fields are dropped, fields after the third
//! are ignored, and a line with fewer than two fields is skipped.

use vstd::prelude::*;
use vstd::string::*;

verus! {

broadcast use vstd::string::group_string_axioms;

/// `c` is white space, as Rust's `char::is_whitespace` defines it.
pub open spec fn is_space(c: char) -> bool {
    ||| c == '\t'
    ||| c == '\n'
    ||| c == '\u{0B}'
    ||| c == '\u{0C}'
    ||| c == '\r'
    ||| c == ' '
    ||| c == '\u{85}'
    ||| c == '\u{A0}'
    ||| c == '\u{1680}'
    ||| ('\u{2000}' <= c && c <= '\u{200A}')
    ||| c == '\u{2028}'
    ||| c == '\u{2029}'
    ||| c == '\u{202F}'
    ||| c == '\u{205F}'
    ||| c == '\u{3000}'
}

/// Whether `c` is white space.
pub fn is_space_char(c: char) -> (r: bool)
    ensures
        r == is_space(c),
{
    c == '\t' || c == '\n' || c == '\u{0B}' || c == '\u{0C}' || c == '\r' || c == ' ' || c == '\u{85}' || c
        == '\u{A0}' || c == '\u{1680}' || ('\u{2000}' <= c && c <= '\u{200A}') || c == '\u{2028}' || c
        == '\u{2029}' || c == '\u{202F}' || c == '\u{205F}' || c == '\u{3000}'
}

/// The character that ends a line.
pub open spec fn line_breaks() -> Set<char> {
    set!['\n']
}

/// The characters that end a field.
pub open spec fn field_breaks() -> Set<char> {
    set![',', ';', '\t']
}

/// The pieces of `s` between the separators, in order; a separator at
/// either end gives an empty piece there.
pub open spec fn split_on(s: Seq<char>, seps: Set<char>) -> Seq<Seq<char>>
    decreases s.len(),
{
    if s.len() == 0 {
        seq![Seq::empty()]
    } else {
        let r = split_on(s.drop_last(), seps);
        if seps.contains(s.last()) {
            r.push(Seq::empty())
        } else {
            r.update(r.len() - 1, r.last().push(s.last()))
        }
    }
}

/// The number of white-space characters at the start of `s`.
pub open spec fn lead_spaces(s: Seq<char>) -> int
    decreases s.len(),
{
    if s.len() > 0 && is_space(s[0]) {
        1 + lead_spaces(s.drop_first())
    } else {
        0
    }
}

/// The number of white-space characters at the end of `s`.
pub open spec fn trail_spaces(s: Seq<char>) -> int
    decreases s.len(),
{
    if s.len() > 0 && is_space(s.last()) {
        1 + trail_spaces(s.drop_last())
    } else {
        0
    }
}

/// `s` without white space at either end.
pub open spec fn trimmed(s: Seq<char>) -> Seq<char> {
    if lead_spaces(s) >= s.len() {
        Seq::empty()
    } else {
        s.subrange(lead_spaces(s), s.len() - trail_spaces(s))
    }
}

/// The pieces, trimmed, that are not empty.
pub open spec fn kept_fields(pieces: Seq<Seq<char>>) -> Seq<Seq<char>>
    decreases pieces.len(),
{
    if pieces.len() == 0 {
        Seq::empty()
    } else {
        kept_fields(pieces.drop_last()) + if trimmed(pieces.last()).len() > 0 {
            seq![trimmed(pieces.last())]
        } else {
            Seq::empty()
        }
    }
}

/// The non-empty fields of a line, trimmed.
pub open spec fn line_fields(line: Seq<char>) -> Seq<Seq<char>> {
    kept_fields(split_on(trimmed(line), field_breaks()))
}

/// The shape a line describes, as (name, width, height); the name is empty
/// for a line of two fields.
pub open spec fn line_row(line: Seq<char>) -> Option<(Seq<char>, Seq<char>, Seq<char>)> {
    let t = trimmed(line);
    let f = line_fields(line);
    if t.len() == 0 || t[0] == '#' {
        None
    } else if f.len() >= 3 {
        Some((f[0], f[1], f[2]))
    } else if f.len() == 2 {
        Some((Seq::empty(), f[0], f[1]))
    } else {
        None
    }
}

/// The shapes that a sequence of lines describes, in order.
pub open spec fn rows_of_lines(lines: Seq<Seq<char>>) -> Seq<(Seq<char>, Seq<char>, Seq<char>)>
    decreases lines.len(),
{
    if lines.len() == 0 {
        Seq::empty()
    } else {
        rows_of_lines(lines.drop_last()) + match line_row(lines.last()) {
            Some(r) => seq![r],
            None => Seq::empty(),
        }
    }
}

/// The shapes that a text describes, in order.
pub open spec fn import_rows(text: Seq<char>) -> Seq<(Seq<char>, Seq<char>, Seq<char>)> {
    rows_of_lines(split_on(text, line_breaks()))
}

/// The rows' texts.
pub open spec fn row_views(rows: Seq<(String, String, String)>) -> Seq<(Seq<char>, Seq<char>, Seq<char>)> {
    rows.map_values(|r: (String, String, String)| (r.0@, r.1@, r.2@))
}

/// Adding one character to the text either starts a new piece or extends
/// the last one.
proof fn lemma_split_step(s: Seq<char>, seps: Set<char>, i: int, done: Seq<Seq<char>>, from: int)
    requires
        0 <= from <= i < s.len(),
        split_on(s.take(i), seps) == done.push(s.subrange(from, i)),
    ensures
        seps.contains(s[i]) ==> split_on(s.take(i + 1), seps) == done.push(s.subrange(from, i)).push(
            s.subrange(i + 1, i + 1),
        ),
        !seps.contains(s[i]) ==> split_on(s.take(i + 1), seps) == done.push(s.subrange(from, i + 1)),
{
    assert(s.take(i + 1).drop_last() =~= s.take(i));
    assert(s.take(i + 1).last() == s[i]);
    assert(s.subrange(i + 1, i + 1) =~= Seq::<char>::empty());
    assert(s.subrange(from, i).push(s[i]) =~= s.subrange(from, i + 1));
    assert(done.push(s.subrange(from, i)).update(done.len() as int, s.subrange(from, i + 1)) =~= done.push(
        s.subrange(from, i + 1),
    ));
}

/// Counting leading white space.
proof fn lemma_lead(s: Seq<char>, a: int)
    requires
        0 <= a <= s.len(),
        forall|j: int| 0 <= j < a ==> is_space(#[trigger] s[j]),
        a < s.len() ==> !is_space(s[a]),
    ensures
        lead_spaces(s) == a,
    decreases a,
{
    if a > 0 {
        lemma_lead(s.drop_first(), a - 1);
    }
}

/// Counting trailing white space.
proof fn lemma_trail(s: Seq<char>, t: int)
    requires
        0 <= t <= s.len(),
        forall|j: int| s.len() - t <= j < s.len() ==> is_space(#[trigger] s[j]),
        t < s.len() ==> !is_space(s[s.len() - 1 - t]),
    ensures
        trail_spaces(s) == t,
    decreases t,
{
    if t > 0 {
        lemma_trail(s.drop_last(), t - 1);
    }
}

/// The characters of a text.
fn text_chars(text: &str) -> (cs: Vec<char>)
    ensures
        cs@ == text@,
{
    let n = text.unicode_len();
    let mut cs: Vec<char> = Vec::new();
    for i in 0..n
        invariant
            n == text@.len(),
            cs@ == text@.take(i as int),
    {
        cs.push(text.get_char(i));
        assert(cs@ =~= text@.take(i + 1));
    }
    assert(text@.take(n as int) =~= text@);
    cs
}

/// The stretch `lo..hi` of the characters without white space at either
/// end, as `a..b`.
fn trim_range(cs: &Vec<char>, lo: usize, hi: usize) -> (r: (usize, usize))
    requires
        lo <= hi <= cs@.len(),
    ensures
        lo <= r.0 <= r.1 <= hi,
        cs@.subrange(r.0 as int, r.1 as int) == trimmed(cs@.subrange(lo as int, hi as int)),
{
    let ghost s = cs@.subrange(lo as int, hi as int);
    let mut a = lo;
    while a < hi && is_space_char(cs[a])
        invariant
            lo <= a <= hi <= cs@.len(),
            s == cs@.subrange(lo as int, hi as int),
            forall|j: int| 0 <= j < a - lo ==> is_space(#[trigger] s[j]),
        decreases hi - a,
    {
        a = a + 1;
    }
    proof {
        lemma_lead(s, a - lo);
    }
    if a == hi {
        assert(cs@.subrange(a as int, a as int) =~= Seq::<char>::empty());
        return (a, a);
    }
    let mut b = hi;
    while b > a && is_space_char(cs[b - 1])
        invariant
            lo <= a < b <= hi <= cs@.len(),
            !is_space(cs@[a as int]),
            s == cs@.subrange(lo as int, hi as int),
            forall|j: int| b - lo <= j < hi - lo ==> is_space(#[trigger] s[j]),
        decreases b,
    {
        b = b - 1;
    }
    proof {
        assert(b > a) by {
            if b == a {
                assert(!is_space(s[a - lo]));
            }
        }
        lemma_trail(s, (hi - b) as int);
    }
    assert(cs@.subrange(a as int, b as int) =~= s.subrange(a - lo, s.len() - (hi - b)));
    (a, b)
}

/// The non-empty trimmed fields of the trimmed line `a..b`, as stretches
/// of the characters.
fn field_ranges(cs: &Vec<char>, a: usize, b: usize) -> (r: Vec<(usize, usize)>)
    requires
        a <= b <= cs@.len(),
    ensures
        r@.len() == kept_fields(split_on(cs@.subrange(a as int, b as int), field_breaks())).len(),
        forall|k: int|
            0 <= k < r@.len() ==> (#[trigger] r@[k]).0 <= r@[k].1 <= b && cs@.subrange(r@[k].0 as int, r@[k].1 as int)
                == kept_fields(split_on(cs@.subrange(a as int, b as int), field_breaks()))[k],
{
    let ghost s = cs@.subrange(a as int, b as int);
    let ghost seps = field_breaks();
    let ghost mut done: Seq<Seq<char>> = Seq::empty();
    let mut r: Vec<(usize, usize)> = Vec::new();
    let mut from = a;
    let mut i = a;
    assert(s.take(0) =~= Seq::<char>::empty());
    assert(split_on(s.take(0), seps) =~= done.push(s.subrange(0, 0)));
    while i < b
        invariant
            a <= from <= i <= b <= cs@.len(),
            s == cs@.subrange(a as int, b as int),
            seps == field_breaks(),
            split_on(s.take(i - a), seps) == done.push(s.subrange(from - a, i - a)),
            r@.len() == kept_fields(done).len(),
            forall|k: int|
                0 <= k < r@.len() ==> (#[trigger] r@[k]).0 <= r@[k].1 <= b && cs@.subrange(
                    r@[k].0 as int,
                    r@[k].1 as int,
                ) == kept_fields(done)[k],
        decreases b - i,
    {
        let c = cs[i];
        assert(s[i - a] == c);
        proof {
            lemma_split_step(s, seps, i - a, done, from - a);
        }
        if c == ',' || c == ';' || c == '\t' {
            assert(seps.contains(c));
            let (x, y) = trim_range(cs, from, i);
            let ghost piece = s.subrange(from - a, i - a);
            assert(cs@.subrange(from as int, i as int) =~= piece);
            let ghost kd = kept_fields(done);
            let ghost r0 = r@;
            if x < y {
                r.push((x, y));
            }
            proof {
                let d2 = done.push(piece);
                assert(d2.drop_last() =~= done);
                assert(kept_fields(d2) == kd + if trimmed(piece).len() > 0 {
                    seq![trimmed(piece)]
                } else {
                    Seq::empty()
                });
                assert forall|k: int| 0 <= k < r@.len() implies (#[trigger] r@[k]).0 <= r@[k].1 <= b && cs@.subrange(
                    r@[k].0 as int,
                    r@[k].1 as int,
                ) == kept_fields(d2)[k] by {
                    if k < r0.len() {
                        assert(r@[k] == r0[k]);
                    }
                }
                done = d2;
            }
            from = i + 1;
        } else {
            assert(!seps.contains(c));
        }
        i = i + 1;
    }
    assert(s.take(b - a) =~= s);
    let (x, y) = trim_range(cs, from, b);
    let ghost piece = s.subrange(from - a, b - a);
    assert(cs@.subrange(from as int, b as int) =~= piece);
    let ghost kd = kept_fields(done);
    let ghost r0 = r@;
    if x < y {
        r.push((x, y));
    }
    proof {
        let d2 = done.push(piece);
        assert(d2.drop_last() =~= done);
        assert forall|k: int| 0 <= k < r@.len() implies (#[trigger] r@[k]).0 <= r@[k].1 <= b && cs@.subrange(
            r@[k].0 as int,
            r@[k].1 as int,
        ) == kept_fields(d2)[k] by {
            if k < r0.len() {
                assert(r@[k] == r0[k]);
            }
        }
    }
    r
}

/// The shape that the line `lo..hi` describes, if any.
fn read_line(text: &str, cs: &Vec<char>, lo: usize, hi: usize) -> (r: Option<(String, String, String)>)
    requires
        cs@ == text@,
        lo <= hi <= cs@.len(),
    ensures
        match r {
            Some(t) => line_row(cs@.subrange(lo as int, hi as int)) == Some((t.0@, t.1@, t.2@)),
            None => line_row(cs@.subrange(lo as int, hi as int)) is None,
        },
{
    let ghost line = cs@.subrange(lo as int, hi as int);
    let (a, b) = trim_range(cs, lo, hi);
    if a == b || cs[a] == '#' {
        return None;
    }
    assert(trimmed(line)[0] == cs@[a as int]);
    let f = field_ranges(cs, a, b);
    let ghost lf = line_fields(line);
    if f.len() >= 2 {
        let (x0, y0) = f[0];
        let (x1, y1) = f[1];
        let s0 = String::from_str(text.substring_char(x0, y0));
        let s1 = String::from_str(text.substring_char(x1, y1));
        if f.len() >= 3 {
            let (x2, y2) = f[2];
            let s2 = String::from_str(text.substring_char(x2, y2));
            assert(s0@ == lf[0] && s1@ == lf[1] && s2@ == lf[2]);
            Some((s0, s1, s2))
        } else {
            assert(s0@ == lf[0] && s1@ == lf[1]);
            let e = String::new();
            Some((e, s0, s1))
        }
    } else {
        None
    }
}

/// The shapes that a text describes, one per line, as (name, width,
/// height); the name is empty for a line of two fields.
pub fn parse_import(text: &str) -> (rows: Vec<(String, String, String)>)
    ensures
        row_views(rows@) == import_rows(text@),
{
    let cs = text_chars(text);
    let n = cs.len();
    let ghost s = cs@;
    let ghost seps = line_breaks();
    let ghost mut done: Seq<Seq<char>> = Seq::empty();
    let mut rows: Vec<(String, String, String)> = Vec::new();
    let mut from: usize = 0;
    let mut i: usize = 0;
    assert(s.take(0) =~= Seq::<char>::empty());
    assert(split_on(s.take(0), seps) =~= done.push(s.subrange(0, 0)));
    while i < n
        invariant
            from <= i <= n,
            n == s.len(),
            s == cs@,
            cs@ == text@,
            seps == line_breaks(),
            split_on(s.take(i as int), seps) == done.push(s.subrange(from as int, i as int)),
            row_views(rows@) == rows_of_lines(done),
        decreases n - i,
    {
        let c = cs[i];
        proof {
            lemma_split_step(s, seps, i as int, done, from as int);
        }
        if c == '\n' {
            assert(seps.contains(c));
            let line = read_line(text, &cs, from, i);
            let ghost piece = s.subrange(from as int, i as int);
            let ghost rows0 = rows@;
            match line {
                Some(t) => {
                    rows.push(t);
                },
                None => {},
            }
            proof {
                let d2 = done.push(piece);
                assert(d2.drop_last() =~= done);
                assert(row_views(rows@) =~= rows_of_lines(d2));
                done = d2;
            }
            from = i + 1;
        } else {
            assert(!seps.contains(c));
        }
        i = i + 1;
    }
    assert(s.take(n as int) =~= s);
    let line = read_line(text, &cs, from, n);
    let ghost piece = s.subrange(from as int, n as int);
    match line {
        Some(t) => {
            rows.push(t);
        },
        None => {},
    }
    proof {
        let d2 = done.push(piece);
        assert(d2.drop_last() =~= done);
        assert(row_views(rows@) =~= rows_of_lines(d2));
    }
    rows
}

} // verus!
