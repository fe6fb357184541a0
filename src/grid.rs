use vstd::prelude::*;
use vstd::std_specs::iter::IteratorSpec;

use crate::puzzle::{built_from, Mushikui, ValidationError};

verus! {

broadcast use {vstd::string::axiom_spec_iter, vstd::string::next_postcondition};

/// White space as Unicode defines it (what `char::is_whitespace` tests).
pub open spec fn is_space(c: char) -> bool {
    ||| c == '\t' || c == '\n' || c == '\u{0B}' || c == '\u{0C}' || c == '\r' || c == ' '
    ||| c == '\u{85}' || c == '\u{A0}' || c == '\u{1680}'
    ||| ('\u{2000}' <= c && c <= '\u{200A}')
    ||| c == '\u{2028}' || c == '\u{2029}' || c == '\u{202F}' || c == '\u{205F}' || c == '\u{3000}'
}

/// `s` without its leading white space.
pub open spec fn trim_start(s: Seq<char>) -> Seq<char>
    decreases s.len(),
{
    if s.len() > 0 && is_space(s[0]) {
        trim_start(s.drop_first())
    } else {
        s
    }
}

/// `s` without its trailing white space.
pub open spec fn trim_end(s: Seq<char>) -> Seq<char>
    decreases s.len(),
{
    if s.len() > 0 && is_space(s.last()) {
        trim_end(s.drop_last())
    } else {
        s
    }
}

/// `s` without white space at either end.
pub open spec fn trim(s: Seq<char>) -> Seq<char> {
    trim_end(trim_start(s))
}

/// The pieces of `s` between line feeds: one more than there are line feeds.
pub open spec fn pieces(s: Seq<char>) -> Seq<Seq<char>>
    decreases s.len(),
{
    if s.len() == 0 {
        seq![Seq::empty()]
    } else if s.last() == '\n' {
        pieces(s.drop_last()).push(Seq::empty())
    } else {
        let p = pieces(s.drop_last());
        p.update(p.len() - 1, p.last().push(s.last()))
    }
}

/// The line holds three dashes in a row: it is a rule, not a row of digits.
pub open spec fn is_rule(line: Seq<char>) -> bool {
    exists|i: int| 0 <= i < line.len() - 2 && #[trigger] line[i] == '-' && line[i + 1] == '-' && line[i + 2] == '-'
}

/// The rows of a grid: its lines once the text is trimmed, rules left out,
/// each line trimmed.
pub open spec fn rows_of(lines: Seq<Seq<char>>) -> Seq<Seq<char>>
    decreases lines.len(),
{
    if lines.len() == 0 {
        Seq::empty()
    } else if is_rule(lines.last()) {
        rows_of(lines.drop_last())
    } else {
        rows_of(lines.drop_last()).push(trim(lines.last()))
    }
}

/// The rows of a puzzle written as text: multiplicand, multiplier, one row
/// per partial product, product; lines that hold `---` separate them.
pub open spec fn grid_rows(text: Seq<char>) -> Seq<Seq<char>> {
    let t = trim(text);
    if t.len() == 0 {
        Seq::empty()
    } else {
        rows_of(pieces(t))
    }
}

/// The characters of `s`.
fn chars_of(s: &str) -> (r: Vec<char>)
    ensures
        r@ == s@,
{
    let mut v: Vec<char> = Vec::new();
    let mut it = s.chars();
    loop
        invariant
            v@ + it.remaining() == s@,
            it.decrease() is Some,
        ensures
            v@ == s@,
        decreases it.decrease()->0,
    {
        match it.next() {
            Some(c) => v.push(c),
            None => {
                assert(v@ =~= v@ + it.remaining());
                break;
            },
        }
    }
    v
}

fn is_space_char(c: char) -> (r: bool)
    ensures
        r == is_space(c),
{
    c == '\t' || c == '\n' || c == '\u{0B}' || c == '\u{0C}' || c == '\r' || c == ' ' || c
        == '\u{85}' || c == '\u{A0}' || c == '\u{1680}' || ('\u{2000}' <= c && c <= '\u{200A}')
        || c == '\u{2028}' || c == '\u{2029}' || c == '\u{202F}' || c == '\u{205F}' || c
        == '\u{3000}'
}

proof fn lemma_trim_start(s: Seq<char>, a: int)
    requires
        0 <= a <= s.len(),
        forall|i: int| 0 <= i < a ==> is_space(#[trigger] s[i]),
        a == s.len() || !is_space(s[a]),
    ensures
        trim_start(s) == s.subrange(a, s.len() as int),
    decreases a,
{
    if a == 0 {
        assert(s.subrange(0, s.len() as int) =~= s);
    } else {
        let u = s.drop_first();
        assert forall|i: int| 0 <= i < a - 1 implies is_space(#[trigger] u[i]) by {
            assert(u[i] == s[i + 1]);
        }
        lemma_trim_start(u, a - 1);
        assert(u.subrange(a - 1, u.len() as int) =~= s.subrange(a, s.len() as int));
    }
}

proof fn lemma_trim_end(s: Seq<char>, b: int)
    requires
        0 <= b <= s.len(),
        forall|i: int| b <= i < s.len() ==> is_space(#[trigger] s[i]),
        b == 0 || !is_space(s[b - 1]),
    ensures
        trim_end(s) == s.subrange(0, b),
    decreases s.len() - b,
{
    if b == s.len() {
        assert(s.subrange(0, b) =~= s);
    } else {
        let u = s.drop_last();
        lemma_trim_end(u, b);
        assert(u.subrange(0, b) =~= s.subrange(0, b));
    }
}

/// `s` without white space at either end.
fn trimmed(s: &Vec<char>) -> (r: Vec<char>)
    ensures
        r@ == trim(s@),
{
    let n = s.len();
    let mut a: usize = 0;
    while a < n && is_space_char(s[a])
        invariant
            a <= n == s@.len(),
            forall|i: int| 0 <= i < a ==> is_space(#[trigger] s@[i]),
        decreases n - a,
    {
        a = a + 1;
    }
    proof {
        lemma_trim_start(s@, a as int);
    }
    let ghost t = s@.subrange(a as int, n as int);
    let mut b: usize = n;
    while b > a && is_space_char(s[b - 1])
        invariant
            a <= b <= n == s@.len(),
            forall|i: int| b <= i < n ==> is_space(#[trigger] s@[i]),
        decreases b,
    {
        b = b - 1;
    }
    proof {
        assert forall|i: int| b - a <= i < t.len() implies is_space(#[trigger] t[i]) by {
            assert(t[i] == s@[i + a]);
        }
        lemma_trim_end(t, b - a);
    }
    let mut r: Vec<char> = Vec::new();
    let mut i: usize = a;
    while i < b
        invariant
            a <= i <= b <= n == s@.len(),
            r@ == s@.subrange(a as int, i as int),
        decreases b - i,
    {
        r.push(s[i]);
        i = i + 1;
        assert(r@ =~= s@.subrange(a as int, i as int));
    }
    assert(t.subrange(0, b - a) =~= s@.subrange(a as int, b as int));
    r
}

/// Whether the line holds three dashes in a row.
fn has_rule(line: &Vec<char>) -> (r: bool)
    ensures
        r == is_rule(line@),
{
    let n = line.len();
    if n < 3 {
        return false;
    }
    let mut i: usize = 0;
    while i < n - 2
        invariant
            n == line@.len(),
            n >= 3,
            i <= n - 2,
            forall|k: int|
                0 <= k < i ==> !(#[trigger] line@[k] == '-' && line@[k + 1] == '-' && line@[k + 2]
                    == '-'),
        decreases n - 2 - i,
    {
        if line[i] == '-' && line[i + 1] == '-' && line[i + 2] == '-' {
            return true;
        }
        i = i + 1;
    }
    false
}

/// Reads a puzzle written as text, one row per line and right-aligned:
/// multiplicand, multiplier, the partial products, the product, with rules of
/// dashes between them; a digit is known, `*` is hidden.
pub fn mushikui_from(s: &str) -> (r: Result<Mushikui, ValidationError>)
    ensures
        grid_rows(s@).len() < 4 ==> r == Err::<Mushikui, ValidationError>(
            ValidationError::MissingRows,
        ),
        grid_rows(s@).len() >= 4 ==> built_from(
            r,
            grid_rows(s@)[0],
            grid_rows(s@)[1],
            grid_rows(s@).subrange(2, grid_rows(s@).len() - 1),
            grid_rows(s@).last(),
        ),
{
    let all = chars_of(s);
    let t = trimmed(&all);
    let mut rows: Vec<Vec<char>> = Vec::new();
    if t.len() > 0 {
        let mut cur: Vec<char> = Vec::new();
        let ghost mut done: Seq<Seq<char>> = Seq::empty();
        let mut i: usize = 0;
        assert(t@.take(0) =~= Seq::<char>::empty());
        assert(done.push(cur@) =~= seq![Seq::<char>::empty()]);
        while i < t.len()
            invariant
                i <= t@.len(),
                done.push(cur@) == pieces(t@.take(i as int)),
                rows@.map_values(|v: Vec<char>| v@) == rows_of(done),
            decreases t@.len() - i,
        {
            let c = t[i];
            let ghost before = t@.take(i as int);
            assert(t@.take(i + 1).drop_last() =~= before);
            if c == '\n' {
                let line = cur;
                cur = Vec::new();
                let ghost old_rows = rows@.map_values(|v: Vec<char>| v@);
                if !has_rule(&line) {
                    rows.push(trimmed(&line));
                    assert(rows@.map_values(|v: Vec<char>| v@) =~= old_rows.push(trim(line@)));
                }
                proof {
                    assert(done.push(line@).drop_last() =~= done);
                    done = done.push(line@);
                    assert(done.push(cur@) =~= pieces(before).push(Seq::empty()));
                }
            } else {
                cur.push(c);
                proof {
                    let p = pieces(before);
                    assert(done.push(cur@) =~= p.update(p.len() - 1, p.last().push(c)));
                }
            }
            i = i + 1;
        }
        assert(t@.take(t@.len() as int) =~= t@);
        let ghost old_rows = rows@.map_values(|v: Vec<char>| v@);
        if !has_rule(&cur) {
            rows.push(trimmed(&cur));
            assert(rows@.map_values(|v: Vec<char>| v@) =~= old_rows.push(trim(cur@)));
        }
        assert(done.push(cur@).drop_last() =~= done);
    }
    let ghost g = grid_rows(s@);
    assert(rows@.map_values(|v: Vec<char>| v@) == g);
    let n = rows.len();
    if n < 4 {
        return Err(ValidationError::MissingRows);
    }
    let last = rows.pop().unwrap();
    let first = rows.remove(0);
    let second = rows.remove(0);
    assert(rows@.map_values(|v: Vec<char>| v@) =~= g.subrange(2, g.len() - 1));
    Mushikui::new(first.as_slice(), second.as_slice(), rows.as_slice(), last.as_slice())
}

} // verus!
