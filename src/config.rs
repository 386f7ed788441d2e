//! The line-oriented table definition language.

use vstd::prelude::*;
use vstd::std_specs::iter::IteratorSpec;

verus! {

/// The characters of `s`, in order.
pub(crate) fn chars_of(s: &str) -> (r: Vec<char>)
    ensures
        r@ == s@,
{
    broadcast use vstd::string::axiom_spec_iter, vstd::string::next_postcondition;

    let mut it = s.chars();
    let mut v: Vec<char> = Vec::new();
    loop
        invariant_except_break
            v@ + it.remaining() == s@,
            it.decrease() is Some,
        ensures
            v@ == s@,
        decreases it.decrease()->0,
    {
        match it.next() {
            Some(c) => {
                v.push(c);
            },
            None => {
                assert(v@ + it.remaining() =~= v@);
                break ;
            },
        }
    }
    v
}

} // verus!

verus! {

/// A line of a table definition, as the table and its flags should change.
pub enum Directive {
    /// Sets whether the weights are inverted.
    Inversed(bool),
    /// Sets whether an item may be picked several times.
    Repetitive(bool),
    /// Removes the named item.
    Delete(String),
    /// Sets the weight of the named item to the number written in the second
    /// field; a line whose number does not parse changes nothing.
    Item(String, String),
}

/// The abstract value of a [`Directive`].
pub enum DirectiveView {
    Inversed(bool),
    Repetitive(bool),
    Delete(Seq<char>),
    Item(Seq<char>, Seq<char>),
}

impl View for Directive {
    type V = DirectiveView;

    open spec fn view(&self) -> DirectiveView {
        match self {
            Directive::Inversed(b) => DirectiveView::Inversed(*b),
            Directive::Repetitive(b) => DirectiveView::Repetitive(*b),
            Directive::Delete(s) => DirectiveView::Delete(s@),
            Directive::Item(k, v) => DirectiveView::Item(k@, v@),
        }
    }
}

/// Ends a line.
pub open spec fn is_line_break(c: char) -> bool {
    c == '\r' || c == '\n' || c == ';'
}

/// Separates the words of a line.
pub open spec fn is_blank(c: char) -> bool {
    c == ' ' || c == '\t' || c == '='
}

/// The pieces of `s` between the characters of which `sep` holds, empty
/// pieces included: one more than there are separators.
pub open spec fn pieces(s: Seq<char>, sep: spec_fn(char) -> bool) -> Seq<Seq<char>>
    decreases s.len(),
{
    if s.len() == 0 {
        seq![Seq::<char>::empty()]
    } else {
        let init = pieces(s.drop_last(), sep);
        if sep(s.last()) {
            init.push(Seq::<char>::empty())
        } else {
            init.update(init.len() - 1, init.last().push(s.last()))
        }
    }
}

/// The lines of a table definition.
pub open spec fn lines(text: Seq<char>) -> Seq<Seq<char>> {
    pieces(text, |c: char| is_line_break(c))
}

/// The words of a line: its pieces between blanks that are not empty.
pub open spec fn words(line: Seq<char>) -> Seq<Seq<char>> {
    pieces(line, |c: char| is_blank(c)).filter(|w: Seq<char>| w.len() > 0)
}

/// `true` and `false`, as written.
pub open spec fn bool_of(w: Seq<char>) -> Option<bool> {
    if w == "true"@ {
        Some(true)
    } else if w == "false"@ {
        Some(false)
    } else {
        None
    }
}

/// What one line says. Its first word names an item, or is one of the
/// keywords `power_inversed`, `repetitive_picking` (which stand alone),
/// `delete`, `inversed` and `repetitive` (which take the last word as their
/// argument); a line whose first word starts with `#` is a comment.
pub open spec fn directive_of(line: Seq<char>) -> Option<DirectiveView> {
    let w = words(line);
    if w.len() == 0 || w[0][0] == '#' {
        None
    } else if w[0] == "power_inversed"@ {
        Some(DirectiveView::Inversed(true))
    } else if w[0] == "repetitive_picking"@ {
        Some(DirectiveView::Repetitive(true))
    } else if w.len() < 2 {
        None
    } else if w[0] == "delete"@ {
        Some(DirectiveView::Delete(w.last()))
    } else if w[0] == "inversed"@ {
        match bool_of(w.last()) {
            Some(b) => Some(DirectiveView::Inversed(b)),
            None => None,
        }
    } else if w[0] == "repetitive"@ {
        match bool_of(w.last()) {
            Some(b) => Some(DirectiveView::Repetitive(b)),
            None => None,
        }
    } else {
        Some(DirectiveView::Item(w[0], w.last()))
    }
}

/// What a table definition says, line by line.
pub open spec fn directives_of(text: Seq<char>) -> Seq<DirectiveView> {
    lines(text).filter_map(|l: Seq<char>| directive_of(l))
}

proof fn lemma_pieces_nonempty(s: Seq<char>, sep: spec_fn(char) -> bool)
    ensures
        pieces(s, sep).len() >= 1,
    decreases s.len(),
{
    if s.len() > 0 {
        lemma_pieces_nonempty(s.drop_last(), sep);
    }
}

/// Whether `cs[a..b]` spells `lit`.
pub(crate) fn spells(cs: &Vec<char>, a: usize, b: usize, lit: &str) -> (r: bool)
    requires
        a <= b <= cs@.len(),
    ensures
        r == (cs@.subrange(a as int, b as int) == lit@),
{
    let n = lit.unicode_len();
    if b - a != n {
        return false;
    }
    let mut j: usize = 0;
    while j < n
        invariant
            j <= n,
            n == lit@.len(),
            b - a == n,
            a <= b <= cs@.len(),
            forall|k: int| 0 <= k < j ==> cs@[a + k] == lit@[k],
        decreases n - j,
    {
        if cs[a + j] != lit.get_char(j) {
            assert(cs@.subrange(a as int, b as int)[j as int] != lit@[j as int]);
            return false;
        }
        j = j + 1;
    }
    assert(cs@.subrange(a as int, b as int) =~= lit@);
    true
}

/// The word ranges of the line `cs[start..end]`, as absolute positions.
fn word_ranges(cs: &Vec<char>, start: usize, end: usize) -> (r: Vec<(usize, usize)>)
    requires
        start <= end <= cs@.len(),
    ensures
        r@.len() == words(cs@.subrange(start as int, end as int)).len(),
        forall|j: int|
            0 <= j < r@.len() ==> {
                &&& start <= (#[trigger] r@[j]).0 < r@[j].1 <= end
                &&& cs@.subrange(r@[j].0 as int, r@[j].1 as int) == words(
                    cs@.subrange(start as int, end as int),
                )[j]
            },
{
    let ghost line = cs@.subrange(start as int, end as int);
    let ghost blank = |c: char| is_blank(c);
    let ghost nonempty = |w: Seq<char>| w.len() > 0;
    let mut r: Vec<(usize, usize)> = Vec::new();
    let mut cur: usize = start;
    let mut i: usize = start;
    while i < end
        invariant
            start <= cur <= i <= end <= cs@.len(),
            line == cs@.subrange(start as int, end as int),
            blank == (|c: char| is_blank(c)),
            nonempty == (|w: Seq<char>| w.len() > 0),
            pieces(line.take(i - start), blank).len() >= 1,
            pieces(line.take(i - start), blank).last() == cs@.subrange(cur as int, i as int),
            r@.len() == pieces(line.take(i - start), blank).drop_last().filter(nonempty).len(),
            forall|j: int|
                0 <= j < r@.len() ==> {
                    &&& start <= (#[trigger] r@[j]).0 < r@[j].1 <= cur
                    &&& cs@.subrange(r@[j].0 as int, r@[j].1 as int) == pieces(
                        line.take(i - start),
                        blank,
                    ).drop_last().filter(nonempty)[j]
                },
        decreases end - i,
    {
        let ghost k = i - start;
        let ghost old_p = pieces(line.take(k), blank);
        let ghost old_r = r@;
        proof {
            assert(line.take(k + 1).drop_last() == line.take(k));
            assert(line.take(k + 1).last() == cs@[i as int]);
            lemma_pieces_nonempty(line.take(k + 1), blank);
        }
        let c = cs[i];
        if c == ' ' || c == '\t' || c == '=' {
            proof {
                let new_p = pieces(line.take(k + 1), blank);
                assert(new_p == old_p.push(Seq::<char>::empty()));
                assert(new_p.drop_last() == old_p);
                reveal(Seq::filter);
                assert(old_p.filter(nonempty) == old_p.drop_last().filter(nonempty) + if old_p.last().len() > 0 {
                    seq![old_p.last()]
                } else {
                    Seq::<Seq<char>>::empty()
                });
            }
            if cur < i {
                r.push((cur, i));
            }
            proof {
                let new_p = pieces(line.take(k + 1), blank);
                assert forall|j: int| 0 <= j < r@.len() implies {
                    &&& start <= (#[trigger] r@[j]).0 < r@[j].1 <= i + 1
                    &&& cs@.subrange(r@[j].0 as int, r@[j].1 as int) == new_p.drop_last().filter(
                        nonempty,
                    )[j]
                } by {
                    if j < old_r.len() {
                        assert(r@[j] == old_r[j]);
                    }
                }
                assert(cs@.subrange((i + 1) as int, (i + 1) as int) =~= Seq::<char>::empty());
            }
            cur = i + 1;
        } else {
            proof {
                let new_p = pieces(line.take(k + 1), blank);
                assert(new_p == old_p.update(old_p.len() - 1, old_p.last().push(cs@[i as int])));
                assert(new_p.drop_last() =~= old_p.drop_last());
                assert(cs@.subrange(cur as int, i + 1) =~= cs@.subrange(cur as int, i as int).push(
                    cs@[i as int],
                ));
            }
        }
        i = i + 1;
    }
    proof {
        let k = i - start;
        assert(line.take(k) == line);
        let p = pieces(line, blank);
        reveal(Seq::filter);
        assert(p.filter(nonempty) == p.drop_last().filter(nonempty) + if p.last().len() > 0 {
            seq![p.last()]
        } else {
            Seq::<Seq<char>>::empty()
        });
    }
    let ghost r0 = r@;
    if cur < end {
        r.push((cur, end));
    }
    proof {
        assert forall|j: int| 0 <= j < r@.len() implies {
            &&& start <= (#[trigger] r@[j]).0 < r@[j].1 <= end
            &&& cs@.subrange(r@[j].0 as int, r@[j].1 as int) == words(line)[j]
        } by {
            if j < r0.len() {
                assert(r@[j] == r0[j]);
            }
        }
    }
    r
}

} // verus!

verus! {

/// `true` or `false` spelled by `cs[a..b]`.
fn bool_in(cs: &Vec<char>, a: usize, b: usize) -> (r: Option<bool>)
    requires
        a <= b <= cs@.len(),
    ensures
        r == bool_of(cs@.subrange(a as int, b as int)),
{
    if spells(cs, a, b, "true") {
        Some(true)
    } else if spells(cs, a, b, "false") {
        Some(false)
    } else {
        None
    }
}

/// What the line `cs[start..end]` of `text` says.
fn parse_line(text: &str, cs: &Vec<char>, start: usize, end: usize) -> (r: Option<Directive>)
    requires
        cs@ == text@,
        start <= end <= cs@.len(),
    ensures
        match r {
            Some(d) => directive_of(cs@.subrange(start as int, end as int)) == Some(d@),
            None => directive_of(cs@.subrange(start as int, end as int)) is None,
        },
{
    let ghost line = cs@.subrange(start as int, end as int);
    let ws = word_ranges(cs, start, end);
    let ghost w = words(line);
    if ws.len() == 0 {
        return None;
    }
    let (a0, b0) = ws[0];
    assert(cs@.subrange(a0 as int, b0 as int) == w[0]);
    if cs[a0] == '#' {
        assert(w[0][0] == '#');
        return None;
    }
    assert(w[0][0] != '#');
    if spells(cs, a0, b0, "power_inversed") {
        return Some(Directive::Inversed(true));
    }
    if spells(cs, a0, b0, "repetitive_picking") {
        return Some(Directive::Repetitive(true));
    }
    if ws.len() < 2 {
        return None;
    }
    let (a1, b1) = ws[ws.len() - 1];
    assert(cs@.subrange(a1 as int, b1 as int) == w.last());
    if spells(cs, a0, b0, "delete") {
        let v = String::from_str(text.substring_char(a1, b1));
        return Some(Directive::Delete(v));
    }
    if spells(cs, a0, b0, "inversed") {
        return match bool_in(cs, a1, b1) {
            Some(b) => Some(Directive::Inversed(b)),
            None => None,
        };
    }
    if spells(cs, a0, b0, "repetitive") {
        return match bool_in(cs, a1, b1) {
            Some(b) => Some(Directive::Repetitive(b)),
            None => None,
        };
    }
    let k = String::from_str(text.substring_char(a0, b0));
    let v = String::from_str(text.substring_char(a1, b1));
    Some(Directive::Item(k, v))
}

/// Reads a table definition: one directive for each line that says
/// something, in the order of the lines. Lines end at `\r`, `\n` or `;`;
/// words are separated by spaces, tabs or `=`.
pub fn parse_config(text: &str) -> (r: Vec<Directive>)
    ensures
        r@.map_values(|d: Directive| d@) == directives_of(text@),
{
    let cs = chars_of(text);
    let ghost brk = |c: char| is_line_break(c);
    let ghost f = |l: Seq<char>| directive_of(l);
    let mut r: Vec<Directive> = Vec::new();
    let mut line_start: usize = 0;
    let mut i: usize = 0;
    while i < cs.len()
        invariant
            cs@ == text@,
            line_start <= i <= cs@.len(),
            brk == (|c: char| is_line_break(c)),
            f == (|l: Seq<char>| directive_of(l)),
            pieces(cs@.take(i as int), brk).len() >= 1,
            pieces(cs@.take(i as int), brk).last() == cs@.subrange(line_start as int, i as int),
            r@.map_values(|d: Directive| d@) == pieces(cs@.take(i as int), brk).drop_last().filter_map(f),
        decreases cs@.len() - i,
    {
        let ghost old_p = pieces(cs@.take(i as int), brk);
        let ghost old_r = r@;
        proof {
            assert(cs@.take(i + 1).drop_last() == cs@.take(i as int));
            assert(cs@.take(i + 1).last() == cs@[i as int]);
            lemma_pieces_nonempty(cs@.take(i + 1), brk);
        }
        let c = cs[i];
        if c == '\r' || c == '\n' || c == ';' {
            let d = parse_line(text, &cs, line_start, i);
            proof {
                let new_p = pieces(cs@.take(i + 1), brk);
                assert(new_p == old_p.push(Seq::<char>::empty()));
                assert(new_p.drop_last() == old_p);
                assert(old_p == old_p.drop_last().push(old_p.last()));
            }
            match d {
                Some(d) => {
                    r.push(d);
                    proof {
                        assert(r@.map_values(|d: Directive| d@) =~= old_r.map_values(
                            |d: Directive| d@,
                        ) + seq![d@]);
                    }
                },
                None => {},
            }
            line_start = i + 1;
            proof {
                assert(cs@.subrange(line_start as int, line_start as int) =~= Seq::<char>::empty());
            }
        } else {
            proof {
                let new_p = pieces(cs@.take(i + 1), brk);
                assert(new_p == old_p.update(old_p.len() - 1, old_p.last().push(cs@[i as int])));
                assert(new_p.drop_last() =~= old_p.drop_last());
                assert(cs@.subrange(line_start as int, i + 1) =~= cs@.subrange(
                    line_start as int,
                    i as int,
                ).push(cs@[i as int]));
            }
        }
        i = i + 1;
    }
    proof {
        assert(cs@.take(i as int) == cs@);
    }
    let ghost p = pieces(cs@, brk);
    let ghost r0 = r@;
    let d = parse_line(text, &cs, line_start, i);
    proof {
        assert(p == p.drop_last().push(p.last()));
    }
    match d {
        Some(d) => {
            r.push(d);
            proof {
                assert(r@.map_values(|d: Directive| d@) =~= r0.map_values(|d: Directive| d@)
                    + seq![d@]);
            }
        },
        None => {},
    }
    r
}

} // verus!
