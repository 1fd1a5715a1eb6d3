//! Lists of lines and the texts made from them.

use vstd::prelude::*;
use vstd::string::*;

verus! {

/// `String::push` appends one character: afterwards the string holds what it
/// held before, followed by `ch`.
pub assume_specification[ String::push ](text: &mut String, ch: char)
    ensures
        final(text)@ == old(text)@.push(ch),
;

/// What a list of strings holds, text by text.
pub open spec fn texts(list: Seq<String>) -> Seq<Seq<char>> {
    list.map_values(|s: String| s@)
}

/// The line feed that ends or separates lines.
pub open spec fn line_feed() -> Seq<char> {
    seq!['\n']
}

/// No line feed stands in the line.
pub open spec fn feed_free(line: Seq<char>) -> bool {
    forall|k: int| 0 <= k < line.len() ==> #[trigger] line[k] != '\n'
}

/// No line feed stands in any of the lines.
pub open spec fn all_feed_free(lines: Seq<Seq<char>>) -> bool {
    forall|i: int| 0 <= i < lines.len() ==> feed_free(#[trigger] lines[i])
}

/// The pieces in order, with `separator` between each two neighbours.
pub open spec fn joined(pieces: Seq<Seq<char>>, separator: Seq<char>) -> Seq<char>
    decreases pieces.len(),
{
    if pieces.len() == 0 {
        Seq::empty()
    } else if pieces.len() == 1 {
        pieces[0]
    } else {
        joined(pieces.drop_last(), separator) + separator + pieces.last()
    }
}

/// Every line with `mark` put in front of it.
pub open spec fn marked(lines: Seq<Seq<char>>, mark: char) -> Seq<Seq<char>> {
    lines.map_values(|line: Seq<char>| seq![mark] + line)
}

/// Joins the pieces from position `start` on, with `separator` between each
/// two neighbours.
pub fn join_from(pieces: &Vec<String>, start: usize, separator: &str) -> (r: String)
    requires
        start <= pieces.len(),
    ensures
        r@ == joined(texts(pieces@).skip(start as int), separator@),
{
    let ghost wanted = texts(pieces@).skip(start as int);
    let mut out = String::new();
    let mut i: usize = start;
    assert(wanted.take(0) =~= Seq::<Seq<char>>::empty());
    while i < pieces.len()
        invariant
            start <= i <= pieces.len(),
            wanted == texts(pieces@).skip(start as int),
            out@ == joined(wanted.take(i - start), separator@),
        decreases pieces.len() - i,
    {
        let ghost before = wanted.take(i - start);
        let ghost after = wanted.take(i - start + 1);
        assert(after.drop_last() =~= before);
        assert(after.last() == pieces@[i as int]@);
        if i > start {
            out.append(separator);
        } else {
            assert(out@ + pieces@[i as int]@ =~= pieces@[i as int]@);
        }
        out.append(pieces[i].as_str());
        i += 1;
    }
    assert(wanted.take(i - start) =~= wanted);
    out
}

/// Joins the pieces with `separator` between each two neighbours.
pub fn join(pieces: &Vec<String>, separator: &str) -> (r: String)
    ensures
        r@ == joined(texts(pieces@), separator@),
{
    assert(texts(pieces@).skip(0) =~= texts(pieces@));
    join_from(pieces, 0, separator)
}

/// Adds one line at the end of a list of lines.
pub fn push_line(lines: &mut Vec<String>, line: String)
    ensures
        texts(final(lines)@) == texts(old(lines)@).push(line@),
{
    lines.push(line);
    assert(texts(lines@) =~= texts(old(lines)@).push(line@));
}

/// Puts `mark` in front of every line.
pub fn mark_lines(lines: &Vec<String>, mark: char) -> (r: Vec<String>)
    ensures
        texts(r@) == marked(texts(lines@), mark),
{
    let ghost target = marked(texts(lines@), mark);
    let mut out: Vec<String> = Vec::new();
    let mut i: usize = 0;
    assert(texts(out@) =~= target.take(0));
    while i < lines.len()
        invariant
            i <= lines.len(),
            target == marked(texts(lines@), mark),
            texts(out@) == target.take(i as int),
        decreases lines.len() - i,
    {
        let mut line = String::new();
        line.push(mark);
        line.append(lines[i].as_str());
        assert(line@ =~= seq![mark] + lines@[i as int]@);
        assert(target[i as int] == seq![mark] + texts(lines@)[i as int]);
        assert(target.take(i + 1) =~= target.take(i as int).push(target[i as int]));
        push_line(&mut out, line);
        i += 1;
    }
    assert(target.take(i as int) =~= target);
    out
}

} // verus!
