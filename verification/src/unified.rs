//! What a line-by-line comparison in the unified format hands back, and the
//! part of it that is shown.

use vstd::prelude::*;
use vstd::string::*;
use crate::text::{
    all_feed_free, feed_free, join_from, joined, line_feed, push_line, texts,
};

verus! {

/// A line without the carriage return that may end it.
pub open spec fn without_return(line: Seq<char>) -> Seq<char> {
    if line.len() > 0 && line.last() == '\r' {
        line.drop_last()
    } else {
        line
    }
}

/// A text read character by character: the lines that a line feed has ended
/// so far, each without the carriage return before that line feed, and the
/// characters after the last line feed.
pub open spec fn scanned(text: Seq<char>) -> (Seq<Seq<char>>, Seq<char>)
    decreases text.len(),
{
    if text.len() == 0 {
        (Seq::empty(), Seq::empty())
    } else {
        let (lines, rest) = scanned(text.drop_last());
        if text.last() == '\n' {
            (lines.push(without_return(rest)), Seq::empty())
        } else {
            (lines, rest.push(text.last()))
        }
    }
}

/// The lines of a text. A line ends at a line feed or at the end of the
/// text; a carriage return just before the line feed belongs to the line
/// end; nothing follows a final line feed.
pub open spec fn lines_of(text: Seq<char>) -> Seq<Seq<char>> {
    let (lines, rest) = scanned(text);
    if rest.len() > 0 {
        lines.push(rest)
    } else {
        lines
    }
}

/// The lines without the first one, where that begins with `prefix`.
pub open spec fn without_first(lines: Seq<Seq<char>>, prefix: Seq<char>) -> Seq<Seq<char>> {
    if lines.len() > 0 && prefix.is_prefix_of(lines[0]) {
        lines.drop_first()
    } else {
        lines
    }
}

/// The lines after the header of a unified comparison: a leading line of the
/// old file (`---`), then one of the new file (`+++`), then one that opens
/// the first range (`@@`) are left out, each where it is there.
pub open spec fn body_of(lines: Seq<Seq<char>>) -> Seq<Seq<char>> {
    without_first(without_first(without_first(lines, "---"@), "+++"@), "@@"@)
}

/// What is shown of a unified comparison: its lines after the header, a
/// line feed between each two.
pub open spec fn changed_text(output: Seq<char>) -> Seq<char> {
    joined(body_of(lines_of(output)), line_feed())
}

/// The lines in order, each ended by a line feed.
spec fn ended(lines: Seq<Seq<char>>) -> Seq<char>
    decreases lines.len(),
{
    if lines.len() == 0 {
        Seq::empty()
    } else {
        ended(lines.drop_last()) + lines.last() + line_feed()
    }
}

/// Joined lines with one more line at the end.
proof fn lemma_joined_push(lines: Seq<Seq<char>>, line: Seq<char>)
    ensures
        joined(lines.push(line), line_feed()) == ended(lines) + line,
    decreases lines.len(),
{
    let all = lines.push(line);
    assert(all.drop_last() =~= lines);
    if lines.len() == 0 {
        assert(ended(lines) + line =~= line);
    } else {
        assert(lines =~= lines.drop_last().push(lines.last()));
        lemma_joined_push(lines.drop_last(), lines.last());
        assert(joined(all, line_feed()) =~= ended(lines) + line);
    }
}

/// A text without carriage returns is made of its lines: those that a line
/// feed has ended, then what follows the last line feed.
proof fn lemma_scanned(text: Seq<char>)
    requires
        forall|k: int| 0 <= k < text.len() ==> text[k] != '\r',
    ensures
        all_feed_free(scanned(text).0),
        feed_free(scanned(text).1),
        ended(scanned(text).0) + scanned(text).1 == text,
    decreases text.len(),
{
    if text.len() == 0 {
        assert(ended(scanned(text).0) + scanned(text).1 =~= text);
    } else {
        let init = text.drop_last();
        lemma_scanned(init);
        let (lines, rest) = scanned(init);
        let head = ended(lines);
        assert(text =~= init.push(text.last()));
        if text.last() == '\n' {
            if rest.len() > 0 {
                assert(rest.last() == init[head.len() + rest.len() - 1]);
            }
            let grown = lines.push(rest);
            assert(grown.drop_last() =~= lines);
            assert(ended(grown) + Seq::<char>::empty() =~= text);
            assert forall|i: int| 0 <= i < grown.len() implies feed_free(#[trigger] grown[i]) by {
                if i < lines.len() {
                    assert(grown[i] == lines[i]);
                }
            }
        } else {
            assert(head + rest.push(text.last()) =~= text);
        }
    }
}

/// The lines of a text without carriage returns hold no line feed, and
/// joined by line feeds they give the text back, less one line feed at its
/// end.
pub proof fn lemma_lines_rejoin(text: Seq<char>)
    requires
        forall|k: int| 0 <= k < text.len() ==> text[k] != '\r',
    ensures
        all_feed_free(lines_of(text)),
        joined(lines_of(text), line_feed()) == if text.len() > 0 && text.last() == '\n' {
            text.drop_last()
        } else {
            text
        },
{
    lemma_scanned(text);
    let (lines, rest) = scanned(text);
    if rest.len() > 0 {
        let all = lines.push(rest);
        lemma_joined_push(lines, rest);
        assert(text.last() == rest.last());
        assert forall|i: int| 0 <= i < all.len() implies feed_free(#[trigger] all[i]) by {
            if i < lines.len() {
                assert(all[i] == lines[i]);
            }
        }
    } else if lines.len() > 0 {
        assert(lines =~= lines.drop_last().push(lines.last()));
        lemma_joined_push(lines.drop_last(), lines.last());
        assert(ended(lines) + rest =~= ended(lines));
        assert(text.drop_last() =~= joined(lines, line_feed()));
        assert(text.last() == '\n');
    } else {
        assert(text =~= Seq::<char>::empty());
    }
}

/// Splits a text into its lines.
pub fn split_lines(text: &str) -> (r: Vec<String>)
    ensures
        texts(r@) == lines_of(text@),
{
    let mut lines: Vec<String> = Vec::new();
    let mut current = String::new();
    let mut held = false;
    assert(text@.take(0) =~= Seq::<char>::empty());
    assert(texts(lines@) =~= Seq::<Seq<char>>::empty());
    for c in it: text.chars()
        invariant
            it.seq() == text@,
            texts(lines@) == scanned(text@.take(it.index() as int)).0,
            scanned(text@.take(it.index() as int)).1 == if held {
                current@.push('\r')
            } else {
                current@
            },
            !held ==> current@.len() == 0 || current@.last() != '\r',
    {
        let ghost i = it.index() as int;
        let ghost rest = scanned(text@.take(i)).1;
        proof {
            assert(text@.take(i + 1).drop_last() =~= text@.take(i));
            assert(text@.take(i + 1).last() == c);
        }
        if c == '\n' {
            proof {
                if held {
                    assert(rest.drop_last() =~= current@);
                }
            }
            push_line(&mut lines, current);
            current = String::new();
            held = false;
        } else {
            if held {
                current.push('\r');
            }
            if c == '\r' {
                held = true;
            } else {
                current.push(c);
                held = false;
            }
        }
    }
    assert(text@.take(text@.len() as int) =~= text@);
    if held {
        current.push('\r');
    }
    if !current.as_str().is_empty() {
        push_line(&mut lines, current);
    }
    lines
}

/// Whether `line` begins with `prefix`.
pub fn begins_with(line: &str, prefix: &str) -> (r: bool)
    ensures
        r == prefix@.is_prefix_of(line@),
{
    let n = prefix.unicode_len();
    if line.unicode_len() < n {
        return false;
    }
    let mut k: usize = 0;
    while k < n
        invariant
            k <= n,
            n == prefix@.len(),
            n <= line@.len(),
            line@.take(k as int) == prefix@.take(k as int),
        decreases n - k,
    {
        if line.get_char(k) != prefix.get_char(k) {
            assert(line@.subrange(0, n as int)[k as int] != prefix@[k as int]);
            return false;
        }
        assert(line@.take(k + 1) =~= line@.take(k as int).push(line@[k as int]));
        assert(prefix@.take(k + 1) =~= prefix@.take(k as int).push(prefix@[k as int]));
        k += 1;
    }
    assert(prefix@ =~= prefix@.take(n as int));
    assert(line@.take(n as int) =~= line@.subrange(0, n as int));
    true
}

/// The part of a unified comparison that is shown: the lines after its
/// header, joined by line feeds.
pub fn changed_block(output: &str) -> (r: String)
    ensures
        r@ == changed_text(output@),
{
    let lines = split_lines(output);
    let ghost all = texts(lines@);
    let mut start: usize = 0;
    assert(all.skip(0) =~= all);
    if start < lines.len() && begins_with(lines[start].as_str(), "---") {
        assert(all.skip(start as int).drop_first() =~= all.skip(start + 1));
        start += 1;
    }
    if start < lines.len() && begins_with(lines[start].as_str(), "+++") {
        assert(all.skip(start as int).drop_first() =~= all.skip(start + 1));
        start += 1;
    }
    if start < lines.len() && begins_with(lines[start].as_str(), "@@") {
        assert(all.skip(start as int).drop_first() =~= all.skip(start + 1));
        start += 1;
    }
    assert(all.skip(start as int) == body_of(all));
    proof {
        reveal_strlit("\n");
        assert("\n"@ =~= line_feed());
    }
    join_from(&lines, start, "\n")
}

} // verus!
