//! Splitting full document text into lines, and the round trip back.
//!
//! A document is stored as one row per line. Text is split at every line
//! feed; a carriage return standing directly before a line feed belongs to
//! the terminator and is stripped; a final unterminated segment becomes a
//! row only when it is non-empty.

use vstd::prelude::*;

verus! {

/// The views of a sequence of owned lines, row by row.
pub open spec fn line_views(ls: Seq<String>) -> Seq<Seq<char>> {
    Seq::new(ls.len(), |i: int| ls[i]@)
}

/// `line` with one trailing carriage return removed, if it has one.
pub open spec fn strip_carriage_return(line: Seq<char>) -> Seq<char> {
    if line.len() > 0 && line.last() == '\r' {
        line.drop_last()
    } else {
        line
    }
}

/// The lines of `cur + rest`, where `cur` holds the characters of the
/// current line read so far and `rest` is the text still to be read.
pub open spec fn split_rec(rest: Seq<char>, cur: Seq<char>) -> Seq<Seq<char>>
    decreases rest.len(),
{
    if rest.len() == 0 {
        if cur.len() == 0 {
            Seq::empty()
        } else {
            seq![cur]
        }
    } else if rest[0] == '\n' {
        seq![strip_carriage_return(cur)] + split_rec(rest.drop_first(), Seq::empty())
    } else {
        split_rec(rest.drop_first(), cur.push(rest[0]))
    }
}

/// The lines of `text`, split at line terminators.
pub open spec fn split_lines(text: Seq<char>) -> Seq<Seq<char>> {
    split_rec(text, Seq::empty())
}

/// The text that a sequence of rows denotes: the rows in index order,
/// rejoined with a line feed between neighbours.
pub open spec fn join_lines(ls: Seq<Seq<char>>) -> Seq<char>
    decreases ls.len(),
{
    if ls.len() == 0 {
        Seq::empty()
    } else if ls.len() == 1 {
        ls[0]
    } else {
        ls[0] + seq!['\n'] + join_lines(ls.drop_first())
    }
}

/// Text whose split is lossless: it does not end in a line feed (the
/// final segment is a real line) and no carriage return stands directly
/// before a line feed (none is stripped).
pub open spec fn well_formed_text(text: Seq<char>) -> bool {
    &&& text.len() == 0 || text.last() != '\n'
    &&& forall|i: int| 1 <= i < text.len() && #[trigger] text[i] == '\n' ==> text[i - 1] != '\r'
}

/// Reading newline-free characters only moves them from the text still to
/// be read into the current line.
proof fn lemma_split_rec_shift(u: Seq<char>, v: Seq<char>, cur: Seq<char>)
    requires
        forall|k: int| 0 <= k < u.len() ==> u[k] != '\n',
    ensures
        split_rec(u + v, cur) == split_rec(v, cur + u),
    decreases u.len(),
{
    if u.len() == 0 {
        assert(u + v =~= v);
        assert(cur + u =~= cur);
    } else {
        assert((u + v)[0] == u[0]);
        assert((u + v).drop_first() =~= u.drop_first() + v);
        lemma_split_rec_shift(u.drop_first(), v, cur.push(u[0]));
        assert(cur.push(u[0]) + u.drop_first() =~= cur + u);
    }
}

/// Splitting yields at least one line unless both the text to be read and
/// the current line are empty.
proof fn lemma_split_rec_len(rest: Seq<char>, cur: Seq<char>)
    requires
        rest.len() > 0 || cur.len() > 0,
    ensures
        split_rec(rest, cur).len() >= 1,
    decreases rest.len(),
{
    if rest.len() == 0 {
    } else if rest[0] == '\n' {
    } else {
        lemma_split_rec_len(rest.drop_first(), cur.push(rest[0]));
    }
}

/// Non-empty text splits into at least one line.
pub proof fn lemma_split_lines_nonempty(text: Seq<char>)
    requires
        text.len() > 0,
    ensures
        split_lines(text).len() >= 1,
{
    lemma_split_rec_len(text, Seq::empty());
}

/// The generalised round trip: joining the lines of `cur + rest` gives
/// `cur + rest` back, provided no carriage return stands directly before
/// a line feed (the junction of `cur` and `rest` included) and the text
/// does not end in a line feed.
proof fn lemma_join_split_rec(rest: Seq<char>, cur: Seq<char>)
    requires
        rest.len() > 0 ==> rest.last() != '\n',
        rest.len() > 0 && rest[0] == '\n' ==> cur.len() == 0 || cur.last() != '\r',
        forall|i: int| 1 <= i < rest.len() && #[trigger] rest[i] == '\n' ==> rest[i - 1] != '\r',
    ensures
        join_lines(split_rec(rest, cur)) == cur + rest,
    decreases rest.len(),
{
    if rest.len() == 0 {
        if cur.len() == 0 {
            assert(cur + rest =~= Seq::<char>::empty());
        } else {
            assert(cur + rest =~= cur);
        }
    } else if rest[0] == '\n' {
        let tail = rest.drop_first();
        assert(strip_carriage_return(cur) == cur);
        assert(tail.len() > 0) by {
            assert(rest.last() != '\n');
            assert(rest[rest.len() - 1] != rest[0]);
        }
        assert(tail.last() == rest.last());
        assert(forall|i: int| 1 <= i < tail.len() && #[trigger] tail[i] == '\n' ==> tail[i - 1] != '\r');
        lemma_join_split_rec(tail, Seq::empty());
        lemma_split_rec_len(tail, Seq::empty());
        let ls = seq![cur] + split_rec(tail, Seq::empty());
        assert(ls.len() >= 2);
        assert(ls[0] == cur);
        assert(ls.drop_first() =~= split_rec(tail, Seq::empty()));
        assert(Seq::<char>::empty() + tail =~= tail);
        assert(cur + seq!['\n'] + tail =~= cur + rest);
    } else {
        let tail = rest.drop_first();
        assert(tail.len() > 0 ==> tail.last() == rest.last());
        assert(tail.len() > 0 && tail[0] == '\n' ==> rest[1] == '\n');
        assert(forall|i: int| 1 <= i < tail.len() && #[trigger] tail[i] == '\n' ==> tail[i - 1] != '\r');
        lemma_join_split_rec(tail, cur.push(rest[0]));
        assert(cur.push(rest[0]) + tail =~= cur + rest);
    }
}

/// Splits `s` into the lines that [`split_lines`] describes, one owned
/// row per line.
pub fn split_text(s: &str) -> (lines: Vec<String>)
    ensures
        line_views(lines@) == split_lines(s@),
{
    let n = s.unicode_len();
    let mut lines: Vec<String> = Vec::new();
    let mut start: usize = 0;
    let mut j: usize = 0;
    proof {
        assert(s@.subrange(0, s@.len() as int) =~= s@);
        assert(line_views(lines@) + split_lines(s@) =~= split_lines(s@));
    }
    while j < n
        invariant
            n == s@.len(),
            start <= j <= n,
            forall|k: int| start <= k < j ==> s@[k] != '\n',
            line_views(lines@) + split_rec(s@.subrange(start as int, n as int), Seq::empty())
                == split_lines(s@),
        decreases n - j,
    {
        if s.get_char(j) == '\n' {
            let end = if j > start && s.get_char(j - 1) == '\r' {
                j - 1
            } else {
                j
            };
            let line = s.substring_char(start, end).to_owned();
            proof {
                let text = s@;
                let u = text.subrange(start as int, j as int);
                let v = text.subrange(j as int, n as int);
                assert(text.subrange(start as int, n as int) =~= u + v);
                lemma_split_rec_shift(u, v, Seq::empty());
                assert(Seq::<char>::empty() + u =~= u);
                assert(v[0] == text[j as int]);
                assert(v.drop_first() =~= text.subrange(j as int + 1, n as int));
                assert(line@ == strip_carriage_return(u)) by {
                    if u.len() > 0 {
                        assert(u.last() == text[j as int - 1]);
                    }
                    if j > start && text[j as int - 1] == '\r' {
                        assert(text.subrange(start as int, j as int - 1) =~= u.drop_last());
                    }
                }
                assert(line_views(lines@.push(line)) + split_rec(
                    text.subrange(j as int + 1, n as int),
                    Seq::empty(),
                ) =~= line_views(lines@) + split_rec(
                    text.subrange(start as int, n as int),
                    Seq::empty(),
                ));
            }
            lines.push(line);
            start = j + 1;
        }
        j = j + 1;
    }
    if start < n {
        let line = s.substring_char(start, n).to_owned();
        proof {
            let u = s@.subrange(start as int, n as int);
            lemma_split_rec_shift(u, Seq::empty(), Seq::empty());
            assert(u + Seq::<char>::empty() =~= u);
            assert(Seq::<char>::empty() + u =~= u);
            assert(line_views(lines@.push(line)) =~= line_views(lines@) + split_rec(
                u,
                Seq::empty(),
            ));
        }
        lines.push(line);
    } else {
        proof {
            assert(s@.subrange(start as int, n as int) =~= Seq::<char>::empty());
            assert(line_views(lines@) + split_rec(Seq::<char>::empty(), Seq::<char>::empty())
                =~= line_views(lines@));
        }
    }
    lines
}

/// Splitting well-formed text into lines and rejoining the lines in index
/// order with a line feed reproduces the text exactly.
pub proof fn lemma_load_round_trip(text: Seq<char>)
    requires
        well_formed_text(text),
    ensures
        join_lines(split_lines(text)) == text,
{
    lemma_join_split_rec(text, Seq::empty());
    assert(Seq::<char>::empty() + text =~= text);
}

} // verus!
