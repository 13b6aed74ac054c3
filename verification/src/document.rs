//! The per-document engine: a line-indexed buffer and the three edit
//! shapes that change events take — single-line substitution, row
//! deletion, and multi-line replacement.

use vstd::prelude::*;
use vstd::string::StrSliceExecFns;
use vstd::string::StringExecFns;

use crate::documentparams::ChangeDocument;
use crate::documentparams::ChangeEvent;
use crate::documentparams::OpenDocument;
use crate::documentparams::Range;
use crate::error::DocumentError;
use crate::lines::line_views;
use crate::lines::lemma_split_lines_nonempty;
use crate::lines::split_lines;
use crate::lines::split_text;

verus! {

/// The row that results from replacing the character range
/// `[start_char, end_char)` of `row` with `text`.
pub open spec fn line_splice(row: Seq<char>, start_char: int, end_char: int, text: Seq<char>) -> Seq<char> {
    row.subrange(0, start_char) + text + row.subrange(end_char, row.len() as int)
}

/// What a single-line substitution does to the rows of a document:
/// either the new rows, or the error that rejects the request.
///
/// The substitution is rejected when the start offset is after the end
/// offset, when the row does not exist, and when the end offset lies
/// beyond the end of the row.
pub open spec fn edit_line_spec(
    rows: Seq<Seq<char>>,
    line: usize,
    start_char: usize,
    end_char: usize,
    text: Seq<char>,
) -> Result<Seq<Seq<char>>, DocumentError> {
    if start_char > end_char {
        Err(DocumentError::EndBeforeStart)
    } else if line as int >= rows.len() {
        Err(DocumentError::LineOutOfRange(line, rows.len() as usize))
    } else if end_char as int > rows[line as int].len() {
        Err(DocumentError::LineOutOfRange(end_char, rows[line as int].len() as usize))
    } else {
        Ok(rows.update(line as int, line_splice(rows[line as int], start_char as int, end_char as int, text)))
    }
}

/// What deleting the rows `[start_line, end_line)` does to the rows of a
/// document. Bounds are clamped defensively: offsets beyond the last row
/// act as the row count, and an end before the start deletes nothing.
pub open spec fn delete_rows_spec(rows: Seq<Seq<char>>, start_line: usize, end_line: usize) -> Seq<Seq<char>> {
    let len = rows.len() as int;
    let s = if start_line as int <= len { start_line as int } else { len };
    let e = if end_line as int <= s { s } else if end_line as int <= len { end_line as int } else { len };
    rows.subrange(0, s) + rows.subrange(e, len)
}

/// What a multi-line replacement does to the rows of a document, given
/// the replacement text already split into lines `ls`.
///
/// The first line of `ls` replaces the start row from the start offset
/// onward; the interior lines are inserted as new rows after the start
/// row; the last line of `ls` replaces the prefix `[0, end character)`
/// of the row that stood at the end row index, wherever the insertions
/// moved it. When `ls` is a single line, only the start row changes.
pub open spec fn splice_spec(
    rows: Seq<Seq<char>>,
    start_line: usize,
    start_char: usize,
    end_line: usize,
    end_char: usize,
    ls: Seq<Seq<char>>,
) -> Result<Seq<Seq<char>>, DocumentError> {
    let len = rows.len() as int;
    if start_line as int >= len {
        Err(DocumentError::LineOutOfRange(start_line, rows.len() as usize))
    } else if ls.len() <= 1 {
        edit_line_spec(rows, start_line, start_char, rows[start_line as int].len() as usize, ls[0])
    } else if start_char as int > rows[start_line as int].len() {
        Err(DocumentError::EndBeforeStart)
    } else if end_line as int >= len {
        Err(DocumentError::LineOutOfRange(end_line, rows.len() as usize))
    } else if end_char as int > rows[end_line as int].len() {
        Err(DocumentError::LineOutOfRange(end_char, rows[end_line as int].len() as usize))
    } else {
        let interior = ls.subrange(1, ls.len() - 1);
        let rows1 = rows.update(
            start_line as int,
            line_splice(rows[start_line as int], start_char as int, rows[start_line as int].len() as int, ls[0]),
        );
        let rows2 = rows1.subrange(0, start_line as int + 1) + interior + rows1.subrange(start_line as int + 1, len);
        let t = if end_line > start_line { end_line as int + interior.len() } else { end_line as int };
        Ok(rows2.update(t, line_splice(rows2[t], 0, end_char as int, ls.last())))
    }
}

/// What one change event does to the rows of a document: the event is
/// classified by shape and handed to the matching edit. An event whose
/// start row lies beyond the row count is rejected outright.
pub open spec fn apply_event_spec(rows: Seq<Seq<char>>, ev: ChangeEvent) -> Result<Seq<Seq<char>>, DocumentError> {
    let sl = ev.range.start.line as usize;
    let sc = ev.range.start.character as usize;
    let el = ev.range.end.line as usize;
    let ec = ev.range.end.character as usize;
    if sl as int > rows.len() {
        Err(DocumentError::LineOutOfRange(sl, rows.len() as usize))
    } else if sl != el && ev.text@.len() == 0 {
        Ok(delete_rows_spec(rows, sl, el))
    } else if sl == el {
        edit_line_spec(rows, sl, sc, ec, ev.text@)
    } else {
        splice_spec(rows, sl, sc, el, ec, split_lines(ev.text@))
    }
}

/// What an ordered batch of change events does to the rows of a
/// document: each event is interpreted against the rows left by the
/// events before it. The batch stops at the first failing event; the
/// rows it returns are those built up to that point, beside the error.
pub open spec fn apply_events_spec(rows: Seq<Seq<char>>, evs: Seq<ChangeEvent>) -> (Seq<Seq<char>>, Option<DocumentError>)
    decreases evs.len(),
{
    if evs.len() == 0 {
        (rows, None)
    } else {
        match apply_event_spec(rows, evs[0]) {
            Ok(next) => apply_events_spec(next, evs.drop_first()),
            Err(e) => (rows, Some(e)),
        }
    }
}

/// One document: its version counter and its text, one owned row per
/// line, kept contiguous by construction.
#[derive(Debug, PartialEq, Eq)]
pub struct Document {
    pub version: i32,
    pub content: Vec<String>,
}

/// The document interface that the registry routes requests through.
pub trait TDocument {
    /// Applies an ordered batch of change events.
    fn change_document(&mut self, params: ChangeDocument) -> Result<(), DocumentError>;

    /// Replaces the whole text with the full text of an open request.
    fn open_document(&mut self, params: OpenDocument);
}

impl Document {
    /// The rows of this document as mathematical sequences of characters.
    pub open spec fn rows(&self) -> Seq<Seq<char>> {
        line_views(self.content@)
    }

    /// An empty document at version 1.
    pub fn new() -> (r: Self)
        ensures
            r.version == 1,
            r.rows() == Seq::<Seq<char>>::empty(),
    {
        let r = Document { version: 1, content: Vec::new() };
        proof {
            assert(r.rows() =~= Seq::<Seq<char>>::empty());
        }
        r
    }

    /// A document at version 1 holding `text` split into lines.
    pub fn from_text(text: &str) -> (r: Self)
        ensures
            r.version == 1,
            r.rows() == split_lines(text@),
    {
        Document { version: 1, content: split_text(text) }
    }

    /// Deletes the rows `[start_line, end_line)` and shifts every row at
    /// or after `end_line` down by `end_line - start_line` places, so the
    /// row indices stay contiguous. Out-of-range bounds are clamped and
    /// an end before the start deletes nothing; no input makes it panic.
    pub fn delete_rows(&mut self, start_line: usize, end_line: usize)
        ensures
            final(self).version == old(self).version,
            final(self).rows() == delete_rows_spec(old(self).rows(), start_line, end_line),
            start_line <= end_line && end_line <= old(self).rows().len() ==> ({
                &&& final(self).rows().len() == old(self).rows().len() - (end_line - start_line)
                &&& forall|i: int| 0 <= i < start_line ==> final(self).rows()[i] == old(self).rows()[i]
                &&& forall|i: int|
                    end_line <= i < old(self).rows().len() ==> final(self).rows()[i - (end_line
                        - start_line)] == old(self).rows()[i]
            }),
    {
        let len = self.content.len();
        let s = if start_line <= len {
            start_line
        } else {
            len
        };
        let e = if end_line <= s {
            s
        } else if end_line <= len {
            end_line
        } else {
            len
        };
        let count = e - s;
        let mut removed: usize = 0;
        proof {
            assert(self.content@ =~= old(self).content@.subrange(0, s as int) + old(
                self,
            ).content@.subrange(s as int, len as int));
        }
        while removed < count
            invariant
                s <= e <= len,
                count == e - s,
                removed <= count,
                len == old(self).content@.len(),
                self.version == old(self).version,
                self.content@ == old(self).content@.subrange(0, s as int) + old(
                    self,
                ).content@.subrange(s as int + removed as int, len as int),
            decreases count - removed,
        {
            proof {
                assert(self.content@.len() == len - removed);
            }
            self.content.remove(s);
            removed = removed + 1;
            proof {
                assert(self.content@ =~= old(self).content@.subrange(0, s as int) + old(
                    self,
                ).content@.subrange(s as int + removed as int, len as int));
            }
        }
        proof {
            assert(final(self).rows() =~= delete_rows_spec(old(self).rows(), start_line, end_line));
            if start_line <= end_line && end_line <= old(self).rows().len() {
                assert(s == start_line && e == end_line);
            }
        }
    }

    /// Replaces the character range `[start_char, end_char)` of the row
    /// at `line` with `text`, leaving every other row as it stands.
    /// Rejects a start offset after the end offset, a row index with no
    /// row, and an end offset beyond the end of the row; a rejected
    /// request leaves the document unchanged. No edit changes the row
    /// count.
    pub fn edit_line(&mut self, line: usize, start_char: usize, end_char: usize, text: &str) -> (r: Result<(), DocumentError>)
        ensures
            final(self).version == old(self).version,
            final(self).rows().len() == old(self).rows().len(),
            (match edit_line_spec(old(self).rows(), line, start_char, end_char, text@) {
                Ok(rows) => r is Ok && final(self).rows() == rows,
                Err(e) => r == Err::<(), DocumentError>(e) && *final(self) == *old(self),
            }),
            start_char > end_char ==> r == Err::<(), DocumentError>(DocumentError::EndBeforeStart)
                && *final(self) == *old(self),
    {
        if start_char > end_char {
            return Err(DocumentError::EndBeforeStart);
        }
        let len = self.content.len();
        if line >= len {
            return Err(DocumentError::LineOutOfRange(line, len));
        }
        let row_len = self.content[line].as_str().unicode_len();
        if end_char > row_len {
            return Err(DocumentError::LineOutOfRange(end_char, row_len));
        }
        let mut new_row = self.content[line].as_str().substring_char(0, start_char).to_owned();
        new_row.append(text);
        new_row.append(self.content[line].as_str().substring_char(end_char, row_len));
        proof {
            assert(new_row@ == line_splice(old(self).rows()[line as int], start_char as int, end_char as int, text@));
        }
        self.content[line] = new_row;
        proof {
            assert(self.rows() =~= old(self).rows().update(
                line as int,
                line_splice(old(self).rows()[line as int], start_char as int, end_char as int, text@),
            ));
        }
        Ok(())
    }

    /// Applies a multi-line replacement: the replacement text is split
    /// into lines; the first line replaces the start row from the start
    /// offset to the row's end, the interior lines are inserted as new
    /// rows after the start row (growing the document and shifting the
    /// following rows down), and the last line replaces the prefix
    /// `[0, end character)` of the row that stood at the end row index.
    /// A failure of any constituent substitution rejects the whole event
    /// and leaves the document unchanged; replacement text that splits
    /// into no lines at all is rejected as an internal fault.
    pub fn edit_multiple_lines(&mut self, range: Range, text: &str) -> (r: Result<(), DocumentError>)
        requires
            range.start.line != range.end.line,
        ensures
            final(self).version == old(self).version,
            text@.len() == 0 ==> (r matches Err(DocumentError::Other(_)) && *final(self) == *old(self)),
            text@.len() > 0 ==> (match splice_spec(
                old(self).rows(),
                range.start.line as usize,
                range.start.character as usize,
                range.end.line as usize,
                range.end.character as usize,
                split_lines(text@),
            ) {
                Ok(rows) => r is Ok && final(self).rows() == rows,
                Err(e) => r == Err::<(), DocumentError>(e) && *final(self) == *old(self),
            }),
    {
        let lines = split_text(text);
        let k = lines.len();
        proof {
            if text@.len() > 0 {
                lemma_split_lines_nonempty(text@);
            } else {
                assert(split_lines(text@).len() == 0);
            }
            assert(k == split_lines(text@).len());
        }
        if k == 0 {
            return Err(DocumentError::Other("the replacement text has no lines".to_owned()));
        }
        let ghost ls = split_lines(text@);
        let sl = range.start.line as usize;
        let sc = range.start.character as usize;
        let el = range.end.line as usize;
        let ec = range.end.character as usize;
        let len = self.content.len();
        if sl >= len {
            return Err(DocumentError::LineOutOfRange(sl, len));
        }
        let srow_len = self.content[sl].as_str().unicode_len();
        if k == 1 {
            let r = self.edit_line(sl, sc, srow_len, lines[0].as_str());
            proof {
                assert(ls[0] == lines@[0]@);
            }
            return r;
        }
        if sc > srow_len {
            return Err(DocumentError::EndBeforeStart);
        }
        if el >= len {
            return Err(DocumentError::LineOutOfRange(el, len));
        }
        let erow_len = self.content[el].as_str().unicode_len();
        if ec > erow_len {
            return Err(DocumentError::LineOutOfRange(ec, erow_len));
        }
        let mut new_start = self.content[sl].as_str().substring_char(0, sc).to_owned();
        new_start.append(lines[0].as_str());
        let ghost rows1 = old(self).rows().update(
            sl as int,
            line_splice(old(self).rows()[sl as int], sc as int, old(self).rows()[sl as int].len() as int, ls[0]),
        );
        proof {
            assert(new_start@ =~= line_splice(
                old(self).rows()[sl as int],
                sc as int,
                old(self).rows()[sl as int].len() as int,
                ls[0],
            ));
        }
        self.content[sl] = new_start;
        let mut j: usize = 1;
        proof {
            assert(self.rows() =~= rows1.subrange(0, sl as int + 1) + ls.subrange(1, 1)
                + rows1.subrange(sl as int + 1, len as int));
        }
        while j + 1 < k
            invariant
                1 <= j < k,
                k == ls.len(),
                k == lines@.len(),
                ls == line_views(lines@),
                sl < len,
                len == old(self).rows().len(),
                rows1.len() == len,
                self.version == old(self).version,
                self.content@.len() == len + j - 1,
                self.rows() == rows1.subrange(0, sl as int + 1) + ls.subrange(1, j as int)
                    + rows1.subrange(sl as int + 1, len as int),
            decreases k - j,
        {
            let cur_len = self.content.len();
            proof {
                assert(sl + j <= cur_len);
            }
            let ghost prev = self.content@;
            self.content.insert(sl + j, lines[j].clone());
            proof {
                let pos = sl as int + j as int;
                let target = rows1.subrange(0, sl as int + 1) + ls.subrange(1, j as int + 1)
                    + rows1.subrange(sl as int + 1, len as int);
                let before = rows1.subrange(0, sl as int + 1) + ls.subrange(1, j as int)
                    + rows1.subrange(sl as int + 1, len as int);
                assert(self.content@ == prev.insert(pos, lines@[j as int]));
                prev.insert_ensures(pos, lines@[j as int]);
                assert(rows1.len() == len);
                assert(rows1.subrange(0, sl as int + 1).len() == sl as int + 1);
                assert(ls.subrange(1, j as int + 1).len() == j as int);
                assert(ls.subrange(1, j as int).len() == j as int - 1);
                assert forall|i: int| 0 <= i < self.content@.len() implies self.content@[i]@
                    == target[i] by {
                    if i < pos {
                        assert(self.content@[i] == prev[i]);
                        assert(line_views(prev)[i] == prev[i]@);
                        assert(line_views(prev)[i] == before[i]);
                        assert(target[i] == before[i]);
                    } else if i == pos {
                        assert(self.content@[i] == lines@[j as int]);
                        assert(target[i] == ls.subrange(1, j as int + 1)[i - (sl as int + 1)]);
                        assert(target[i] == ls[j as int]);
                    } else {
                        assert(self.content@[i] == prev[i - 1]);
                        assert(line_views(prev)[i - 1] == prev[i - 1]@);
                        assert(line_views(prev)[i - 1] == before[i - 1]);
                        assert(before[i - 1] == rows1.subrange(sl as int + 1, len as int)[i - 1
                            - (sl as int + j as int)]);
                        assert(target[i] == rows1.subrange(sl as int + 1, len as int)[i - 1 - (
                        sl as int + j as int)]);
                    }
                }
                assert(self.rows() =~= target);
            }
            j = j + 1;
        }
        let ghost interior = ls.subrange(1, ls.len() - 1);
        let ghost rows2 = rows1.subrange(0, sl as int + 1) + interior + rows1.subrange(
            sl as int + 1,
            len as int,
        );
        let total = self.content.len();
        let m = k - 2;
        proof {
            assert(ls.subrange(1, j as int) == interior);
            assert(self.rows() == rows2);
            assert(interior.len() == m);
            assert(total == len + m);
            assert(rows2.len() == len + m);
        }
        let t = if el > sl {
            el + m
        } else {
            el
        };
        proof {
            assert(t < total);
            assert(rows2[t as int] == old(self).rows()[el as int]);
        }
        let mut new_end = lines[k - 1].as_str().to_owned();
        new_end.append(self.content[t].as_str().substring_char(ec, erow_len));
        proof {
            assert(ls.last() == lines@[k - 1]@);
            assert(new_end@ =~= line_splice(rows2[t as int], 0, ec as int, ls.last()));
        }
        self.content[t] = new_end;
        proof {
            assert(self.rows() =~= rows2.update(
                t as int,
                line_splice(rows2[t as int], 0, ec as int, ls.last()),
            ));
        }
        Ok(())
    }

    /// Replaces the whole text of this document with `doc`'s full text,
    /// split into lines; the version counter is left as it stands.
    pub fn open_document(&mut self, doc: OpenDocument)
        ensures
            final(self).version == old(self).version,
            final(self).rows() == split_lines(doc.text@),
    {
        self.content = split_text(doc.text.as_str());
    }

    /// Applies the change events of `doc` strictly in order, each one
    /// interpreted against the rows left by the events before it. Stops
    /// at the first failing event and returns its error; the effects of
    /// the earlier events remain (the batch is not transactional).
    pub fn change_document(&mut self, doc: ChangeDocument) -> (r: Result<(), DocumentError>)
        ensures
            final(self).version == old(self).version,
            ({
                let (rows, err) = apply_events_spec(old(self).rows(), doc.content_changes@);
                &&& final(self).rows() == rows
                &&& (match err {
                    None => r is Ok,
                    Some(e) => r == Err::<(), DocumentError>(e),
                })
            }),
    {
        let n = doc.content_changes.len();
        let mut idx: usize = 0;
        proof {
            assert(doc.content_changes@.skip(0) =~= doc.content_changes@);
        }
        while idx < n
            invariant
                n == doc.content_changes@.len(),
                idx <= n,
                self.version == old(self).version,
                apply_events_spec(old(self).rows(), doc.content_changes@) == apply_events_spec(
                    self.rows(),
                    doc.content_changes@.skip(idx as int),
                ),
            decreases n - idx,
        {
            let change = &doc.content_changes[idx];
            let sl = change.range.start.line as usize;
            let sc = change.range.start.character as usize;
            let el = change.range.end.line as usize;
            let ec = change.range.end.character as usize;
            let ghost pre = self.rows();
            let ghost evs_left = doc.content_changes@.skip(idx as int);
            proof {
                assert(evs_left.len() == n - idx);
                assert(evs_left[0] == doc.content_changes@[idx as int]);
                assert(evs_left.drop_first() =~= doc.content_changes@.skip(idx as int + 1));
            }
            let len = self.content.len();
            if sl > len {
                return Err(DocumentError::LineOutOfRange(sl, len));
            }
            let res: Result<(), DocumentError>;
            if sl != el && change.text.as_str().is_empty() {
                self.delete_rows(sl, el);
                res = Ok(());
            } else if sl == el {
                res = self.edit_line(sl, sc, ec, change.text.as_str());
            } else {
                res = self.edit_multiple_lines(change.range, change.text.as_str());
            }
            match res {
                Ok(_) => {
                    proof {
                        assert(apply_event_spec(pre, evs_left[0]) == Ok::<Seq<Seq<char>>, DocumentError>(self.rows()));
                    }
                    idx = idx + 1;
                },
                Err(e) => {
                    proof {
                        assert(apply_event_spec(pre, evs_left[0]) == Err::<Seq<Seq<char>>, DocumentError>(e));
                    }
                    return Err(e);
                },
            }
        }
        proof {
            assert(doc.content_changes@.skip(n as int) =~= Seq::<ChangeEvent>::empty());
        }
        Ok(())
    }
}

impl TDocument for Document {
    /// Routes a change request to [`Document::change_document`].
    fn change_document(&mut self, params: ChangeDocument) -> Result<(), DocumentError> {
        Document::change_document(self, params)
    }

    /// Routes an open request to [`Document::open_document`].
    fn open_document(&mut self, params: OpenDocument) {
        Document::open_document(self, params)
    }
}

/// A same-line change event never changes the row count: whichever way
/// it is resolved, a successful single-line substitution only rewrites
/// the row it names.
pub proof fn lemma_same_line_keeps_row_count(rows: Seq<Seq<char>>, ev: ChangeEvent)
    requires
        ev.range.start.line == ev.range.end.line,
    ensures
        (match apply_event_spec(rows, ev) {
            Ok(new_rows) => new_rows.len() == rows.len(),
            Err(_) => true,
        }),
{
}

/// A same-line substitution is undone by its inverse: replacing the span
/// the new text occupies with the text it displaced restores the row.
pub proof fn lemma_substitution_inverse(row: Seq<char>, start_char: int, end_char: int, text: Seq<char>)
    requires
        0 <= start_char <= end_char <= row.len(),
    ensures
        line_splice(
            line_splice(row, start_char, end_char, text),
            start_char,
            start_char + text.len(),
            row.subrange(start_char, end_char),
        ) == row,
{
    let mid = line_splice(row, start_char, end_char, text);
    assert(mid.len() == start_char + text.len() + (row.len() - end_char));
    assert(line_splice(mid, start_char, start_char + text.len(), row.subrange(start_char, end_char))
        =~= row);
}

} // verus!
