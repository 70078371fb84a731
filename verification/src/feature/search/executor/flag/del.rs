//! Deleting a span of lines from a record file.
use vstd::prelude::*;

use crate::error::{result_view, OrsError, OrsErrorView};
use crate::text::{
    chars_views, extend, from_chars, lemma_lines_have_no_newline, lemma_lines_unlines, lines, plain_line, split_lines,
    to_chars, unlines,
};

verus! {

/// The text of a file once its lines `start` to `end` (counted from one,
/// both included) are deleted; a file that could not be read fails.
pub open spec fn delete_range(content: Option<Seq<char>>, start: int, end: int) -> Result<Seq<char>, OrsErrorView> {
    if start == 0 || end < start {
        Err(OrsErrorView::InvalidLineRange)
    } else {
        match content {
            None => Err(OrsErrorView::ReadFailed),
            Some(c) => if end > lines(c).len() {
                Err(OrsErrorView::RangeExceedsFileLength)
            } else {
                Ok(unlines(lines(c).take(start - 1) + lines(c).skip(end)))
            },
        }
    }
}

/// The lines kept from the first `i` lines of `ls` when `start` to `end` go.
pub open spec fn kept_prefix(ls: Seq<Seq<char>>, start: int, end: int, i: int) -> Seq<Seq<char>> {
    if i <= start - 1 {
        ls.take(i)
    } else if i <= end {
        ls.take(start - 1)
    } else {
        ls.take(start - 1) + ls.subrange(end, i)
    }
}

/// The new text of the file with text `content` (none when it could not be
/// read) once its lines `start` to `end`, counted from one and both included,
/// are deleted. A range that starts at zero or ends before it starts fails
/// first; then an unread file; then a range past the end of the file.
pub fn exe(content: Option<&str>, start: usize, end: usize) -> (r: Result<String, OrsError>)
    ensures
        result_view(r) == delete_range(
            match content {
                Some(c) => Some(c@),
                None => None,
            },
            start as int,
            end as int,
        ),
{
    if start == 0 || end < start {
        return Err(OrsError::InvalidLineRange);
    }
    let c = match content {
        Some(c) => c,
        None => {
            return Err(OrsError::ReadFailed);
        },
    };
    let cs = to_chars(c);
    let ls_exec = split_lines(&cs);
    let ghost ls = chars_views(ls_exec@);
    if end > ls_exec.len() {
        return Err(OrsError::RangeExceedsFileLength);
    }
    let mut out: Vec<char> = Vec::new();
    let mut idx: usize = 0;
    assert(ls.take(0) =~= Seq::<Seq<char>>::empty());
    while idx < ls_exec.len()
        invariant
            ls == chars_views(ls_exec@),
            1 <= start <= end <= ls_exec.len(),
            idx <= ls_exec.len(),
            out@ == unlines(kept_prefix(ls, start as int, end as int, idx as int)),
        decreases ls_exec.len() - idx,
    {
        let line_no = idx + 1;
        assert(ls[idx as int] == ls_exec@[idx as int]@);
        let ghost before = kept_prefix(ls, start as int, end as int, idx as int);
        if line_no < start || line_no > end {
            let ghost o = out@;
            extend(&mut out, &ls_exec[idx]);
            out.push('\n');
            let ghost after = kept_prefix(ls, start as int, end as int, idx + 1);
            if line_no < start {
                assert(after =~= ls.take(idx as int).push(ls[idx as int]));
                assert(after.drop_last() =~= before);
            } else {
                assert(after =~= ls.take(start - 1) + ls.subrange(end as int, idx + 1));
                if idx == end {
                    assert(before =~= ls.take(start - 1));
                    assert(after.drop_last() =~= before);
                } else {
                    assert(after.drop_last() =~= before);
                }
            }
            assert(after.last() == ls[idx as int]);
            assert(out@ =~= o + ls[idx as int] + seq!['\n']);
        } else {
            if idx + 1 <= end {
                assert(kept_prefix(ls, start as int, end as int, idx + 1) =~= before);
            }
        }
        idx = idx + 1;
    }
    assert(kept_prefix(ls, start as int, end as int, ls_exec.len() as int) =~= ls.take(start - 1) + ls.skip(end as int));
    Ok(from_chars(&out))
}


/// Deleting lines `start` to `end` (counted from one, both included) leaves
/// exactly the other lines, in order, when none of the lines kept ends with
/// a carriage return.
pub proof fn law_delete_keeps_other_lines(content: Seq<char>, start: int, end: int)
    requires
        1 <= start <= end <= lines(content).len(),
        forall|i: int|
            0 <= i < lines(content).len() && (i < start - 1 || end <= i) ==> !(#[trigger] lines(content)[i].len() > 0
                && lines(content)[i].last() == '\r'),
    ensures
        delete_range(Some(content), start, end) matches Ok(t) && lines(t) == lines(content).take(start - 1) + lines(content).skip(end),
{
    let ls = lines(content);
    let kept = ls.take(start - 1) + ls.skip(end);
    lemma_lines_have_no_newline(content, seq![]);
    assert forall|i: int| 0 <= i < kept.len() implies plain_line(#[trigger] kept[i]) by {
        if i < start - 1 {
            assert(kept[i] == ls[i]);
        } else {
            assert(kept[i] == ls[i - (start - 1) + end]);
        }
    }
    lemma_lines_unlines(kept);
}

} // verus!
