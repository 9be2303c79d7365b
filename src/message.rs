//! Normalization of a whole commit message: comment and blank-line
//! stripping, header repair and validation, and the canonical layout.
use vstd::prelude::*;
use crate::header::{
    checked_header, has_valid_type, has_valid_type_exec, repair_header, written_header,
};
use crate::text::{
    crlf_to_lf, is_blank, is_comment, line_is_blank, line_is_comment, lines_view, split_lines,
    terminated, trim_end, chars_of, crlf_to_lf_chars, split_at_newlines, trim_end_line,
    trim_start_line, lemma_terminated_step, string_from_chars,
};

verus! {

/// Why a message could not be normalized.
#[derive(Debug, Clone, Copy, PartialEq, Eq, Structural)]
pub enum CommitError {
    /// Nothing is left once comments and blank lines are removed.
    Empty,
    /// The header does not open with a known type.
    InvalidFormat,
    /// Reading or writing the message failed; never produced by normalization.
    Io,
}

impl CommitError {
    /// A short human-readable description.
    pub fn text(&self) -> (r: &'static str)
        ensures
            *self == CommitError::Empty ==> r@ == "empty commit message"@,
            *self == CommitError::InvalidFormat ==> r@ == "invalid conventional commits header"@,
            *self == CommitError::Io ==> r@ == "io error"@,
    {
        match self {
            CommitError::Empty => "empty commit message",
            CommitError::InvalidFormat => "invalid conventional commits header",
            CommitError::Io => "io error",
        }
    }
}

/// The lines that are not comments, each without trailing whitespace.
pub open spec fn uncommented(ls: Seq<Seq<char>>) -> Seq<Seq<char>>
    decreases ls.len(),
{
    if ls.len() == 0 {
        ls
    } else {
        let r = uncommented(ls.drop_last());
        if is_comment(ls.last()) {
            r
        } else {
            r.push(trim_end(ls.last()))
        }
    }
}

/// The lines without the blank ones at the front.
pub open spec fn drop_leading_blank(ls: Seq<Seq<char>>) -> Seq<Seq<char>>
    decreases ls.len(),
{
    if ls.len() > 0 && is_blank(ls[0]) {
        drop_leading_blank(ls.drop_first())
    } else {
        ls
    }
}

/// The lines without the blank ones at the back.
pub open spec fn drop_trailing_blank(ls: Seq<Seq<char>>) -> Seq<Seq<char>>
    decreases ls.len(),
{
    if ls.len() > 0 && is_blank(ls.last()) {
        drop_trailing_blank(ls.drop_last())
    } else {
        ls
    }
}

/// The lines of a raw message that carry content: newlines unified, comments
/// dropped, trailing whitespace trimmed, outer blank lines removed.
pub open spec fn content_lines(raw: Seq<char>) -> Seq<Seq<char>> {
    drop_trailing_blank(drop_leading_blank(uncommented(split_lines(crlf_to_lf(raw)))))
}

/// One empty line put after the header when the line after it is not empty.
pub open spec fn with_separator(ls: Seq<Seq<char>>) -> Seq<Seq<char>> {
    if ls.len() > 1 && ls[1].len() > 0 {
        seq![ls[0], Seq::<char>::empty()] + ls.skip(1)
    } else {
        ls
    }
}

/// The lines of the canonical message built from the content lines `ls`.
pub open spec fn output_lines(ls: Seq<Seq<char>>) -> Seq<Seq<char>> {
    with_separator(ls.update(0, written_header(ls[0])))
}

/// What normalizing the raw message `raw` gives.
pub open spec fn normalized(raw: Seq<char>) -> Result<Seq<char>, CommitError> {
    let ls = content_lines(raw);
    if ls.len() == 0 {
        Err(CommitError::Empty)
    } else if !has_valid_type(checked_header(ls[0])) {
        Err(CommitError::InvalidFormat)
    } else {
        Ok(terminated(output_lines(ls)))
    }
}

fn drop_comments(ls: &Vec<Vec<char>>) -> (r: Vec<Vec<char>>)
    ensures
        lines_view(r@) == uncommented(lines_view(ls@)),
{
    let mut r: Vec<Vec<char>> = Vec::new();
    let mut i: usize = 0;
    assert(lines_view(ls@).take(0) =~= Seq::<Seq<char>>::empty());
    assert(lines_view(r@) =~= Seq::<Seq<char>>::empty());
    while i < ls.len()
        invariant
            i <= ls.len(),
            lines_view(r@) == uncommented(lines_view(ls@).take(i as int)),
        decreases ls.len() - i,
    {
        assert(lines_view(ls@).take(i + 1).drop_last() =~= lines_view(ls@).take(i as int));
        if !line_is_comment(&ls[i]) {
            let ghost before = lines_view(r@);
            let l = trim_end_line(&ls[i]);
            r.push(l);
            assert(lines_view(r@) =~= before.push(trim_end(lines_view(ls@)[i as int])));
        }
        i = i + 1;
    }
    assert(lines_view(ls@).take(i as int) =~= lines_view(ls@));
    r
}

/// Appends `l` and a newline to `out`.
fn push_line(out: &mut Vec<char>, l: &Vec<char>)
    ensures
        final(out)@ == old(out)@ + l@ + seq!['\n'],
{
    let mut j: usize = 0;
    while j < l.len()
        invariant
            j <= l.len(),
            out@ == old(out)@ + l@.take(j as int),
        decreases l.len() - j,
    {
        out.push(l[j]);
        j = j + 1;
        assert(out@ =~= old(out)@ + l@.take(j as int));
    }
    assert(l@.take(j as int) =~= l@);
    out.push('\n');
}

/// Where each content line lands among the output lines.
pub proof fn lemma_output_lines_shape(ls: Seq<Seq<char>>)
    requires
        ls.len() > 0,
    ensures
        ({
            let f = output_lines(ls);
            let sh: int = if ls.len() > 1 && ls[1].len() > 0 { 1 } else { 0 };
            &&& f.len() == ls.len() + sh
            &&& f[0] == written_header(ls[0])
            &&& sh == 1 ==> f[1] == Seq::<char>::empty()
            &&& forall|m: int| 1 <= m < ls.len() ==> #[trigger] f[m + sh] == ls[m]
        }),
{
}

/// The bounds of the lines of `kept` left once the blank lines at both ends
/// are removed.
fn content_bounds(kept: &Vec<Vec<char>>) -> (r: (usize, usize))
    ensures
        r.0 <= r.1 <= kept.len(),
        lines_view(kept@).subrange(r.0 as int, r.1 as int) == drop_trailing_blank(
            drop_leading_blank(lines_view(kept@)),
        ),
{
    let ghost k = lines_view(kept@);
    let mut lo: usize = 0;
    assert(k.skip(0) =~= k);
    while lo < kept.len() && line_is_blank(&kept[lo])
        invariant
            lo <= kept.len(),
            k == lines_view(kept@),
            drop_leading_blank(k) == drop_leading_blank(k.skip(lo as int)),
        decreases kept.len() - lo,
    {
        assert(k.skip(lo as int).drop_first() =~= k.skip(lo + 1));
        lo = lo + 1;
    }
    let mut hi: usize = kept.len();
    assert(k.subrange(lo as int, hi as int) =~= k.skip(lo as int));
    while hi > lo && line_is_blank(&kept[hi - 1])
        invariant
            lo <= hi <= kept.len(),
            k == lines_view(kept@),
            drop_trailing_blank(k.skip(lo as int)) == drop_trailing_blank(
                k.subrange(lo as int, hi as int),
            ),
        decreases hi,
    {
        assert(k.subrange(lo as int, hi as int).drop_last() =~= k.subrange(lo as int, hi - 1));
        hi = hi - 1;
    }
    (lo, hi)
}

/// The canonical message made of `header` and the lines `kept[lo + 1..hi]`.
fn write_message(kept: &Vec<Vec<char>>, lo: usize, hi: usize, header: &Vec<char>) -> (r: Vec<
    char,
>)
    requires
        lo < hi <= kept.len(),
        header@ == written_header(lines_view(kept@)[lo as int]),
    ensures
        r@ == terminated(output_lines(lines_view(kept@).subrange(lo as int, hi as int))),
{
    let ghost k = lines_view(kept@);
    let ghost ls = k.subrange(lo as int, hi as int);
    let ghost f = output_lines(ls);
    proof {
        lemma_output_lines_shape(ls);
        lemma_terminated_step(f, 0);
        assert(f.take(0) =~= Seq::<Seq<char>>::empty());
    }
    let mut out: Vec<char> = Vec::new();
    push_line(&mut out, header);
    let sep = hi - lo > 1 && kept[lo + 1].len() > 0;
    proof {
        if hi - lo > 1 {
            assert(ls[1] == kept@[lo + 1]@);
        }
        assert(sep == (ls.len() > 1 && ls[1].len() > 0));
    }
    if sep {
        proof {
            lemma_terminated_step(f, 1);
        }
        push_line(&mut out, &Vec::new());
    }
    let ghost shift: int = if sep { 1 } else { 0 };
    let mut j: usize = lo + 1;
    while j < hi
        invariant
            lo < j <= hi <= kept.len(),
            k == lines_view(kept@),
            ls == k.subrange(lo as int, hi as int),
            shift == 0 || shift == 1,
            f.len() == hi - lo + shift,
            forall|m: int| 1 <= m < ls.len() ==> #[trigger] f[m + shift] == ls[m],
            out@ == terminated(f.take(j - lo + shift)),
        decreases hi - j,
    {
        proof {
            let n = j - lo;
            assert(f[n + shift] == ls[n]);
            lemma_terminated_step(f, n + shift);
        }
        push_line(&mut out, &kept[j]);
        j = j + 1;
    }
    assert(f.take(j - lo + shift) =~= f);
    out
}

/// Normalizes a raw commit message into its canonical form, or says why it
/// cannot be.
pub fn normalize_commit_message(raw: &str) -> (r: Result<String, CommitError>)
    ensures
        normalized(raw@) == match r {
            Ok(c) => Ok::<Seq<char>, CommitError>(c@),
            Err(e) => Err(e),
        },
{
    let chars = chars_of(raw);
    let unified = crlf_to_lf_chars(&chars);
    let pieces = split_at_newlines(&unified);
    let kept = drop_comments(&pieces);
    let (lo, hi) = content_bounds(&kept);
    let ghost ls = lines_view(kept@).subrange(lo as int, hi as int);
    if lo == hi {
        return Err(CommitError::Empty);
    }
    let trimmed = trim_end_line(&trim_start_line(&kept[lo]));
    assert(ls[0] == lines_view(kept@)[lo as int]);
    let repaired = repair_header(&trimmed);
    let valid = match &repaired {
        Some(v) => has_valid_type_exec(v),
        None => has_valid_type_exec(&trimmed),
    };
    if !valid {
        return Err(CommitError::InvalidFormat);
    }
    let out = match &repaired {
        Some(v) => write_message(&kept, lo, hi, v),
        None => write_message(&kept, lo, hi, &kept[lo]),
    };
    Ok(string_from_chars(&out))
}

} // verus!
