//! What holds of every normalization, proved over the spec functions that
//! `normalize_commit_message` is specified by.
use vstd::prelude::*;
use crate::header::{
    capitalized, checked_header, has_valid_type, header_types, is_ascii_lower,
    lemma_header_types_lower, opens_with, repair_from, written_header,
};
use crate::message::{
    content_lines, drop_leading_blank, drop_trailing_blank, lemma_output_lines_shape, normalized,
    output_lines, uncommented, CommitError,
};
use crate::text::{
    crlf_to_lf, is_blank, is_comment, is_white, lemma_crlf_terminated, lemma_split_no_newline,
    lemma_split_terminated, lemma_trim_end_shape, lemma_trim_start_shape, no_newline,
    split_lines, terminated, trim, trim_end, trim_start,
};

verus! {

/// A line as normalization leaves it: no `\n`, not a comment, no trailing
/// whitespace.
pub open spec fn settled_line(l: Seq<char>) -> bool {
    no_newline(l) && !is_comment(l) && trim_end(l) == l
}

proof fn lemma_uncommented_settled(ls: Seq<Seq<char>>)
    requires
        forall|j: int| 0 <= j < ls.len() ==> no_newline(#[trigger] ls[j]),
    ensures
        forall|j: int| 0 <= j < uncommented(ls).len() ==> settled_line(#[trigger] uncommented(ls)[j]),
    decreases ls.len(),
{
    if ls.len() > 0 {
        let p = ls.drop_last();
        assert(forall|j: int| 0 <= j < p.len() ==> #[trigger] p[j] == ls[j]);
        lemma_uncommented_settled(p);
        let l = ls.last();
        if !is_comment(l) {
            lemma_trim_end_shape(l);
            let t = trim_end(l);
            assert(forall|i: int| 0 <= i < t.len() ==> #[trigger] t[i] == l[i]);
            assert(no_newline(l));
            if is_comment(t) {
                let i = choose|i: int|
                    0 <= i < t.len() && #[trigger] t[i] == '#' && forall|j: int|
                        0 <= j < i ==> is_white(#[trigger] t[j]);
                assert(l[i] == '#');
                assert forall|j: int| 0 <= j < i implies is_white(#[trigger] l[j]) by {
                    assert(t[j] == l[j]);
                }
                assert(is_comment(l));
            }
            let u = uncommented(ls);
            let q = uncommented(p);
            assert(u == q.push(t));
            assert forall|j: int| 0 <= j < u.len() implies settled_line(#[trigger] u[j]) by {
                if j < q.len() {
                    assert(u[j] == q[j]);
                }
            }
        } else {
            assert(uncommented(ls) == uncommented(p));
        }
    }
}

proof fn lemma_uncommented_blank(ls: Seq<Seq<char>>)
    requires
        forall|j: int| 0 <= j < ls.len() ==> is_comment(#[trigger] ls[j]) || is_blank(ls[j]),
    ensures
        forall|j: int| 0 <= j < uncommented(ls).len() ==> is_blank(#[trigger] uncommented(ls)[j]),
    decreases ls.len(),
{
    if ls.len() > 0 {
        let p = ls.drop_last();
        assert(forall|j: int| 0 <= j < p.len() ==> #[trigger] p[j] == ls[j]);
        lemma_uncommented_blank(p);
        let l = ls.last();
        lemma_trim_end_shape(l);
        let t = trim_end(l);
        if !is_comment(l) {
            assert forall|i: int| 0 <= i < t.len() implies is_white(#[trigger] t[i]) by {
                assert(t[i] == l[i]);
            }
            let u = uncommented(ls);
            let q = uncommented(p);
            assert(u == q.push(t));
            assert forall|j: int| 0 <= j < u.len() implies is_blank(#[trigger] u[j]) by {
                if j < q.len() {
                    assert(u[j] == q[j]);
                }
            }
        } else {
            assert(uncommented(ls) == uncommented(p));
        }
    }
}

proof fn lemma_uncommented_fixed(ls: Seq<Seq<char>>)
    requires
        forall|j: int| 0 <= j < ls.len() ==> settled_line(#[trigger] ls[j]),
    ensures
        uncommented(ls) == ls,
    decreases ls.len(),
{
    if ls.len() > 0 {
        let p = ls.drop_last();
        assert(forall|j: int| 0 <= j < p.len() ==> #[trigger] p[j] == ls[j]);
        lemma_uncommented_fixed(p);
        assert(settled_line(ls[ls.len() - 1]));
        assert(p.push(ls.last()) =~= ls);
    }
}

proof fn lemma_drop_leading_shape(ls: Seq<Seq<char>>)
    ensures
        drop_leading_blank(ls).len() <= ls.len(),
        drop_leading_blank(ls) == ls.skip(ls.len() - drop_leading_blank(ls).len()),
        drop_leading_blank(ls).len() > 0 ==> !is_blank(drop_leading_blank(ls)[0]),
        (forall|j: int| 0 <= j < ls.len() ==> is_blank(#[trigger] ls[j])) ==> drop_leading_blank(
            ls,
        ).len() == 0,
    decreases ls.len(),
{
    if ls.len() > 0 && is_blank(ls[0]) {
        let d = ls.drop_first();
        assert(forall|j: int| 0 <= j < d.len() ==> #[trigger] d[j] == ls[j + 1]);
        lemma_drop_leading_shape(d);
        assert(d.skip(d.len() - drop_leading_blank(d).len()) =~= ls.skip(
            ls.len() - drop_leading_blank(d).len(),
        ));
    } else {
        assert(ls.skip(0) =~= ls);
    }
}

proof fn lemma_drop_trailing_shape(ls: Seq<Seq<char>>)
    ensures
        drop_trailing_blank(ls).len() <= ls.len(),
        drop_trailing_blank(ls) == ls.take(drop_trailing_blank(ls).len() as int),
        drop_trailing_blank(ls).len() > 0 ==> !is_blank(drop_trailing_blank(ls).last()),
    decreases ls.len(),
{
    if ls.len() > 0 && is_blank(ls.last()) {
        let d = ls.drop_last();
        lemma_drop_trailing_shape(d);
        assert(d.take(drop_trailing_blank(d).len() as int) =~= ls.take(
            drop_trailing_blank(d).len() as int,
        ));
    } else {
        assert(ls.take(ls.len() as int) =~= ls);
    }
}

proof fn lemma_content_lines_settled(raw: Seq<char>)
    ensures
        forall|j: int|
            0 <= j < content_lines(raw).len() ==> settled_line(#[trigger] content_lines(raw)[j]),
        content_lines(raw).len() > 0 ==> !is_blank(content_lines(raw)[0]) && !is_blank(
            content_lines(raw).last(),
        ),
{
    let ls = split_lines(crlf_to_lf(raw));
    lemma_split_no_newline(crlf_to_lf(raw));
    lemma_uncommented_settled(ls);
    let u = uncommented(ls);
    let d = drop_leading_blank(u);
    lemma_drop_leading_shape(u);
    lemma_drop_trailing_shape(d);
    let r = content_lines(raw);
    let off = u.len() - d.len();
    assert forall|j: int| 0 <= j < r.len() implies settled_line(#[trigger] r[j]) by {
        assert(r[j] == d[j]);
        assert(d[j] == u[j + off]);
    }
    if r.len() > 0 {
        assert(r[0] == d[0]);
    }
}

proof fn lemma_no_repair(h: Seq<char>, j: int)
    requires
        h.len() > 0,
        is_ascii_lower(h[0]),
        0 <= j <= header_types().len(),
    ensures
        repair_from(h, j) is None,
    decreases header_types().len() - j,
{
    if j < header_types().len() {
        lemma_header_types_lower(j);
        let c = capitalized(header_types()[j]);
        if opens_with(h, c) {
            assert(h.take(c.len() as int)[0] == h[0]);
        }
        lemma_no_repair(h, j + 1);
    }
}

proof fn lemma_no_match(h: Seq<char>, j: int)
    requires
        0 <= j <= header_types().len(),
        forall|i: int|
            0 <= i < header_types().len() ==> !opens_with(h, capitalized(#[trigger] header_types()[i])),
    ensures
        repair_from(h, j) is None,
    decreases header_types().len() - j,
{
    if j < header_types().len() {
        lemma_no_match(h, j + 1);
    }
}

proof fn lemma_repair_witness(h: Seq<char>, j: int) -> (k: int)
    requires
        0 <= j,
        repair_from(h, j) is Some,
    ensures
        j <= k < header_types().len(),
        opens_with(h, capitalized(header_types()[k])),
        repair_from(h, j) == Some(header_types()[k] + h.skip(header_types()[k].len() as int)),
    decreases header_types().len() - j,
{
    if opens_with(h, capitalized(header_types()[j])) {
        j
    } else {
        lemma_repair_witness(h, j + 1)
    }
}

proof fn lemma_header_settles(first: Seq<char>)
    requires
        settled_line(first),
        !is_blank(first),
        has_valid_type(checked_header(first)),
    ensures
        settled_line(written_header(first)),
        !is_blank(written_header(first)),
        written_header(written_header(first)) == written_header(first),
        has_valid_type(checked_header(written_header(first))),
{
    let h = trim(first);
    match repair_from(h, 0) {
        Some(r) => {
            let k = lemma_repair_witness(h, 0);
            let t = header_types()[k];
            let n = t.len() as int;
            lemma_header_types_lower(k);
            lemma_trim_start_shape(first);
            let ts = trim_start(first);
            lemma_trim_end_shape(ts);
            assert(forall|m: int| 0 <= m < h.len() ==> #[trigger] h[m] == ts[m]);
            assert(forall|m: int| 0 <= m < ts.len() ==> #[trigger] ts[m] == first[m + (first.len() - ts.len())]);
            assert(r.len() > n);
            assert(r[0] == t[0]);
            assert(r.last() == h.last());
            assert(!is_white(r[0]));
            assert(!is_white(r.last()));
            assert forall|m: int| 0 <= m < r.len() implies #[trigger] r[m] != '\n' by {
                if m < n {
                    assert(is_ascii_lower(t[m]));
                } else {
                    assert(r[m] == h[m]);
                    assert(first[m + (first.len() - ts.len())] != '\n');
                }
            }
            assert(trim_end(r) == r);
            assert(trim_start(r) == r);
            if is_comment(r) {
                let m = choose|m: int|
                    0 <= m < r.len() && #[trigger] r[m] == '#' && forall|j: int|
                        0 <= j < m ==> is_white(#[trigger] r[j]);
                if m > 0 {
                    assert(is_white(r[0]));
                }
            }
            lemma_no_repair(r, 0);
            assert(r.take(n) =~= t);
            assert(opens_with(r, t));
            assert(has_valid_type(r));
        },
        None => {},
    }
}

proof fn lemma_output_settled(raw: Seq<char>)
    requires
        normalized(raw) is Ok,
    ensures
        ({
            let f = output_lines(content_lines(raw));
            &&& f.len() >= 1
            &&& forall|j: int| 0 <= j < f.len() ==> settled_line(#[trigger] f[j])
            &&& !is_blank(f[0])
            &&& !is_blank(f.last())
            &&& written_header(f[0]) == f[0]
            &&& has_valid_type(checked_header(f[0]))
            &&& f.len() > 1 ==> f[1].len() == 0
        }),
{
    let ls = content_lines(raw);
    lemma_content_lines_settled(raw);
    lemma_header_settles(ls[0]);
    lemma_output_lines_shape(ls);
    let f = output_lines(ls);
    let sh: int = if ls.len() > 1 && ls[1].len() > 0 { 1 } else { 0 };
    let e = Seq::<char>::empty();
    assert(trim_end(e) == e);
    assert(settled_line(e));
    assert forall|j: int| 0 <= j < f.len() implies settled_line(#[trigger] f[j]) by {
        if j > 0 && !(sh == 1 && j == 1) {
            assert(f[(j - sh) + sh] == ls[j - sh]);
        }
    }
    if f.len() > 1 {
        let m = ls.len() - 1;
        assert(f[m + sh] == ls[m]);
        if sh == 0 {
            assert(f[1 + sh] == ls[1]);
        }
    }
}

/// Normalizing a message that normalization produced gives it back
/// unchanged.
pub proof fn lemma_normalize_idempotent(raw: Seq<char>)
    requires
        normalized(raw) is Ok,
    ensures
        normalized(normalized(raw)->Ok_0) == normalized(raw),
{
    lemma_output_settled(raw);
    let f = output_lines(content_lines(raw));
    let c = terminated(f);
    assert forall|j: int| 0 <= j < f.len() implies no_newline(#[trigger] f[j]) && (f[j].len() == 0
        || f[j].last() != '\r') by {
        lemma_trim_end_shape(f[j]);
    }
    lemma_crlf_terminated(f);
    lemma_split_terminated(f);
    let g = f.push(Seq::<char>::empty());
    assert(trim_end(Seq::<char>::empty()) == Seq::<char>::empty());
    assert forall|j: int| 0 <= j < g.len() implies settled_line(#[trigger] g[j]) by {
        if j < f.len() {
            assert(g[j] == f[j]);
        }
    }
    lemma_uncommented_fixed(g);
    assert(drop_leading_blank(g) == g);
    assert(is_blank(g.last()));
    assert(g.drop_last() =~= f);
    assert(drop_trailing_blank(g) == drop_trailing_blank(f));
    assert(drop_trailing_blank(f) == f);
    assert(content_lines(c) == f);
    assert(f.update(0, written_header(f[0])) =~= f);
    assert(output_lines(f) == f);
}

/// A normalized message ends in exactly one newline: its last character is
/// `\n` and the one before it is not.
pub proof fn lemma_single_trailing_newline(raw: Seq<char>)
    requires
        normalized(raw) is Ok,
    ensures
        ({
            let c = normalized(raw)->Ok_0;
            &&& c.len() >= 2
            &&& c.last() == '\n'
            &&& c[c.len() - 2] != '\n'
        }),
{
    lemma_output_settled(raw);
    let f = output_lines(content_lines(raw));
    let x = f.last();
    lemma_trim_end_shape(x);
    assert(settled_line(f[f.len() - 1]));
    let c = terminated(f);
    assert(c == terminated(f.drop_last()) + x + seq!['\n']);
    assert(c[c.len() - 2] == x.last());
}

/// A message whose lines are all comments or blank is rejected as empty.
pub proof fn lemma_no_content_is_empty(raw: Seq<char>)
    requires
        forall|j: int|
            0 <= j < split_lines(crlf_to_lf(raw)).len() ==> is_comment(
                #[trigger] split_lines(crlf_to_lf(raw))[j],
            ) || is_blank(split_lines(crlf_to_lf(raw))[j]),
    ensures
        normalized(raw) == Err::<Seq<char>, CommitError>(CommitError::Empty),
{
    let ls = split_lines(crlf_to_lf(raw));
    lemma_uncommented_blank(ls);
    lemma_drop_leading_shape(uncommented(ls));
    assert(content_lines(raw).len() == 0);
}

/// A header that opens with no listed type, neither in lower case nor
/// capitalized, is rejected as malformed.
pub proof fn lemma_unlisted_type_invalid(raw: Seq<char>)
    requires
        content_lines(raw).len() > 0,
        forall|i: int|
            0 <= i < header_types().len() ==> !opens_with(
                trim(content_lines(raw)[0]),
                #[trigger] header_types()[i],
            ) && !opens_with(trim(content_lines(raw)[0]), capitalized(header_types()[i])),
    ensures
        normalized(raw) == Err::<Seq<char>, CommitError>(CommitError::InvalidFormat),
{
    lemma_no_match(trim(content_lines(raw)[0]), 0);
}

} // verus!
