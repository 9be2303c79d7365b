//! Line-level text model: whitespace, trimming, newline handling and
//! splitting, each as a spec function with an executable counterpart.
use vstd::prelude::*;

verus! {

/// Characters with the Unicode `White_Space` property, the set that
/// `char::is_whitespace` tests for.
pub open spec fn is_white(c: char) -> bool {
    c == ' ' || ('\u{9}' <= c && c <= '\u{d}') || c == '\u{85}' || c == '\u{a0}'
        || c == '\u{1680}' || ('\u{2000}' <= c && c <= '\u{200a}') || c == '\u{2028}'
        || c == '\u{2029}' || c == '\u{202f}' || c == '\u{205f}' || c == '\u{3000}'
}

/// A line that is empty or made of whitespace only.
pub open spec fn is_blank(l: Seq<char>) -> bool {
    forall|i: int| 0 <= i < l.len() ==> is_white(#[trigger] l[i])
}

/// The line without its leading whitespace.
pub open spec fn trim_start(l: Seq<char>) -> Seq<char>
    decreases l.len(),
{
    if l.len() > 0 && is_white(l[0]) {
        trim_start(l.drop_first())
    } else {
        l
    }
}

/// The line without its trailing whitespace.
pub open spec fn trim_end(l: Seq<char>) -> Seq<char>
    decreases l.len(),
{
    if l.len() > 0 && is_white(l.last()) {
        trim_end(l.drop_last())
    } else {
        l
    }
}

/// The line without whitespace at either end.
pub open spec fn trim(l: Seq<char>) -> Seq<char> {
    trim_end(trim_start(l))
}

/// A comment line: its first character that is not whitespace is `#`.
pub open spec fn is_comment(l: Seq<char>) -> bool {
    exists|i: int|
        0 <= i < l.len() && #[trigger] l[i] == '#' && forall|j: int| 0 <= j < i ==> is_white(#[trigger] l[j])
}

/// Every `\r\n` pair, scanned left to right, replaced by `\n`.
pub open spec fn crlf_to_lf(s: Seq<char>) -> Seq<char>
    decreases s.len(),
{
    if s.len() == 0 {
        s
    } else if s.len() >= 2 && s[0] == '\r' && s[1] == '\n' {
        seq!['\n'] + crlf_to_lf(s.skip(2))
    } else {
        seq![s[0]] + crlf_to_lf(s.skip(1))
    }
}

/// The pieces of `s` between `\n` characters: each `\n` opens a new line,
/// any other character extends the current one.
pub open spec fn split_lines(s: Seq<char>) -> Seq<Seq<char>>
    decreases s.len(),
{
    if s.len() == 0 {
        seq![Seq::<char>::empty()]
    } else {
        let r = split_lines(s.drop_last());
        if s.last() == '\n' {
            r.push(Seq::<char>::empty())
        } else {
            r.update(r.len() - 1, r.last().push(s.last()))
        }
    }
}

/// The lines, each followed by one `\n`.
pub open spec fn terminated(ls: Seq<Seq<char>>) -> Seq<char>
    decreases ls.len(),
{
    if ls.len() == 0 {
        Seq::<char>::empty()
    } else {
        terminated(ls.drop_last()) + ls.last() + seq!['\n']
    }
}

/// The character contents of a vector of lines.
pub open spec fn lines_view(v: Seq<Vec<char>>) -> Seq<Seq<char>> {
    v.map_values(|l: Vec<char>| l@)
}

/// Whether `c` is whitespace.
pub fn is_white_char(c: char) -> (r: bool)
    ensures
        r == is_white(c),
{
    c == ' ' || ('\u{9}' <= c && c <= '\u{d}') || c == '\u{85}' || c == '\u{a0}'
        || c == '\u{1680}' || ('\u{2000}' <= c && c <= '\u{200a}') || c == '\u{2028}'
        || c == '\u{2029}' || c == '\u{202f}' || c == '\u{205f}' || c == '\u{3000}'
}

/// The characters of `s`, in order.
pub fn chars_of(s: &str) -> (r: Vec<char>)
    ensures
        r@ == s@,
{
    broadcast use vstd::string::group_string_axioms;

    let mut r: Vec<char> = Vec::new();
    for c in it: s.chars()
        invariant
            r@ == it.seq().take(it.index() as int),
    {
        r.push(c);
    }
    assert(r@ =~= s@);
    r
}

/// Whether `l` is empty or whitespace only.
pub fn line_is_blank(l: &Vec<char>) -> (r: bool)
    ensures
        r == is_blank(l@),
{
    let mut i: usize = 0;
    while i < l.len()
        invariant
            i <= l.len(),
            forall|j: int| 0 <= j < i ==> is_white(#[trigger] l@[j]),
        decreases l.len() - i,
    {
        if !is_white_char(l[i]) {
            return false;
        }
        i = i + 1;
    }
    true
}

/// `l` without its leading whitespace.
pub fn trim_start_line(l: &Vec<char>) -> (r: Vec<char>)
    ensures
        r@ == trim_start(l@),
{
    let mut i: usize = 0;
    assert(l@.skip(0) =~= l@);
    while i < l.len() && is_white_char(l[i])
        invariant
            i <= l.len(),
            trim_start(l@) == trim_start(l@.skip(i as int)),
        decreases l.len() - i,
    {
        assert(l@.skip(i as int).drop_first() =~= l@.skip(i + 1));
        i = i + 1;
    }
    let mut r: Vec<char> = Vec::new();
    let mut j: usize = i;
    while j < l.len()
        invariant
            i <= j <= l.len(),
            r@ == l@.subrange(i as int, j as int),
        decreases l.len() - j,
    {
        r.push(l[j]);
        j = j + 1;
        assert(r@ =~= l@.subrange(i as int, j as int));
    }
    assert(r@ =~= l@.skip(i as int));
    r
}

/// `l` without its trailing whitespace.
pub fn trim_end_line(l: &Vec<char>) -> (r: Vec<char>)
    ensures
        r@ == trim_end(l@),
{
    let mut e: usize = l.len();
    assert(l@.take(e as int) =~= l@);
    while e > 0 && is_white_char(l[e - 1])
        invariant
            e <= l.len(),
            trim_end(l@) == trim_end(l@.take(e as int)),
        decreases e,
    {
        assert(l@.take(e as int).drop_last() =~= l@.take(e - 1));
        e = e - 1;
    }
    let mut r: Vec<char> = Vec::new();
    let mut j: usize = 0;
    while j < e
        invariant
            j <= e <= l.len(),
            r@ == l@.take(j as int),
        decreases e - j,
    {
        r.push(l[j]);
        j = j + 1;
        assert(r@ =~= l@.take(j as int));
    }
    r
}

/// Whether `l` is a comment line.
pub fn line_is_comment(l: &Vec<char>) -> (r: bool)
    ensures
        r == is_comment(l@),
{
    let mut i: usize = 0;
    while i < l.len() && is_white_char(l[i])
        invariant
            i <= l.len(),
            forall|j: int| 0 <= j < i ==> is_white(#[trigger] l@[j]),
        decreases l.len() - i,
    {
        i = i + 1;
    }
    if i < l.len() && l[i] == '#' {
        assert(l@[i as int] == '#');
        true
    } else {
        assert forall|k: int| 0 <= k < l.len() && #[trigger] l@[k] == '#' implies !(forall|j: int|
            0 <= j < k ==> is_white(#[trigger] l@[j])) by {
            if k > i {
                assert(!is_white(l@[i as int]));
            }
        }
        false
    }
}

/// `s` with every `\r\n` pair replaced by `\n`.
pub fn crlf_to_lf_chars(s: &Vec<char>) -> (r: Vec<char>)
    ensures
        r@ == crlf_to_lf(s@),
{
    let mut r: Vec<char> = Vec::new();
    let mut i: usize = 0;
    assert(s@.skip(0) =~= s@);
    assert(r@ + s@ =~= s@);
    while i < s.len()
        invariant
            i <= s.len(),
            r@ + crlf_to_lf(s@.skip(i as int)) == crlf_to_lf(s@),
        decreases s.len() - i,
    {
        let ghost rest = s@.skip(i as int);
        if i + 1 < s.len() && s[i] == '\r' && s[i + 1] == '\n' {
            r.push('\n');
            assert(rest.skip(2) =~= s@.skip(i + 2));
            i = i + 2;
        } else {
            r.push(s[i]);
            assert(rest.skip(1) =~= s@.skip(i + 1));
            i = i + 1;
        }
        assert(r@ + crlf_to_lf(s@.skip(i as int)) =~= crlf_to_lf(s@));
    }
    assert(s@.skip(i as int) =~= Seq::<char>::empty());
    assert(r@ =~= crlf_to_lf(s@));
    r
}

/// The lines of `s`, split at each `\n`.
pub fn split_at_newlines(s: &Vec<char>) -> (r: Vec<Vec<char>>)
    ensures
        lines_view(r@) == split_lines(s@),
{
    let mut done: Vec<Vec<char>> = Vec::new();
    let mut cur: Vec<char> = Vec::new();
    let mut i: usize = 0;
    assert(s@.take(0) =~= Seq::<char>::empty());
    assert(lines_view(done@).push(cur@) =~= split_lines(s@.take(0)));
    while i < s.len()
        invariant
            i <= s.len(),
            lines_view(done@).push(cur@) == split_lines(s@.take(i as int)),
        decreases s.len() - i,
    {
        let ghost before = lines_view(done@).push(cur@);
        assert(s@.take(i + 1).drop_last() =~= s@.take(i as int));
        if s[i] == '\n' {
            done.push(cur);
            cur = Vec::new();
            assert(lines_view(done@).push(cur@) =~= before.push(Seq::<char>::empty()));
        } else {
            cur.push(s[i]);
            assert(lines_view(done@).push(cur@) =~= before.update(
                before.len() - 1,
                before.last().push(s@[i as int]),
            ));
        }
        i = i + 1;
    }
    assert(s@.take(i as int) =~= s@);
    done.push(cur);
    assert(lines_view(done@) =~= split_lines(s@));
    done
}

/// Terminating one more line appends it and a `\n`.
pub proof fn lemma_terminated_step(ls: Seq<Seq<char>>, n: int)
    requires
        0 <= n < ls.len(),
    ensures
        terminated(ls.take(n + 1)) == terminated(ls.take(n)) + ls[n] + seq!['\n'],
{
    assert(ls.take(n + 1).drop_last() =~= ls.take(n));
}

/// Relies on `String`'s `FromIterator<char>`: the characters collected in order.
#[verifier::external_body]
pub(crate) fn string_from_chars(v: &Vec<char>) -> (r: String)
    ensures
        r@ == v@,
{
    v.iter().collect()
}

/// A line holding no `\n`.
pub open spec fn no_newline(l: Seq<char>) -> bool {
    forall|i: int| 0 <= i < l.len() ==> #[trigger] l[i] != '\n'
}

/// What `trim_end` keeps is a prefix, what it drops is whitespace, and what
/// it keeps does not end in whitespace.
pub proof fn lemma_trim_end_shape(l: Seq<char>)
    ensures
        trim_end(l).len() <= l.len(),
        trim_end(l) == l.take(trim_end(l).len() as int),
        forall|i: int| trim_end(l).len() <= i < l.len() ==> is_white(#[trigger] l[i]),
        trim_end(l).len() > 0 ==> !is_white(trim_end(l).last()),
        trim_end(trim_end(l)) == trim_end(l),
    decreases l.len(),
{
    if l.len() > 0 && is_white(l.last()) {
        let d = l.drop_last();
        lemma_trim_end_shape(d);
        assert(d.take(trim_end(d).len() as int) =~= l.take(trim_end(d).len() as int));
        assert forall|i: int| trim_end(l).len() <= i < l.len() implies is_white(#[trigger] l[i]) by {
            if i < d.len() {
                assert(d[i] == l[i]);
            }
        }
    } else {
        assert(l.take(l.len() as int) =~= l);
    }
}

/// What `trim_start` keeps is a suffix, what it drops is whitespace, and what
/// it keeps does not begin with whitespace.
pub proof fn lemma_trim_start_shape(l: Seq<char>)
    ensures
        trim_start(l).len() <= l.len(),
        trim_start(l) == l.skip(l.len() - trim_start(l).len()),
        forall|i: int| 0 <= i < l.len() - trim_start(l).len() ==> is_white(#[trigger] l[i]),
        trim_start(l).len() > 0 ==> !is_white(trim_start(l)[0]),
    decreases l.len(),
{
    if l.len() > 0 && is_white(l[0]) {
        let d = l.drop_first();
        lemma_trim_start_shape(d);
        assert(d.skip(d.len() - trim_start(d).len()) =~= l.skip(l.len() - trim_start(d).len()));
        assert forall|i: int| 0 <= i < l.len() - trim_start(l).len() implies is_white(
            #[trigger] l[i],
        ) by {
            if i > 0 {
                assert(d[i - 1] == l[i]);
            }
        }
    } else {
        assert(l.skip(0) =~= l);
    }
}

/// Newline unification splits at a point not just after a `\r`.
pub proof fn lemma_crlf_concat(a: Seq<char>, b: Seq<char>)
    requires
        a.len() == 0 || a.last() != '\r',
    ensures
        crlf_to_lf(a + b) == crlf_to_lf(a) + crlf_to_lf(b),
    decreases a.len(),
{
    if a.len() == 0 {
        assert(a + b =~= b);
        assert(crlf_to_lf(a) + crlf_to_lf(b) =~= crlf_to_lf(b));
    } else if a.len() >= 2 && a[0] == '\r' && a[1] == '\n' {
        assert((a + b).skip(2) =~= a.skip(2) + b);
        lemma_crlf_concat(a.skip(2), b);
        assert(crlf_to_lf(a + b) =~= crlf_to_lf(a) + crlf_to_lf(b));
    } else {
        assert((a + b).skip(1) =~= a.skip(1) + b);
        lemma_crlf_concat(a.skip(1), b);
        assert(crlf_to_lf(a + b) =~= crlf_to_lf(a) + crlf_to_lf(b));
    }
}

/// Text without `\n` is left alone by newline unification.
pub proof fn lemma_crlf_plain(x: Seq<char>)
    requires
        no_newline(x),
    ensures
        crlf_to_lf(x) == x,
    decreases x.len(),
{
    if x.len() > 0 {
        if x.len() >= 2 {
            assert(x[1] != '\n');
        }
        lemma_crlf_plain(x.skip(1));
        assert(seq![x[0]] + x.skip(1) =~= x);
    }
}

/// Text made of lines that hold no `\n` and do not end in `\r` has no
/// `\r\n` pair.
pub proof fn lemma_crlf_terminated(ls: Seq<Seq<char>>)
    requires
        forall|j: int|
            0 <= j < ls.len() ==> no_newline(#[trigger] ls[j]) && (ls[j].len() == 0
                || ls[j].last() != '\r'),
    ensures
        crlf_to_lf(terminated(ls)) == terminated(ls),
    decreases ls.len(),
{
    if ls.len() > 0 {
        let p = ls.drop_last();
        let x = ls.last();
        let t = terminated(p);
        let nl = seq!['\n'];
        assert(forall|j: int| 0 <= j < p.len() ==> #[trigger] p[j] == ls[j]);
        lemma_crlf_terminated(p);
        assert(terminated(ls) =~= t + (x + nl));
        lemma_crlf_concat(t, x + nl);
        lemma_crlf_concat(x, nl);
        lemma_crlf_plain(x);
        assert(nl.skip(1) =~= Seq::<char>::empty());
        assert(crlf_to_lf(Seq::<char>::empty()) == Seq::<char>::empty());
        assert(crlf_to_lf(nl) == seq![nl[0]] + crlf_to_lf(nl.skip(1)));
        assert(crlf_to_lf(nl) =~= nl);
    }
}

/// Splitting always yields at least one line.
pub proof fn lemma_split_nonempty(s: Seq<char>)
    ensures
        split_lines(s).len() >= 1,
    decreases s.len(),
{
    if s.len() > 0 {
        lemma_split_nonempty(s.drop_last());
    }
}

/// No piece of a split holds a `\n`.
pub proof fn lemma_split_no_newline(s: Seq<char>)
    ensures
        forall|j: int| 0 <= j < split_lines(s).len() ==> no_newline(#[trigger] split_lines(s)[j]),
    decreases s.len(),
{
    if s.len() > 0 {
        lemma_split_no_newline(s.drop_last());
        lemma_split_nonempty(s.drop_last());
    }
}

/// Text without `\n` appended to `a` extends the last line of its split.
pub proof fn lemma_split_extend(a: Seq<char>, x: Seq<char>)
    requires
        no_newline(x),
    ensures
        split_lines(a + x) == split_lines(a).update(
            split_lines(a).len() - 1,
            split_lines(a).last() + x,
        ),
    decreases x.len(),
{
    lemma_split_nonempty(a);
    let sa = split_lines(a);
    if x.len() == 0 {
        assert(a + x =~= a);
        assert(sa.update(sa.len() - 1, sa.last() + x) =~= sa);
    } else {
        let y = x.drop_last();
        lemma_split_extend(a, y);
        assert((a + x).drop_last() =~= a + y);
        assert(x.last() != '\n');
        let r = split_lines(a + y);
        assert(r.len() == sa.len());
        assert(r.last() == sa.last() + y);
        assert((a + x).last() == x.last());
        assert((sa.last() + y).push(x.last()) =~= sa.last() + x);
        assert(split_lines(a + x) =~= sa.update(sa.len() - 1, sa.last() + x));
    }
}

/// Splitting lines that each end in `\n` gives them back, with the empty
/// piece after the last `\n`.
pub proof fn lemma_split_terminated(ls: Seq<Seq<char>>)
    requires
        forall|j: int| 0 <= j < ls.len() ==> no_newline(#[trigger] ls[j]),
    ensures
        split_lines(terminated(ls)) == ls.push(Seq::<char>::empty()),
    decreases ls.len(),
{
    if ls.len() == 0 {
        assert(split_lines(terminated(ls)) =~= ls.push(Seq::<char>::empty()));
    } else {
        let p = ls.drop_last();
        let x = ls.last();
        let t = terminated(p);
        assert(forall|j: int| 0 <= j < p.len() ==> #[trigger] p[j] == ls[j]);
        lemma_split_terminated(p);
        lemma_split_extend(t, x);
        assert(Seq::<char>::empty() + x =~= x);
        assert(split_lines(t + x) =~= ls);
        assert(terminated(ls).drop_last() =~= t + x);
    }
}

} // verus!
