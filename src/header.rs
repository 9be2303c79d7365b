//! The closed set of header types, and how a header is recognized and
//! repaired.
use vstd::prelude::*;
use vstd::string::*;
use crate::text::{chars_of, trim};

verus! {

/// How many header types there are.
pub const HEADER_TYPE_COUNT: usize = 11;

/// The header types, in the order in which they are tried.
pub open spec fn header_types() -> Seq<Seq<char>> {
    seq![
        seq!['b', 'u', 'i', 'l', 'd'],
        seq!['c', 'h', 'o', 'r', 'e'],
        seq!['c', 'i'],
        seq!['d', 'o', 'c', 's'],
        seq!['f', 'e', 'a', 't'],
        seq!['f', 'i', 'x'],
        seq!['p', 'e', 'r', 'f'],
        seq!['r', 'e', 'f', 'a', 'c', 't', 'o', 'r'],
        seq!['r', 'e', 'v', 'e', 'r', 't'],
        seq!['s', 't', 'y', 'l', 'e'],
        seq!['t', 'e', 's', 't'],
    ]
}

/// An ASCII lowercase letter.
pub open spec fn is_ascii_lower(c: char) -> bool {
    'a' <= c && c <= 'z'
}

/// The ASCII capital of a lowercase ASCII letter; other characters stay.
pub open spec fn ascii_upper(c: char) -> char {
    if is_ascii_lower(c) {
        ((c as u32) - 32) as char
    } else {
        c
    }
}

/// `t` with an ASCII capital in place of its first character.
pub open spec fn capitalized(t: Seq<char>) -> Seq<char> {
    if t.len() == 0 {
        t
    } else {
        seq![ascii_upper(t[0])] + t.drop_first()
    }
}

/// What `char::to_uppercase` yields for `c`.
pub uninterp spec fn upper_of(c: char) -> Seq<char>;

/// Relies on `char::to_uppercase`: the characters of the uppercase mapping
/// of `c`, which for an ASCII lowercase letter is its ASCII capital.
#[verifier::external_body]
fn uppercase_char(c: char) -> (r: String)
    ensures
        r@ == upper_of(c),
        is_ascii_lower(c) ==> r@ == seq![ascii_upper(c)],
{
    c.to_uppercase().collect()
}

/// `s` with its first character in upper case and the rest unchanged.
pub fn capitalize(s: &str) -> (r: String)
    ensures
        s@.len() == 0 ==> r@ == Seq::<char>::empty(),
        s@.len() > 0 ==> r@ == upper_of(s@[0]) + s@.drop_first(),
        s@.len() > 0 && is_ascii_lower(s@[0]) ==> r@ == capitalized(s@),
{
    let n = s.unicode_len();
    if n == 0 {
        return String::new();
    }
    let mut r = uppercase_char(s.get_char(0));
    let rest = s.substring_char(1, n);
    r.append(rest);
    assert(rest@ =~= s@.drop_first());
    r
}

/// Header types are nonempty lowercase ASCII; their capitalized forms do
/// not start in lower case.
pub proof fn lemma_header_types_lower(i: int)
    requires
        0 <= i < header_types().len(),
    ensures
        header_types()[i].len() > 0,
        is_ascii_lower(header_types()[i][0]),
        forall|k: int| 0 <= k < header_types()[i].len() ==> is_ascii_lower(#[trigger] header_types()[i][k]),
        !is_ascii_lower(capitalized(header_types()[i])[0]),
{
}

/// The header type at position `i`.
pub fn header_type(i: usize) -> (r: &'static str)
    requires
        i < HEADER_TYPE_COUNT,
    ensures
        r@ == header_types()[i as int],
{
    if i == 0 {
        proof {
            reveal_strlit("build");
        }
        assert("build"@ =~= header_types()[0]);
        "build"
    } else if i == 1 {
        proof {
            reveal_strlit("chore");
        }
        assert("chore"@ =~= header_types()[1]);
        "chore"
    } else if i == 2 {
        proof {
            reveal_strlit("ci");
        }
        assert("ci"@ =~= header_types()[2]);
        "ci"
    } else if i == 3 {
        proof {
            reveal_strlit("docs");
        }
        assert("docs"@ =~= header_types()[3]);
        "docs"
    } else if i == 4 {
        proof {
            reveal_strlit("feat");
        }
        assert("feat"@ =~= header_types()[4]);
        "feat"
    } else if i == 5 {
        proof {
            reveal_strlit("fix");
        }
        assert("fix"@ =~= header_types()[5]);
        "fix"
    } else if i == 6 {
        proof {
            reveal_strlit("perf");
        }
        assert("perf"@ =~= header_types()[6]);
        "perf"
    } else if i == 7 {
        proof {
            reveal_strlit("refactor");
        }
        assert("refactor"@ =~= header_types()[7]);
        "refactor"
    } else if i == 8 {
        proof {
            reveal_strlit("revert");
        }
        assert("revert"@ =~= header_types()[8]);
        "revert"
    } else if i == 9 {
        proof {
            reveal_strlit("style");
        }
        assert("style"@ =~= header_types()[9]);
        "style"
    } else {
        proof {
            reveal_strlit("test");
        }
        assert("test"@ =~= header_types()[10]);
        "test"
    }
}

/// `h` begins with `t` followed by `:` or `(`.
pub open spec fn opens_with(h: Seq<char>, t: Seq<char>) -> bool {
    &&& h.len() > t.len()
    &&& h.take(t.len() as int) == t
    &&& (h[t.len() as int] == ':' || h[t.len() as int] == '(')
}

/// `h` opens with one of the header types.
pub open spec fn has_valid_type(h: Seq<char>) -> bool {
    exists|i: int| 0 <= i < header_types().len() && opens_with(h, #[trigger] header_types()[i])
}

/// The first header type from position `i` on whose capitalized form `h`
/// opens with, that prefix lowered back to the type; `None` if there is none.
pub open spec fn repair_from(h: Seq<char>, i: int) -> Option<Seq<char>>
    decreases header_types().len() - i,
{
    if i < 0 || i >= header_types().len() {
        None
    } else if opens_with(h, capitalized(header_types()[i])) {
        Some(header_types()[i] + h.skip(header_types()[i].len() as int))
    } else {
        repair_from(h, i + 1)
    }
}

/// The header line as it is written out: the repaired trimmed line where a
/// capitalized type was found, else the line unchanged.
pub open spec fn written_header(first: Seq<char>) -> Seq<char> {
    match repair_from(trim(first), 0) {
        Some(r) => r,
        None => first,
    }
}

/// The header text that is validated: the repaired trimmed line where a
/// capitalized type was found, else the trimmed line.
pub open spec fn checked_header(first: Seq<char>) -> Seq<char> {
    match repair_from(trim(first), 0) {
        Some(r) => r,
        None => trim(first),
    }
}

/// Whether `h` begins with `t` followed by `:` or `(`.
pub fn opens_with_exec(h: &Vec<char>, t: &Vec<char>) -> (r: bool)
    ensures
        r == opens_with(h@, t@),
{
    if h.len() <= t.len() {
        return false;
    }
    let mut j: usize = 0;
    while j < t.len()
        invariant
            j <= t.len() < h.len(),
            forall|k: int| 0 <= k < j ==> h@[k] == t@[k],
        decreases t.len() - j,
    {
        if h[j] != t[j] {
            assert(h@.take(t.len() as int)[j as int] != t@[j as int]);
            return false;
        }
        j = j + 1;
    }
    assert(h@.take(t.len() as int) =~= t@);
    h[t.len()] == ':' || h[t.len()] == '('
}

/// Whether `h` opens with one of the header types.
pub fn has_valid_type_exec(h: &Vec<char>) -> (r: bool)
    ensures
        r == has_valid_type(h@),
{
    let mut i: usize = 0;
    while i < HEADER_TYPE_COUNT
        invariant
            i <= HEADER_TYPE_COUNT,
            forall|k: int| 0 <= k < i ==> !opens_with(h@, #[trigger] header_types()[k]),
        decreases HEADER_TYPE_COUNT - i,
    {
        let t = chars_of(header_type(i));
        if opens_with_exec(h, &t) {
            return true;
        }
        i = i + 1;
    }
    false
}

/// The trimmed header `h` with its capitalized type lowered, if it opens
/// with one.
pub fn repair_header(h: &Vec<char>) -> (r: Option<Vec<char>>)
    ensures
        repair_from(h@, 0) == match r {
            Some(v) => Some(v@),
            None => None::<Seq<char>>,
        },
{
    let mut i: usize = 0;
    while i < HEADER_TYPE_COUNT
        invariant
            i <= HEADER_TYPE_COUNT,
            repair_from(h@, 0) == repair_from(h@, i as int),
        decreases HEADER_TYPE_COUNT - i,
    {
        let name = header_type(i);
        proof {
            lemma_header_types_lower(i as int);
        }
        let cap = capitalize(name);
        let capv = chars_of(cap.as_str());
        if opens_with_exec(h, &capv) {
            let mut v = chars_of(name);
            let n = v.len();
            let mut j: usize = n;
            while j < h.len()
                invariant
                    n <= j <= h.len(),
                    n == header_types()[i as int].len(),
                    v@ == header_types()[i as int] + h@.subrange(n as int, j as int),
                decreases h.len() - j,
            {
                v.push(h[j]);
                j = j + 1;
                assert(v@ =~= header_types()[i as int] + h@.subrange(n as int, j as int));
            }
            assert(h@.subrange(n as int, j as int) =~= h@.skip(n as int));
            return Some(v);
        }
        i = i + 1;
    }
    None
}

} // verus!
