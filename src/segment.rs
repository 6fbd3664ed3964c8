//! Breaking a text value into the lines that it spans.
use vstd::prelude::*;

verus! {

/// The pieces of `s` between its line feeds, in order: one piece more than
/// `s` holds line feeds, empty pieces included.
pub open spec fn split_raw(s: Seq<char>) -> Seq<Seq<char>>
    decreases s.len(),
{
    if s.len() == 0 {
        seq![Seq::empty()]
    } else {
        let before = split_raw(s.drop_last());
        if s.last() == '\n' {
            before.push(Seq::empty())
        } else {
            before.update(before.len() - 1, before.last().push(s.last()))
        }
    }
}

/// `p` without the carriage return that ends it, if one does.
pub open spec fn strip_cr(p: Seq<char>) -> Seq<char> {
    if p.len() > 0 && p.last() == '\r' {
        p.drop_last()
    } else {
        p
    }
}

/// The lines of `s`, broken at each "\r\n" and at each "\n" that no
/// carriage return precedes.
pub open spec fn lines_of(s: Seq<char>) -> Seq<Seq<char>> {
    let raw = split_raw(s);
    Seq::new(
        raw.len(),
        |k: int|
            if k + 1 < raw.len() {
                strip_cr(raw[k])
            } else {
                raw[k]
            },
    )
}

/// The characters of each string slice.
pub open spec fn strs_view<'a>(v: Seq<&'a str>) -> Seq<Seq<char>> {
    v.map_values(|p: &'a str| p@)
}

pub proof fn lemma_split_raw_nonempty(s: Seq<char>)
    ensures
        split_raw(s).len() >= 1,
    decreases s.len(),
{
    if s.len() > 0 {
        lemma_split_raw_nonempty(s.drop_last());
    }
}

/// Relies on `str::split` with a `char` pattern: the substrings between
/// successive line feeds, in order, the first and last included even when
/// empty.
#[verifier::external_body]
fn split_on_line_feeds<'a>(s: &'a str) -> (r: Vec<&'a str>)
    ensures
        strs_view(r@) == split_raw(s@),
{
    s.split('\n').collect()
}

/// `p` without its final carriage return, if it has one.
fn without_cr<'a>(p: &'a str) -> (r: &'a str)
    ensures
        r@ == strip_cr(p@),
{
    let n = p.unicode_len();
    if n > 0 && p.get_char(n - 1) == '\r' {
        p.substring_char(0, n - 1)
    } else {
        p
    }
}

/// Splits a text value into its lines, at "\r\n" and at "\n".
pub fn split_lines<'a>(value: &'a str) -> (r: Vec<&'a str>)
    ensures
        strs_view(r@) == lines_of(value@),
{
    let raw = split_on_line_feeds(value);
    proof {
        lemma_split_raw_nonempty(value@);
    }
    let mut r: Vec<&'a str> = Vec::new();
    let mut k: usize = 0;
    while k < raw.len()
        invariant
            k <= raw@.len(),
            strs_view(raw@) == split_raw(value@),
            r@.len() == k,
            forall|j: int| 0 <= j < k ==> #[trigger] r@[j]@ == lines_of(value@)[j],
        decreases raw@.len() - k,
    {
        let piece = if k + 1 < raw.len() {
            without_cr(raw[k])
        } else {
            raw[k]
        };
        proof {
            assert(strs_view(raw@)[k as int] == raw@[k as int]@);
        }
        r.push(piece);
        k = k + 1;
    }
    proof {
        assert(strs_view(r@) =~= lines_of(value@));
    }
    r
}

} // verus!
