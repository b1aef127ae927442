//! What a fetch does with a response: read it as HTML, or not at all.
use vstd::prelude::*;

verus! {

/// Whether `needle` occurs in `hay` as a contiguous piece.
pub open spec fn occurs_in(hay: Seq<char>, needle: Seq<char>) -> bool {
    exists|i: int| 0 <= i && i + needle.len() <= hay.len() && #[trigger] hay.subrange(i, i + needle.len()) == needle
}

/// Whether a response with this `Content-Type` is read as HTML: the header
/// is present and contains `text/html`.
pub open spec fn html_content(content_type: Option<Seq<char>>) -> bool {
    match content_type {
        Some(c) => occurs_in(c, "text/html"@),
        None => false,
    }
}

/// Whether `needle` occurs in `hay`.
pub fn contains_text_piece(hay: &str, needle: &str) -> (r: bool)
    ensures
        r == occurs_in(hay@, needle@),
{
    let n = hay.unicode_len();
    let m = needle.unicode_len();
    if m > n {
        return false;
    }
    let last = n - m;
    let mut i: usize = 0;
    while i <= last
        invariant
            n == hay@.len(),
            m == needle@.len(),
            last == n - m,
            i <= last,
            forall|k: int| 0 <= k < i ==> #[trigger] hay@.subrange(k, k + m) != needle@,
        decreases last - i,
    {
        let mut j: usize = 0;
        let mut same = true;
        assert(hay@.subrange(i as int, i as int) =~= needle@.take(0));
        while j < m
            invariant
                n == hay@.len(),
                m == needle@.len(),
                i + m <= n,
                j <= m,
                same == (hay@.subrange(i as int, i + j) == needle@.take(j as int)),
            decreases m - j,
        {
            if same && hay.get_char(i + j) != needle.get_char(j) {
                same = false;
                assert(hay@.subrange(i as int, i + j + 1)[j as int] != needle@.take(j + 1)[j as int]);
            } else if same {
                assert(hay@.subrange(i as int, i + j + 1) =~= hay@.subrange(i as int, i + j).push(hay@[i + j]));
                assert(needle@.take(j + 1) =~= needle@.take(j as int).push(needle@[j as int]));
            } else {
                assert(hay@.subrange(i as int, i + j + 1).take(j as int) =~= hay@.subrange(i as int, i + j));
                assert(needle@.take(j + 1).take(j as int) =~= needle@.take(j as int));
            }
            j = j + 1;
        }
        assert(needle@.take(m as int) =~= needle@);
        if same {
            return true;
        }
        if i == last {
            return false;
        }
        i = i + 1;
    }
    false
}

/// Whether a response with this `Content-Type` header is to be read as HTML.
pub fn is_html(content_type: Option<&str>) -> (r: bool)
    ensures
        r == html_content(
            match content_type {
                Some(c) => Some(c@),
                None => None,
            },
        ),
{
    match content_type {
        Some(c) => contains_text_piece(c, "text/html"),
        None => false,
    }
}

} // verus!
