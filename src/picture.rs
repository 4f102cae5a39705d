//! Picture formats such as `s9(7)v99`: the count of fractional digits that a
//! picture implies is the length of what follows its first `v` marker.
use vstd::prelude::*;
use vstd::string::is_ascii_spec_bytes;
use vstd::utf8::{encode_scalar, encode_utf8};

verus! {

/// The byte of the `v` marker.
pub const MARKER: u8 = 118;

/// The number of characters after the first `v` of a picture, or zero where
/// it has none.
pub open spec fn decimals_after_marker(picture: Seq<char>) -> nat
    decreases picture.len(),
{
    if picture.len() == 0 {
        0
    } else if picture[0] == 'v' {
        (picture.len() - 1) as nat
    } else {
        decimals_after_marker(picture.drop_first())
    }
}

proof fn lemma_marker_at(picture: Seq<char>, i: int)
    requires
        0 <= i < picture.len(),
        picture[i] == 'v',
        forall|j: int| 0 <= j < i ==> picture[j] != 'v',
    ensures
        decimals_after_marker(picture) == picture.len() - i - 1,
    decreases i,
{
    if i > 0 {
        let rest = picture.drop_first();
        assert forall|j: int| 0 <= j < i - 1 implies rest[j] != 'v' by {
            assert(rest[j] == picture[j + 1]);
        }
        lemma_marker_at(rest, i - 1);
    }
}

proof fn lemma_no_marker(picture: Seq<char>)
    requires
        forall|j: int| 0 <= j < picture.len() ==> picture[j] != 'v',
    ensures
        decimals_after_marker(picture) == 0,
    decreases picture.len(),
{
    if picture.len() > 0 {
        let rest = picture.drop_first();
        assert forall|j: int| 0 <= j < rest.len() implies rest[j] != 'v' by {
            assert(rest[j] == picture[j + 1]);
        }
        lemma_no_marker(rest);
    }
}

/// Relies on `memchr::memchr`: the index of the first occurrence of `needle`
/// in `haystack`, or `None` where it does not occur.
#[verifier::external_body]
fn find_byte(needle: u8, haystack: &[u8]) -> (r: Option<usize>)
    ensures
        match r {
            Some(i) => i < haystack@.len() && haystack@[i as int] == needle && forall|j: int|
                0 <= j < i ==> haystack@[j] != needle,
            None => forall|j: int| 0 <= j < haystack@.len() ==> haystack@[j] != needle,
        },
{
    memchr::memchr(needle, haystack)
}

/// A text has no more characters than its UTF-8 encoding has bytes.
proof fn lemma_chars_within_bytes(chars: Seq<char>)
    ensures
        chars.len() <= encode_utf8(chars).len(),
    decreases chars.len(),
{
    if chars.len() > 0 {
        lemma_chars_within_bytes(chars.drop_first());
        assert(encode_scalar(chars[0] as u32).len() >= 1);
    }
}

/// The number of fractional digits that a picture format implies: the
/// number of characters after its first `v`, or zero without one. What
/// follows the `v` is counted and not otherwise checked.
pub fn decimal_places_from_picture(picture: &str) -> (r: usize)
    ensures
        r == decimals_after_marker(picture@),
{
    let bytes = picture.as_bytes();
    if picture.is_ascii() {
        proof {
            is_ascii_spec_bytes(picture);
            assert forall|j: int| 0 <= j < picture@.len() implies (bytes@[j] == MARKER
                <==> #[trigger] picture@[j] == 'v') by {
                assert('\0' <= picture@[j] <= '\u{7f}');
            }
        }
        match find_byte(MARKER, bytes) {
            Some(pos) => {
                proof {
                    lemma_marker_at(picture@, pos as int);
                }
                bytes.len() - pos - 1
            },
            None => {
                proof {
                    lemma_no_marker(picture@);
                }
                0
            },
        }
    } else {
        // Outside ASCII a character may take several bytes: count characters.
        let n = bytes.len();
        proof {
            lemma_chars_within_bytes(picture@);
        }
        let ghost p = picture@;
        let mut seen = false;
        let mut count: usize = 0;
        let ghost mut first: int = 0;
        for c in it: picture.chars()
            invariant
                it.seq() == p,
                p.len() <= n,
                seen ==> 0 <= first < it.index() && p[first] == 'v' && (forall|j: int|
                    0 <= j < first ==> p[j] != 'v') && count == it.index() - first - 1,
                !seen ==> count == 0,
                !seen ==> forall|j: int| 0 <= j < it.index() ==> p[j] != 'v',
        {
            assert(c == p[it.index()]);
            if seen {
                count = count + 1;
            } else if c == 'v' {
                seen = true;
                proof {
                    first = it.index();
                }
            }
        }
        proof {
            if seen {
                lemma_marker_at(p, first);
            } else {
                lemma_no_marker(p);
            }
        }
        count
    }
}

} // verus!
