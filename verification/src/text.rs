//! ASCII case-insensitive substring matching, used by the status filter:
//! a record passes a filter when the lower-case form of its status label
//! contains the lower-case form of the filter text.

use vstd::prelude::*;

verus! {

/// ASCII lower-casing of one character; other characters are unchanged.
pub open spec fn lower_char(c: char) -> char {
    if 'A' <= c <= 'Z' {
        ((c as u8) + 32) as char
    } else {
        c
    }
}

/// ASCII lower-casing of a character sequence.
pub open spec fn lower_seq(s: Seq<char>) -> Seq<char> {
    s.map_values(|c: char| lower_char(c))
}

/// Whether `needle` occurs in `hay` starting at position `at`.
pub open spec fn matches_at(hay: Seq<char>, needle: Seq<char>, at: int) -> bool {
    &&& 0 <= at
    &&& at + needle.len() <= hay.len()
    &&& forall|j: int| 0 <= j < needle.len() ==> hay[at + j] == needle[j]
}

/// Whether `needle` occurs anywhere in `hay` as a contiguous subsequence.
pub open spec fn contains_seq(hay: Seq<char>, needle: Seq<char>) -> bool {
    exists|at: int| matches_at(hay, needle, at)
}

/// Lower-cases one ASCII character.
pub fn lower_char_exec(c: char) -> (r: char)
    ensures
        r == lower_char(c),
{
    if 'A' <= c && c <= 'Z' {
        ((c as u8) + 32) as char
    } else {
        c
    }
}

/// Whether `needle` occurs in `hay` when both are compared after ASCII
/// lower-casing.
pub fn contains_ci(hay: &str, needle: &str) -> (r: bool)
    ensures
        r == contains_seq(lower_seq(hay@), lower_seq(needle@)),
{
    let hay_len = hay.unicode_len();
    let needle_len = needle.unicode_len();
    if needle_len > hay_len {
        proof {
            assert forall|at: int| !matches_at(lower_seq(hay@), lower_seq(needle@), at) by {}
        }
        return false;
    }
    let mut at: usize = 0;
    while at <= hay_len - needle_len
        invariant
            needle_len <= hay_len,
            hay_len == hay@.len(),
            needle_len == needle@.len(),
            0 <= at <= hay_len - needle_len + 1,
            forall|k: int| 0 <= k < at ==> !matches_at(lower_seq(hay@), lower_seq(needle@), k),
        decreases hay_len - needle_len - at + 1,
    {
        let mut j: usize = 0;
        let mut hit = true;
        while hit && j < needle_len
            invariant
                needle_len <= hay_len,
                hay_len == hay@.len(),
                needle_len == needle@.len(),
                0 <= at <= hay_len - needle_len,
                0 <= j <= needle_len,
                hit ==> forall|k: int|
                    0 <= k < j ==> lower_seq(hay@)[at + k] == lower_seq(needle@)[k],
                !hit ==> !matches_at(lower_seq(hay@), lower_seq(needle@), at as int),
            decreases needle_len - j + if hit {
                1int
            } else {
                0int
            },
        {
            let hc = lower_char_exec(hay.get_char(at + j));
            let nc = lower_char_exec(needle.get_char(j));
            if hc != nc {
                proof {
                    assert(lower_seq(hay@)[at + j] != lower_seq(needle@)[j as int]);
                }
                hit = false;
            } else {
                proof {
                    assert(lower_seq(hay@)[at + j] == lower_seq(needle@)[j as int]);
                }
                j = j + 1;
            }
        }
        if hit {
            proof {
                assert(matches_at(lower_seq(hay@), lower_seq(needle@), at as int));
            }
            return true;
        }
        proof {
            assert(!matches_at(lower_seq(hay@), lower_seq(needle@), at as int));
        }
        at = at + 1;
    }
    proof {
        assert forall|k: int| !matches_at(lower_seq(hay@), lower_seq(needle@), k) by {
            if 0 <= k <= hay@.len() - needle@.len() {
                assert(!matches_at(lower_seq(hay@), lower_seq(needle@), k));
            }
        }
    }
    false
}

} // verus!
