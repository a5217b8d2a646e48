//! Splitting a character sequence on a separator substring, the way the query
//! language splits expressions on ` OR ` and ` AND `: repeatedly at the first
//! occurrence of the separator.

use vstd::prelude::*;
use crate::text::{copy_chars, find_first, find_sub, is_match_at, lemma_find_first_some, subvec};

verus! {

/// The pieces of `s` between occurrences of `sep`, splitting at the first
/// occurrence each time. A string without the separator is one piece.
pub open spec fn split_on(s: Seq<char>, sep: Seq<char>) -> Seq<Seq<char>>
    decreases s.len(),
    via split_on_dec
{
    if sep.len() == 0 {
        seq![s]
    } else {
        match find_first(s, sep) {
            None => seq![s],
            Some(i) => seq![s.subrange(0, i)] + split_on(
                s.subrange(i + sep.len(), s.len() as int),
                sep,
            ),
        }
    }
}

#[via_fn]
proof fn split_on_dec(s: Seq<char>, sep: Seq<char>) {
    if sep.len() > 0 {
        match find_first(s, sep) {
            None => {},
            Some(i) => {
                lemma_find_first_some(s, sep);
                assert(0 <= i && i + sep.len() <= s.len());
            },
        }
    }
}

/// A split is never empty.
pub proof fn lemma_split_on_nonempty(s: Seq<char>, sep: Seq<char>)
    ensures
        split_on(s, sep).len() >= 1,
{
    if sep.len() == 0 {
    } else {
        match find_first(s, sep) {
            None => {},
            Some(i) => {},
        }
    }
}

/// Every piece of a split is at most as long as the string; when the
/// separator occurs, every piece is shorter by at least the separator.
pub proof fn lemma_split_on_piece_len(s: Seq<char>, sep: Seq<char>)
    requires
        sep.len() > 0,
    ensures
        forall|k: int|
            0 <= k < split_on(s, sep).len() ==> #[trigger] split_on(s, sep)[k].len() <= s.len(),
        find_first(s, sep) is Some ==> forall|k: int|
            0 <= k < split_on(s, sep).len() ==> #[trigger] split_on(s, sep)[k].len() + sep.len()
                <= s.len(),
    decreases s.len(),
{
    match find_first(s, sep) {
        None => {},
        Some(i) => {
            lemma_find_first_some(s, sep);
            let rest = s.subrange(i + sep.len(), s.len() as int);
            lemma_split_on_piece_len(rest, sep);
            assert forall|k: int| 0 <= k < split_on(s, sep).len() implies #[trigger] split_on(
                s,
                sep,
            )[k].len() + sep.len() <= s.len() by {
                if k == 0 {
                    assert(split_on(s, sep)[0] == s.subrange(0, i));
                } else {
                    assert(split_on(s, sep)[k] == split_on(rest, sep)[k - 1]);
                    assert(split_on(rest, sep)[k - 1].len() <= rest.len());
                }
            }
        },
    }
}

/// Splits `s` on `sep`, mirroring `split_on`.
pub fn split_vec(s: &Vec<char>, sep: &Vec<char>) -> (r: Vec<Vec<char>>)
    requires
        sep@.len() > 0,
    ensures
        r.deep_view() == split_on(s@, sep@),
    decreases s@.len(),
{
    match find_sub(s, sep) {
        None => {
            let mut r: Vec<Vec<char>> = Vec::new();
            r.push(copy_chars(s));
            proof {
                assert(r.deep_view() =~~= split_on(s@, sep@));
            }
            r
        },
        Some(i) => {
            proof {
                lemma_find_first_some(s@, sep@);
                assert(is_match_at(s@, sep@, i as int));
                assert(i + sep@.len() <= s@.len());
                assert(s@.len() == s.len());
                assert(sep@.len() == sep.len());
            }
            let head = subvec(s, 0, i);
            let restv = subvec(s, i + sep.len(), s.len());
            let tail = split_vec(&restv, sep);
            let mut r: Vec<Vec<char>> = Vec::new();
            r.push(head);
            proof {
                assert(r.deep_view() =~~= seq![s@.subrange(0, i as int)]
                    + tail.deep_view().subrange(0, 0));
            }
            let mut k: usize = 0;
            while k < tail.len()
                invariant
                    0 <= k <= tail.len(),
                    0 <= i as int <= s@.len(),
                    r.deep_view() == seq![s@.subrange(0, i as int)] + tail.deep_view().subrange(
                        0,
                        k as int,
                    ),
                decreases tail.len() - k,
            {
                let piece = copy_chars(&tail[k]);
                let ghost dv_before = r.deep_view();
                r.push(piece);
                proof {
                    assert(r@.last() == piece);
                    assert(r.deep_view() =~~= dv_before.push(piece@));
                    assert(piece@ == tail.deep_view()[k as int]);
                    assert(r.deep_view() =~~= seq![s@.subrange(0, i as int)]
                        + tail.deep_view().subrange(0, k as int + 1));
                }
                k = k + 1;
            }
            proof {
                assert(tail.deep_view().subrange(0, tail.len() as int) =~~= tail.deep_view());
                assert(r.deep_view() =~~= split_on(s@, sep@));
            }
            r
        },
    }
}

} // verus!
