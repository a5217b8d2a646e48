//! The bridge between `&str`/`String` at the public surface and the
//! `Vec<char>` the engine works on, plus Unicode lowercasing for the
//! case-insensitive description search. These are the only trusted items of
//! the crate; everything else is verified against them.

use vstd::prelude::*;

verus! {

/// Relies on str::chars: it yields exactly the characters of the string,
/// which are the string's view.
#[verifier::external_body]
pub(crate) fn chars_of(s: &str) -> (r: Vec<char>)
    ensures
        r@ == s@,
{
    s.chars().collect()
}

/// Relies on String::from_iter over characters: the built string holds
/// exactly the characters handed to it, which are its view.
#[verifier::external_body]
pub(crate) fn string_of(v: &Vec<char>) -> (r: String)
    ensures
        r@ == v@,
{
    v.iter().collect()
}

/// Converts a list of character vectors into strings, keeping the views.
pub fn strings_of(v: &Vec<Vec<char>>) -> (r: Vec<String>)
    ensures
        r.deep_view() == v.deep_view(),
{
    let mut r: Vec<String> = Vec::new();
    let mut i: usize = 0;
    while i < v.len()
        invariant
            0 <= i <= v.len(),
            r.deep_view() == v.deep_view().subrange(0, i as int),
        decreases v.len() - i,
    {
        let ghost before = r.deep_view();
        r.push(string_of(&v[i]));
        i = i + 1;
        proof {
            assert(r.deep_view() =~~= before.push(v.deep_view()[i - 1]));
            assert(r.deep_view() =~~= v.deep_view().subrange(0, i as int));
        }
    }
    proof {
        assert(v.deep_view().subrange(0, v.len() as int) =~~= v.deep_view());
    }
    r
}

/// Converts a list of strings into character vectors, keeping the views.
pub fn chars_of_strings(v: &Vec<String>) -> (r: Vec<Vec<char>>)
    ensures
        r.deep_view() == v.deep_view(),
{
    let mut r: Vec<Vec<char>> = Vec::new();
    let mut i: usize = 0;
    while i < v.len()
        invariant
            0 <= i <= v.len(),
            r.deep_view() == v.deep_view().subrange(0, i as int),
        decreases v.len() - i,
    {
        let ghost before = r.deep_view();
        r.push(chars_of(v[i].as_str()));
        i = i + 1;
        proof {
            assert(r.deep_view() =~~= before.push(v.deep_view()[i - 1]));
            assert(r.deep_view() =~~= v.deep_view().subrange(0, i as int));
        }
    }
    proof {
        assert(v.deep_view().subrange(0, v.len() as int) =~~= v.deep_view());
    }
    r
}

/// What str::to_lowercase returns; it depends on the characters alone.
pub uninterp spec fn lower_of(s: Seq<char>) -> Seq<char>;

/// Relies on str::to_lowercase: the result is a function of the characters
/// alone (the Unicode lowercase mapping, no locale involved), and an empty
/// string stays empty.
#[verifier::external_body]
pub(crate) fn lowercase(s: &str) -> (r: String)
    ensures
        r@ == lower_of(s@),
        s@.len() == 0 ==> r@.len() == 0,
{
    s.to_lowercase()
}

} // verus!
