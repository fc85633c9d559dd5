//! Small string utilities shared by the parser and the style engine.

use vstd::prelude::*;

verus! {

/// Character-for-character equality of two string slices.
pub fn str_eq(a: &str, b: &str) -> (r: bool)
    ensures
        r == (a@ == b@),
{
    let x: String = a.to_owned();
    let y: String = b.to_owned();
    x == y
}

/// The characters of a string slice, in order.
pub fn str_chars(s: &str) -> (r: Vec<char>)
    ensures
        r@ == s@,
{
    let n = s.unicode_len();
    let mut r: Vec<char> = Vec::new();
    let mut i: usize = 0;
    while i < n
        invariant
            n == s@.len(),
            i <= n,
            r@ == s@.subrange(0, i as int),
        decreases n - i,
    {
        r.push(s.get_char(i));
        i = i + 1;
        proof {
            assert(r@ =~= s@.subrange(0, i as int));
        }
    }
    proof {
        assert(r@ =~= s@);
    }
    r
}

/// Relies on `String::from_iter` (via `Iterator::collect`): building a string
/// from characters yields exactly those characters in order.
#[verifier::external_body]
pub fn chars_to_string(v: Vec<char>) -> (s: String)
    ensures
        s@ == v@,
{
    v.into_iter().collect()
}

/// The position of the first space at or after `i`, or the length.
pub open spec fn space_pos(s: Seq<char>, i: int) -> int
    decreases s.len() - i when 0 <= i <= s.len()
{
    if i == s.len() {
        i
    } else if s[i] == ' ' {
        i
    } else {
        space_pos(s, i + 1)
    }
}

pub proof fn lemma_space_pos(s: Seq<char>, i: int)
    requires
        0 <= i <= s.len(),
    ensures
        i <= space_pos(s, i) <= s.len(),
        space_pos(s, i) < s.len() ==> s[space_pos(s, i)] == ' ',
        forall|k: int| i <= k < space_pos(s, i) ==> s[k] != ' ',
    decreases s.len() - i,
{
    if i < s.len() && s[i] != ' ' {
        lemma_space_pos(s, i + 1);
    }
}

/// `space_pos` is the scan the parser performs: no space before `j`, and a
/// space (or the end) at `j`.
pub proof fn lemma_space_pos_is(s: Seq<char>, i: int, j: int)
    requires
        0 <= i <= j <= s.len(),
        forall|k: int| i <= k < j ==> s[k] != ' ',
        j < s.len() ==> s[j] == ' ',
    ensures
        space_pos(s, i) == j,
    decreases j - i,
{
    if i < j {
        lemma_space_pos_is(s, i + 1, j);
    }
}

/// The pieces of `s` from `i` on, split on every single space.
pub open spec fn split_spaces_at(s: Seq<char>, i: int) -> Seq<Seq<char>>
    decreases s.len() - i when 0 <= i <= s.len() via split_spaces_at_decreases
{
    let j = space_pos(s, i);
    if j >= s.len() {
        seq![s.subrange(i, s.len() as int)]
    } else {
        seq![s.subrange(i, j)] + split_spaces_at(s, j + 1)
    }
}

#[via_fn]
proof fn split_spaces_at_decreases(s: Seq<char>, i: int) {
    lemma_space_pos(s, i);
}

/// The pieces of `s`, split on every single space. Splitting the empty
/// string yields one empty piece, as `str::split` does.
pub open spec fn split_spaces(s: Seq<char>) -> Seq<Seq<char>> {
    split_spaces_at(s, 0)
}

/// Split a string on single spaces.
pub fn split_on_space(s: &str) -> (r: Vec<String>)
    ensures
        r@.map_values(|p: String| p@) == split_spaces(s@),
{
    let cs = str_chars(s);
    let n = cs.len();
    let mut parts: Vec<String> = Vec::new();
    let mut cur: Vec<char> = Vec::new();
    let mut start: usize = 0;
    let mut k: usize = 0;
    while k < n
        invariant
            n == cs.len(),
            cs@ == s@,
            0 <= start <= k <= n,
            cur@ == s@.subrange(start as int, k as int),
            forall|m: int| start <= m < k ==> s@[m] != ' ',
            parts@.map_values(|p: String| p@) + split_spaces_at(s@, start as int)
                =~= split_spaces(s@),
        decreases n - k,
    {
        let c = cs[k];
        if c == ' ' {
            proof {
                lemma_space_pos_is(s@, start as int, k as int);
                assert(split_spaces_at(s@, start as int)
                    == seq![s@.subrange(start as int, k as int)]
                        + split_spaces_at(s@, k + 1));
            }
            let piece = chars_to_string(cur);
            cur = Vec::new();
            proof {
                let f = |p: String| p@;
                assert(parts@.push(piece).map_values(f)
                    =~= parts@.map_values(f).push(piece@));
            }
            parts.push(piece);
            start = k + 1;
            k = k + 1;
            proof {
                assert(cur@ =~= s@.subrange(start as int, k as int));
            }
        } else {
            cur.push(c);
            k = k + 1;
            proof {
                assert(cur@ =~= s@.subrange(start as int, k as int));
            }
        }
    }
    proof {
        lemma_space_pos_is(s@, start as int, n as int);
        assert(split_spaces_at(s@, start as int)
            == seq![s@.subrange(start as int, n as int)]);
    }
    let piece = chars_to_string(cur);
    proof {
        let f = |p: String| p@;
        assert(parts@.push(piece).map_values(f) =~= parts@.map_values(f).push(piece@));
        assert(parts@.map_values(f).push(piece@)
            =~= parts@.map_values(f) + seq![s@.subrange(start as int, n as int)]);
    }
    parts.push(piece);
    parts
}

} // verus!
