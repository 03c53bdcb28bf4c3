//! Fragment-path recognition.
//!
//! A fragment path is a path that contains the marker `.FRAG-`. Everything
//! before the first occurrence of the marker is the base filename: the path
//! the reconstructed file will finally live at.

use vstd::prelude::*;

verus! {

/// The characters of the fragment marker, `.FRAG-`.
pub open spec fn marker() -> Seq<char> {
    seq!['.', 'F', 'R', 'A', 'G', '-']
}

/// The marker occupies positions `i .. i + 6` of `p`.
pub open spec fn marker_at(p: Seq<char>, i: int) -> bool {
    &&& 0 <= i
    &&& i + 6 <= p.len()
    &&& p.subrange(i, i + 6) == marker()
}

/// Index of the first occurrence of the marker at or after position `i`.
pub open spec fn first_marker_from(p: Seq<char>, i: nat) -> Option<nat>
    decreases p.len() - i,
{
    if i + 6 > p.len() {
        None
    } else if marker_at(p, i as int) {
        Some(i)
    } else {
        first_marker_from(p, i + 1)
    }
}

/// Index of the first occurrence of the marker in `p`, if any.
pub open spec fn first_marker(p: Seq<char>) -> Option<nat> {
    first_marker_from(p, 0)
}

/// A path names a fragment when it contains the marker.
pub open spec fn is_fragment(p: Seq<char>) -> bool {
    first_marker(p) is Some
}

/// The base filename of a path: the prefix before the first marker
/// occurrence, or the whole path when there is none.
pub open spec fn base_of(p: Seq<char>) -> Seq<char> {
    match first_marker(p) {
        Some(i) => p.take(i as int),
        None => p,
    }
}

/// `first_marker_from` returns the least marker position at or after `i`.
pub proof fn lemma_first_marker_from_least(p: Seq<char>, i: nat)
    ensures
        match first_marker_from(p, i) {
            Some(k) => {
                &&& i <= k
                &&& marker_at(p, k as int)
                &&& forall|j: int| i <= j < k ==> !marker_at(p, j)
            },
            None => forall|j: int| i <= j ==> !marker_at(p, j),
        },
    decreases p.len() - i,
{
    if i + 6 > p.len() {
    } else if marker_at(p, i as int) {
    } else {
        lemma_first_marker_from_least(p, i + 1);
    }
}

/// A base filename is never itself a fragment path: `base_of` cuts at
/// the first marker, so no marker survives in it. A reconstructed file
/// can therefore never be mistaken for a fragment of another file.
pub proof fn lemma_base_not_fragment(p: Seq<char>)
    ensures
        !is_fragment(base_of(p)),
{
    lemma_first_marker_from_least(p, 0);
    let base = base_of(p);
    if is_fragment(base) {
        lemma_first_marker_from_least(base, 0);
        let j: int = first_marker(base)->Some_0 as int;
        assert(marker_at(base, j));
        match first_marker(p) {
            Some(i) => {
                assert(base == p.take(i as int));
                assert(j + 6 <= i);
                assert(marker_at(p, j)) by {
                    assert(p.subrange(j, j + 6) =~= base.subrange(j, j + 6));
                }
            },
            None => {
                assert(base == p);
                assert(marker_at(p, j));
            },
        }
    }
}

/// Reports whether `p` is a fragment path: whether it contains the
/// marker `.FRAG-`.
pub fn is_fragment_path(p: &str) -> (r: bool)
    ensures
        r == is_fragment(p@),
{
    find_marker(p).is_some()
}

/// The base filename of `p`: the prefix before the first `.FRAG-`, or all
/// of `p` when it holds no marker.
pub fn base_filename(p: &str) -> (r: String)
    ensures
        r@ == base_of(p@),
{
    match find_marker(p) {
        Some(i) => {
            proof {
                lemma_first_marker_from_least(p@, 0);
            }
            let s = p.substring_char(0, i);
            proof {
                assert(s@ =~= p@.take(first_marker(p@)->Some_0 as int));
            }
            s.to_owned()
        },
        None => p.to_owned(),
    }
}

/// Finds the first occurrence of the marker in `p`.
fn find_marker(p: &str) -> (r: Option<usize>)
    ensures
        match r {
            Some(i) => first_marker(p@) == Some(i as nat),
            None => first_marker(p@) is None,
        },
{
    let n = p.unicode_len();
    if n < 6 {
        return None;
    }
    let mut i: usize = 0;
    while i <= n - 6
        invariant
            p@.len() == n,
            6 <= n,
            i <= n - 5,
            first_marker(p@) == first_marker_from(p@, i as nat),
        decreases n - i,
    {
        proof {
            lemma_marker_step(p@, i as nat);
        }
        if p.get_char(i) == '.' && p.get_char(i + 1) == 'F' && p.get_char(i + 2) == 'R'
            && p.get_char(i + 3) == 'A' && p.get_char(i + 4) == 'G' && p.get_char(i + 5) == '-' {
            proof {
                assert(p@.subrange(i as int, i + 6) =~= marker());
            }
            return Some(i);
        }
        proof {
            assert(!(p@.subrange(i as int, i + 6) =~= marker())) by {
                if p@.subrange(i as int, i + 6) =~= marker() {
                    assert(p@[i as int] == marker()[0]);
                    assert(p@[i + 1] == marker()[1]);
                    assert(p@[i + 2] == marker()[2]);
                    assert(p@[i + 3] == marker()[3]);
                    assert(p@[i + 4] == marker()[4]);
                    assert(p@[i + 5] == marker()[5]);
                }
            };
        }
        i = i + 1;
    }
    None
}

/// Unfolds `first_marker_from` one step at a position where the tail is
/// still long enough to hold the marker.
proof fn lemma_marker_step(p: Seq<char>, i: nat)
    requires
        i + 6 <= p.len(),
    ensures
        first_marker_from(p, i) == if marker_at(p, i as int) {
            Some(i)
        } else {
            first_marker_from(p, i + 1)
        },
{
}

} // verus!
