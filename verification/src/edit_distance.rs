//! Levenshtein edit distance between two texts, counted in characters.
use vstd::prelude::*;
use crate::text::{char_count_bound, chars_of};

verus! {

pub open spec fn min_int(a: int, b: int) -> int {
    if a <= b {
        a
    } else {
        b
    }
}

pub open spec fn max_int(a: int, b: int) -> int {
    if a >= b {
        a
    } else {
        b
    }
}

/// The least number of single-character insertions, deletions and
/// substitutions that turn `a` into `b`.
pub open spec fn edit_distance(a: Seq<char>, b: Seq<char>) -> int
    decreases a.len() + b.len(),
{
    if a.len() == 0 {
        b.len() as int
    } else if b.len() == 0 {
        a.len() as int
    } else {
        let substitution = if a.last() == b.last() {
            0int
        } else {
            1int
        };
        min_int(
            min_int(
                edit_distance(a.drop_last(), b) + 1,
                edit_distance(a, b.drop_last()) + 1,
            ),
            edit_distance(a.drop_last(), b.drop_last()) + substitution,
        )
    }
}

/// The distance lies between the difference of the lengths and the
/// greater length.
pub proof fn lemma_edit_distance_bounds(a: Seq<char>, b: Seq<char>)
    ensures
        a.len() - b.len() <= edit_distance(a, b),
        b.len() - a.len() <= edit_distance(a, b),
        edit_distance(a, b) <= max_int(a.len() as int, b.len() as int),
    decreases a.len() + b.len(),
{
    if a.len() > 0 && b.len() > 0 {
        lemma_edit_distance_bounds(a.drop_last(), b);
        lemma_edit_distance_bounds(a, b.drop_last());
        lemma_edit_distance_bounds(a.drop_last(), b.drop_last());
    }
}

/// The distance does not depend on which text is the source.
pub proof fn lemma_edit_distance_symmetric(a: Seq<char>, b: Seq<char>)
    ensures
        edit_distance(a, b) == edit_distance(b, a),
    decreases a.len() + b.len(),
{
    if a.len() > 0 && b.len() > 0 {
        lemma_edit_distance_symmetric(a.drop_last(), b);
        lemma_edit_distance_symmetric(a, b.drop_last());
        lemma_edit_distance_symmetric(a.drop_last(), b.drop_last());
    }
}

/// The distance is zero exactly between equal texts.
pub proof fn lemma_edit_distance_zero(a: Seq<char>, b: Seq<char>)
    ensures
        (edit_distance(a, b) == 0) <==> (a == b),
    decreases a.len() + b.len(),
{
    if a.len() > 0 && b.len() > 0 {
        lemma_edit_distance_zero(a.drop_last(), b.drop_last());
        lemma_edit_distance_bounds(a.drop_last(), b);
        lemma_edit_distance_bounds(a, b.drop_last());
        lemma_edit_distance_bounds(a.drop_last(), b.drop_last());
        if a == b {
            assert(a.drop_last() == b.drop_last());
        }
        if edit_distance(a, b) == 0 {
            assert(a =~= a.drop_last().push(a.last()));
            assert(b =~= b.drop_last().push(b.last()));
        }
    } else if a.len() == 0 && b.len() == 0 {
        assert(a =~= b);
    }
}

/// One edit costs one: appending a character, or changing the last one.
pub proof fn lemma_single_edit_costs_one(a: Seq<char>, x: char, y: char)
    ensures
        edit_distance(a, a.push(x)) == 1,
        x != y ==> edit_distance(a.push(x), a.push(y)) == 1,
{
    lemma_edit_distance_zero(a, a);
    lemma_edit_distance_zero(a, a.push(x));
    lemma_edit_distance_zero(a.push(x), a.push(y));
    assert(a.push(x).drop_last() =~= a);
    assert(a.push(y).drop_last() =~= a);
    if a.len() > 0 {
        lemma_edit_distance_bounds(a.drop_last(), a.push(x));
        assert(a.push(x) != a) by {
            assert(a.push(x).len() != a.len());
        }
    }
    lemma_edit_distance_bounds(a, a.push(y));
    lemma_edit_distance_bounds(a.push(x), a);
    if x != y {
        assert(a.push(x).last() != a.push(y).last());
        assert(a.push(x) != a.push(y)) by {
            assert(a.push(x)[a.len() as int] != a.push(y)[a.len() as int]);
        }
    }
}

/// Edit distance between two character sequences.
pub fn edit_distance_chars(a: &[char], b: &[char]) -> (d: usize)
    requires
        a@.len() < usize::MAX,
        b@.len() < usize::MAX,
    ensures
        d == edit_distance(a@, b@),
{
    let n1 = a.len();
    let n2 = b.len();
    let mut prev: Vec<usize> = Vec::new();
    let mut j: usize = 0;
    while j <= n2
        invariant
            n2 == b@.len(),
            n2 < usize::MAX,
            0 <= j <= n2 + 1,
            prev@.len() == j,
            forall|k: int| 0 <= k < j ==> #[trigger] prev@[k] == edit_distance(a@.take(0), b@.take(k)),
        decreases n2 + 1 - j,
    {
        proof {
            assert(a@.take(0).len() == 0);
        }
        prev.push(j);
        j = j + 1;
    }
    let mut i: usize = 1;
    while i <= n1
        invariant
            n1 == a@.len(),
            n2 == b@.len(),
            n1 < usize::MAX,
            n2 < usize::MAX,
            1 <= i <= n1 + 1,
            prev@.len() == n2 + 1,
            forall|k: int|
                0 <= k <= n2 ==> #[trigger] prev@[k] == edit_distance(a@.take(i - 1), b@.take(k)),
        decreases n1 + 1 - i,
    {
        let ghost ai = a@.take(i as int);
        assert(ai.drop_last() =~= a@.take(i - 1));
        assert(ai.last() == a@[i - 1]);
        let mut cur: Vec<usize> = Vec::new();
        assert(b@.take(0).len() == 0);
        cur.push(i);
        let mut j: usize = 1;
        while j <= n2
            invariant
                n1 == a@.len(),
                n2 == b@.len(),
                n1 < usize::MAX,
                n2 < usize::MAX,
                1 <= i <= n1,
                1 <= j <= n2 + 1,
                ai == a@.take(i as int),
                ai.drop_last() == a@.take(i - 1),
                ai.last() == a@[i - 1],
                prev@.len() == n2 + 1,
                forall|k: int|
                    0 <= k <= n2 ==> #[trigger] prev@[k] == edit_distance(a@.take(i - 1), b@.take(k)),
                cur@.len() == j,
                forall|k: int| 0 <= k < j ==> #[trigger] cur@[k] == edit_distance(ai, b@.take(k)),
            decreases n2 + 1 - j,
        {
            let ghost bj = b@.take(j as int);
            assert(bj.drop_last() =~= b@.take(j - 1));
            assert(bj.last() == b@[j - 1]);
            proof {
                lemma_edit_distance_bounds(a@.take(i - 1), bj);
                lemma_edit_distance_bounds(ai, b@.take(j - 1));
                lemma_edit_distance_bounds(a@.take(i - 1), b@.take(j - 1));
            }
            let cost: usize = if a[i - 1] == b[j - 1] {
                0
            } else {
                1
            };
            let deletion = prev[j] + 1;
            let insertion = cur[j - 1] + 1;
            let substitution = prev[j - 1] + cost;
            let best_edit = if insertion < substitution {
                insertion
            } else {
                substitution
            };
            let best = if deletion < best_edit {
                deletion
            } else {
                best_edit
            };
            cur.push(best);
            j = j + 1;
        }
        prev = cur;
        i = i + 1;
    }
    assert(a@.take(n1 as int) =~= a@);
    assert(b@.take(n2 as int) =~= b@);
    prev[n2]
}

/// The Levenshtein distance between two texts, counted in characters.
pub fn levenshtein_distance(s1: &str, s2: &str) -> (d: usize)
    ensures
        d == edit_distance(s1@, s2@),
{
    let _ = char_count_bound(s1);
    let _ = char_count_bound(s2);
    let v1 = chars_of(s1);
    let v2 = chars_of(s2);
    edit_distance_chars(&v1, &v2)
}

} // verus!
