//! Majority-vote reduction: the single most frequent exact color of a pixel
//! sequence, with ties broken toward the color first encountered in row-major
//! scan order. The tie-break is a deliberate, deterministic policy.

use vstd::prelude::*;

use crate::pixel::Pixel;

verus! {

/// How many entries of `s` are exactly the color `p`.
pub open spec fn count_of(s: Seq<Pixel>, p: Pixel) -> int
    decreases s.len(),
{
    if s.len() == 0 {
        0
    } else {
        count_of(s.drop_last(), p) + if s.last() == p {
            1int
        } else {
            0int
        }
    }
}

/// The position of the first entry of `s` equal to `p` (the length if absent).
pub open spec fn first_index(s: Seq<Pixel>, p: Pixel) -> int
    decreases s.len(),
{
    if s.len() == 0 {
        0
    } else if s[0] == p {
        0
    } else {
        1 + first_index(s.subrange(1, s.len() as int), p)
    }
}

/// `p` is the winner of the majority vote over `s`: it occurs, no color
/// occurs more often, and every color encountered before `p`'s first
/// occurrence occurs strictly less often (first-encountered tie-break).
pub open spec fn is_majority(s: Seq<Pixel>, p: Pixel) -> bool {
    &&& exists|l: int| 0 <= l < s.len() && s[l] == p
    &&& forall|q: Pixel| count_of(s, q) <= count_of(s, p)
    &&& forall|j: int|
        0 <= j < first_index(s, p) ==> count_of(s, #[trigger] s[j]) < count_of(s, p)
}

/// The winner of the majority vote over `s`. For a nonempty `s` exactly one
/// color satisfies `is_majority`, so this picks that color.
pub open spec fn majority_of(s: Seq<Pixel>) -> Pixel {
    choose|p: Pixel| is_majority(s, p)
}

pub proof fn lemma_count_bounds(s: Seq<Pixel>, p: Pixel)
    ensures
        0 <= count_of(s, p) <= s.len(),
    decreases s.len(),
{
    if s.len() > 0 {
        lemma_count_bounds(s.drop_last(), p);
    }
}

pub proof fn lemma_count_take_step(s: Seq<Pixel>, p: Pixel, i: int)
    requires
        0 <= i < s.len(),
    ensures
        count_of(s.take(i + 1), p) == count_of(s.take(i), p) + if s[i] == p {
            1int
        } else {
            0int
        },
{
    assert(s.take(i + 1).drop_last() =~= s.take(i));
    assert(s.take(i + 1).last() == s[i]);
}

pub proof fn lemma_count_pos_iff_occurs(s: Seq<Pixel>, p: Pixel)
    ensures
        count_of(s, p) > 0 <==> exists|l: int| 0 <= l < s.len() && s[l] == p,
    decreases s.len(),
{
    lemma_count_bounds(s, p);
    if s.len() > 0 {
        lemma_count_pos_iff_occurs(s.drop_last(), p);
        lemma_count_bounds(s.drop_last(), p);
        if s.last() == p {
            assert(s[s.len() - 1] == p);
        } else {
            if exists|l: int| 0 <= l < s.len() && s[l] == p {
                let l = choose|l: int| 0 <= l < s.len() && s[l] == p;
                assert(l < s.len() - 1);
                assert(s.drop_last()[l] == p);
            }
        }
    }
}

pub proof fn lemma_first_index_props(s: Seq<Pixel>, p: Pixel)
    requires
        exists|l: int| 0 <= l < s.len() && s[l] == p,
    ensures
        0 <= first_index(s, p) < s.len(),
        s[first_index(s, p)] == p,
        forall|j: int| 0 <= j < first_index(s, p) ==> s[j] != p,
    decreases s.len(),
{
    if s[0] != p {
        let tail = s.subrange(1, s.len() as int);
        let l = choose|l: int| 0 <= l < s.len() && s[l] == p;
        assert(tail[l - 1] == p);
        lemma_first_index_props(tail, p);
        assert forall|j: int| 0 <= j < first_index(s, p) implies s[j] != p by {
            if j >= 1 {
                assert(tail[j - 1] == s[j]);
            }
        }
    }
}

pub proof fn lemma_first_index_eq(s: Seq<Pixel>, p: Pixel, i: int)
    requires
        0 <= i < s.len(),
        s[i] == p,
        forall|l: int| 0 <= l < i ==> s[l] != p,
    ensures
        first_index(s, p) == i,
{
    lemma_first_index_props(s, p);
    let fi = first_index(s, p);
    if fi < i {
        assert(s[fi] != p);
    } else if fi > i {
        assert(s[i] != p);
    }
}

/// The majority vote has at most one winner: the maximal count together with
/// the first-encountered tie-break pins the color down.
pub proof fn lemma_majority_unique(s: Seq<Pixel>, p1: Pixel, p2: Pixel)
    requires
        is_majority(s, p1),
        is_majority(s, p2),
    ensures
        p1 == p2,
{
    if p1 != p2 {
        lemma_first_index_props(s, p1);
        lemma_first_index_props(s, p2);
        let f1 = first_index(s, p1);
        let f2 = first_index(s, p2);
        if f1 < f2 {
            assert(count_of(s, s[f1]) < count_of(s, p2));
            assert(count_of(s, p2) <= count_of(s, p1));
        } else if f2 < f1 {
            assert(count_of(s, s[f2]) < count_of(s, p1));
            assert(count_of(s, p1) <= count_of(s, p2));
        }
    }
}

pub proof fn lemma_majority_of_is(s: Seq<Pixel>, p: Pixel)
    requires
        is_majority(s, p),
    ensures
        majority_of(s) == p,
{
    let q = choose|q: Pixel| is_majority(s, q);
    lemma_majority_unique(s, q, p);
}

/// A flat (single-color) region votes for its own color.
pub proof fn lemma_majority_of_constant(s: Seq<Pixel>, c: Pixel)
    requires
        s.len() > 0,
        forall|i: int| 0 <= i < s.len() ==> s[i] == c,
    ensures
        is_majority(s, c),
        majority_of(s) == c,
{
    assert(s[0] == c);
    lemma_count_pos_iff_occurs(s, c);
    assert forall|q: Pixel| count_of(s, q) <= count_of(s, c) by {
        lemma_count_bounds(s, q);
        lemma_count_bounds(s, c);
        if q != c {
            lemma_count_pos_iff_occurs(s, q);
        }
    }
    lemma_first_index_eq(s, c, 0);
    lemma_majority_of_is(s, c);
}

fn find_color(colors: &Vec<Pixel>, p: Pixel) -> (r: Option<usize>)
    ensures
        match r {
            Some(j) => j < colors@.len() && colors@[j as int] == p,
            None => forall|j: int| 0 <= j < colors@.len() ==> colors@[j] != p,
        },
{
    let mut j: usize = 0;
    let n = colors.len();
    while j < n
        invariant
            j <= n,
            n == colors@.len(),
            forall|jj: int| 0 <= jj < j ==> colors@[jj] != p,
        decreases n - j,
    {
        if colors[j] == p {
            return Some(j);
        }
        j = j + 1;
    }
    None
}

/// The most frequent exact color of a nonempty pixel sequence; among equally
/// frequent colors the one encountered first wins.
pub fn majority_pixel(cell: &Vec<Pixel>) -> (m: Pixel)
    requires
        cell@.len() >= 1,
    ensures
        is_majority(cell@, m),
        m == majority_of(cell@),
{
    let ghost s = cell@;
    let n = cell.len();
    let mut colors: Vec<Pixel> = Vec::new();
    let mut counts: Vec<usize> = Vec::new();
    let mut i: usize = 0;
    while i < n
        invariant
            cell@ == s,
            n == s.len(),
            i <= n,
            colors@.len() == counts@.len(),
            i >= 1 ==> colors@.len() >= 1,
            forall|j: int|
                0 <= j < colors@.len() ==> counts@[j] as int == count_of(
                    s.take(i as int),
                    #[trigger] colors@[j],
                ),
            forall|j: int|
                0 <= j < colors@.len() ==> {
                    &&& 0 <= first_index(s, #[trigger] colors@[j]) < i as int
                    &&& s[first_index(s, colors@[j])] == colors@[j]
                },
            forall|l: int|
                #![trigger s[l]]
                0 <= l < i ==> exists|j: int| 0 <= j < colors@.len() && colors@[j] == s[l],
            forall|j1: int, j2: int|
                0 <= j1 < j2 < colors@.len() ==> first_index(s, #[trigger] colors@[j1])
                    < first_index(s, #[trigger] colors@[j2]),
        decreases n - i,
    {
        let p = cell[i];
        let ghost colors0 = colors@;
        proof {
            assert forall|j1: int, j2: int|
                0 <= j1 < j2 < colors@.len() implies colors@[j1] != colors@[j2] by {
                assert(first_index(s, colors@[j1]) < first_index(s, colors@[j2]));
            }
        }
        match find_color(&colors, p) {
            Some(j) => {
                proof {
                    lemma_count_bounds(s.take(i as int), p);
                    assert forall|jj: int| 0 <= jj < colors@.len() implies count_of(
                        s.take(i as int + 1),
                        #[trigger] colors@[jj],
                    ) == count_of(s.take(i as int), colors@[jj]) + if colors@[jj] == p {
                        1int
                    } else {
                        0int
                    } by {
                        lemma_count_take_step(s, colors@[jj], i as int);
                    }
                }
                let c = counts[j];
                counts[j] = c + 1;
                proof {
                    assert forall|l: int|
                        #![trigger s[l]]
                        0 <= l < i as int + 1 implies exists|jj: int| 0 <= jj < colors@.len()
                        && colors@[jj] == s[l] by {
                        if l == i as int {
                            assert(colors@[j as int] == s[l]);
                        }
                    }
                }
            },
            None => {
                proof {
                    // every earlier entry is an already recorded color, and p is none of them
                    assert forall|l: int| 0 <= l < i implies s[l] != p by {
                        let j = choose|j: int| 0 <= j < colors@.len() && colors@[j] == s[l];
                        assert(colors@[j] != p);
                    }
                    lemma_first_index_eq(s, p, i as int);
                    lemma_count_pos_iff_occurs(s.take(i as int), p);
                    lemma_count_bounds(s.take(i as int), p);
                    lemma_count_take_step(s, p, i as int);
                    assert forall|jj: int| 0 <= jj < colors@.len() implies count_of(
                        s.take(i as int + 1),
                        #[trigger] colors@[jj],
                    ) == count_of(s.take(i as int), colors@[jj]) by {
                        lemma_count_take_step(s, colors@[jj], i as int);
                        assert(colors@[jj] != p);
                    }
                }
                colors.push(p);
                counts.push(1);
                proof {
                    assert forall|l: int|
                        #![trigger s[l]]
                        0 <= l < i as int + 1 implies exists|jj: int| 0 <= jj < colors@.len()
                        && colors@[jj] == s[l] by {
                        if l < i as int {
                            let jl = choose|jj: int| 0 <= jj < colors0.len() && colors0[jj] == s[l];
                            assert(colors@[jl] == s[l]);
                        } else {
                            assert(colors@[colors@.len() - 1] == s[l]);
                        }
                    }
                }
            },
        }
        i = i + 1;
    }
    proof {
        assert(s.take(n as int) =~= s);
    }
    // pick the first recorded color with the maximal count
    let mut best: usize = 0;
    let mut j: usize = 1;
    let clen = colors.len();
    while j < clen
        invariant
            clen == colors@.len(),
            counts@.len() == colors@.len(),
            best < j,
            j <= clen,
            forall|jj: int| 0 <= jj < j ==> counts@[jj] <= counts@[best as int],
            forall|jj: int| 0 <= jj < best ==> counts@[jj] < counts@[best as int],
        decreases clen - j,
    {
        if counts[j] > counts[best] {
            best = j;
        }
        j = j + 1;
    }
    let m = colors[best];
    proof {
        let ghost cnt = count_of(s, m);
        assert(s[first_index(s, m)] == m);
        assert(counts@[best as int] as int == cnt);
        assert(cnt > 0) by {
            lemma_count_pos_iff_occurs(s, m);
        }
        assert forall|q: Pixel| count_of(s, q) <= cnt by {
            lemma_count_bounds(s, q);
            if count_of(s, q) > 0 {
                lemma_count_pos_iff_occurs(s, q);
                let l = choose|l: int| 0 <= l < s.len() && s[l] == q;
                let jq = choose|jj: int| 0 <= jj < colors@.len() && colors@[jj] == s[l];
                assert(counts@[jq] as int == count_of(s, q));
                assert(counts@[jq] <= counts@[best as int]);
            }
        }
        assert forall|j2: int|
            0 <= j2 < first_index(s, m) implies count_of(s, #[trigger] s[j2]) < cnt by {
            let jc = choose|jj: int| 0 <= jj < colors@.len() && colors@[jj] == s[j2];
            lemma_first_index_props(s, colors@[jc]);
            // the first occurrence of s[j2] is no later than j2 itself
            assert(first_index(s, colors@[jc]) <= j2);
            // recorded colors are ordered by first occurrence, so jc comes before best
            if jc > best {
                assert(first_index(s, colors@[best as int]) < first_index(s, colors@[jc]));
            }
            assert(jc < best);
            assert(counts@[jc] < counts@[best as int]);
        }
        assert(is_majority(s, m));
        lemma_majority_of_is(s, m);
    }
    m
}

} // verus!
