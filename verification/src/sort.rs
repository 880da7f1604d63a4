//! Stable sorting under a strict weak order, as `slice::sort_by` does: the result is ordered,
//! holds exactly the input's elements, and keeps elements that rank the same in input order.
use vstd::prelude::*;

verus! {

/// A strict weak order on `T`, with an executable test for it.
pub trait Ranking<T> {
    /// Whether `a` must come before `b`.
    spec fn precedes(&self, a: T, b: T) -> bool;

    /// `precedes` is irreflexive and transitive, and incomparability is transitive.
    proof fn lemma_weak_order(&self, a: T, b: T, c: T)
        ensures
            !self.precedes(a, a),
            self.precedes(a, b) && self.precedes(b, c) ==> self.precedes(a, c),
            self.precedes(a, c) ==> self.precedes(a, b) || self.precedes(b, c),
    ;

    fn goes_before(&self, a: &T, b: &T) -> (r: bool)
        ensures
            r == self.precedes(*a, *b),
    ;
}

/// No element of `s` must come before an earlier one.
pub open spec fn sorted_by<T, R: Ranking<T>>(r: &R, s: Seq<T>) -> bool {
    forall|i: int, j: int| 0 <= i < j < s.len() ==> !r.precedes(#[trigger] s[j], #[trigger] s[i])
}

/// `p` lists each index of a sequence of length `n` exactly once.
pub open spec fn is_permutation_map(p: Seq<int>, n: nat) -> bool {
    &&& p.len() == n
    &&& forall|k: int| 0 <= k < n ==> 0 <= #[trigger] p[k] < n
    &&& forall|k: int, l: int| 0 <= k < l < n ==> #[trigger] p[k] != #[trigger] p[l]
}

/// `output` is `input` rearranged by `p`, with elements that rank the same left in input order.
pub open spec fn stable_arrangement<T, R: Ranking<T>>(
    r: &R,
    input: Seq<T>,
    output: Seq<T>,
    p: Seq<int>,
) -> bool {
    &&& output.len() == input.len()
    &&& is_permutation_map(p, input.len())
    &&& forall|k: int| 0 <= k < output.len() ==> #[trigger] output[k] == input[p[k]]
    &&& forall|k: int, l: int|
        0 <= k < l < output.len() && !r.precedes(output[l], output[k]) && !r.precedes(
            output[k],
            output[l],
        ) ==> #[trigger] p[k] < #[trigger] p[l]
}

/// `output` is what a stable sort of `input` by `r` gives.
pub open spec fn stable_sort_of<T, R: Ranking<T>>(r: &R, input: Seq<T>, output: Seq<T>) -> bool {
    &&& sorted_by(r, output)
    &&& exists|p: Seq<int>| stable_arrangement(r, input, output, p)
}

/// Each element of a stable sort comes from the input, and each input element appears.
pub proof fn lemma_sort_members<T, R: Ranking<T>>(r: &R, input: Seq<T>, output: Seq<T>)
    requires
        stable_sort_of(r, input, output),
    ensures
        output.len() == input.len(),
        forall|k: int| 0 <= k < output.len() ==> input.contains(#[trigger] output[k]),
        forall|k: int| 0 <= k < input.len() ==> output.contains(#[trigger] input[k]),
{
    let p = choose|p: Seq<int>| stable_arrangement(r, input, output, p);
    assert forall|k: int| 0 <= k < output.len() implies input.contains(#[trigger] output[k]) by {
        assert(input[p[k]] == output[k]);
    }
    assert forall|k: int| 0 <= k < input.len() implies output.contains(#[trigger] input[k]) by {
        lemma_permutation_onto(p, input.len(), k);
        let j = choose|j: int| 0 <= j < input.len() && p[j] == k;
        assert(output[j] == input[k]);
    }
}

/// A permutation map reaches every index.
pub proof fn lemma_permutation_onto(p: Seq<int>, n: nat, k: int)
    requires
        is_permutation_map(p, n),
        0 <= k < n,
    ensures
        exists|j: int| 0 <= j < n && p[j] == k,
{
    if !(exists|j: int| 0 <= j < n && p[j] == k) {
        let img = Set::new(|x: int| exists|j: int| 0 <= j < n && p[j] == x);
        let dom = Set::new(|x: int| 0 <= x < n && x != k);
        assert(img.subset_of(dom)) by {
            assert forall|x: int| img.contains(x) implies dom.contains(x) by {
                let j = choose|j: int| 0 <= j < n && p[j] == x;
                assert(0 <= p[j] < n);
            }
        }
        lemma_injective_image_len(p, n);
        vstd::set_lib::lemma_int_range(0, n as int);
        assert(dom =~= vstd::set_lib::set_int_range(0, n as int).remove(k));
        vstd::set_lib::lemma_len_subset(img, dom);
    }
}

proof fn lemma_injective_image_len(p: Seq<int>, n: nat)
    requires
        p.len() == n,
        forall|k: int, l: int| 0 <= k < l < n ==> #[trigger] p[k] != #[trigger] p[l],
    ensures
        Set::new(|x: int| exists|j: int| 0 <= j < n && p[j] == x).finite(),
        Set::new(|x: int| exists|j: int| 0 <= j < n && p[j] == x).len() == n,
    decreases n,
{
    let img = Set::new(|x: int| exists|j: int| 0 <= j < n && p[j] == x);
    if n == 0 {
        assert(img =~= Set::empty());
    } else {
        let q = p.drop_last();
        assert forall|k: int, l: int| 0 <= k < l < n - 1 implies #[trigger] q[k]
            != #[trigger] q[l] by {
            assert(p[k] != p[l]);
        }
        lemma_injective_image_len(q, (n - 1) as nat);
        let img_q = Set::new(|x: int| exists|j: int| 0 <= j < n - 1 && q[j] == x);
        assert(img =~= img_q.insert(p[n - 1])) by {
            assert forall|x: int| img.contains(x) implies img_q.insert(p[n - 1]).contains(x) by {
                let j = choose|j: int| 0 <= j < n && p[j] == x;
                if j < n - 1 {
                    assert(q[j] == x);
                }
            }
            assert forall|x: int| img_q.insert(p[n - 1]).contains(x) implies img.contains(x) by {
                if x != p[n - 1] {
                    let j = choose|j: int| 0 <= j < n - 1 && q[j] == x;
                    assert(p[j] == x);
                }
            }
        }
        assert(!img_q.contains(p[n - 1])) by {
            if img_q.contains(p[n - 1]) {
                let j = choose|j: int| 0 <= j < n - 1 && q[j] == p[n - 1];
                assert(p[j] != p[n - 1]);
            }
        }
    }
}

/// Sorts `v` stably by `r`.
pub fn stable_sort<T, R: Ranking<T>>(r: &R, v: Vec<T>) -> (out: Vec<T>)
    ensures
        stable_sort_of(r, v@, out@),
{
    let ghost input = v@;
    let mut rest = v;
    let mut out: Vec<T> = Vec::new();
    let ghost mut p: Seq<int> = Seq::empty();
    while rest.len() > 0
        invariant
            rest@ == input.subrange(0, rest@.len() as int),
            rest@.len() <= input.len(),
            out@.len() + rest@.len() == input.len(),
            sorted_by(r, out@),
            p.len() == out@.len(),
            forall|k: int| 0 <= k < out@.len() ==> rest@.len() <= #[trigger] p[k] < input.len(),
            forall|k: int, l: int| 0 <= k < l < out@.len() ==> #[trigger] p[k] != #[trigger] p[l],
            forall|k: int| 0 <= k < out@.len() ==> #[trigger] out@[k] == input[p[k]],
            forall|k: int, l: int|
                0 <= k < l < out@.len() && !r.precedes(out@[l], out@[k]) && !r.precedes(
                    out@[k],
                    out@[l],
                ) ==> #[trigger] p[k] < #[trigger] p[l],
        decreases rest@.len(),
    {
        let ghost idx = rest@.len() - 1;
        let x = rest.pop().unwrap();
        assert(x == input[idx]);
        assert(rest@ =~= input.subrange(0, rest@.len() as int));
        let mut pos: usize = 0;
        while pos < out.len() && r.goes_before(&out[pos], &x)
            invariant
                0 <= pos <= out@.len(),
                forall|k: int| 0 <= k < pos ==> r.precedes(#[trigger] out@[k], x),
            decreases out@.len() - pos,
        {
            pos += 1;
        }
        proof {
            // Every element from `pos` on does not precede `x`.
            assert forall|k: int| pos <= k < out@.len() implies !r.precedes(
                #[trigger] out@[k],
                x,
            ) by {
                if pos < out@.len() {
                    assert(!r.precedes(out@[pos as int], x));
                    if k > pos {
                        assert(!r.precedes(out@[k], out@[pos as int]));
                        r.lemma_weak_order(out@[k], out@[pos as int], x);
                    }
                }
            }
        }
        let ghost old_out = out@;
        let ghost old_p = p;
        out.insert(pos, x);
        proof {
            p = old_p.insert(pos as int, idx);
            assert forall|i: int, j: int| 0 <= i < j < out@.len() implies !r.precedes(
                #[trigger] out@[j],
                #[trigger] out@[i],
            ) by {
                if i == pos {
                    // j > pos: out[j] is an old element at or after pos, which does not
                    // precede x.
                    assert(out@[j] == old_out[j - 1]);
                } else if j == pos {
                    assert(out@[i] == old_out[i]);
                    assert(r.precedes(old_out[i], x));
                    r.lemma_weak_order(x, old_out[i], x);
                    r.lemma_weak_order(old_out[i], x, old_out[i]);
                } else {
                    let oi = if i < pos {
                        i
                    } else {
                        i - 1
                    };
                    let oj = if j < pos {
                        j
                    } else {
                        j - 1
                    };
                    assert(out@[i] == old_out[oi]);
                    assert(out@[j] == old_out[oj]);
                }
            }
            assert forall|k: int| 0 <= k < out@.len() implies rest@.len() <= #[trigger] p[k]
                < input.len() by {
                if k < pos {
                    assert(p[k] == old_p[k]);
                } else if k > pos {
                    assert(p[k] == old_p[k - 1]);
                }
            }
            assert forall|k: int, l: int| 0 <= k < l < out@.len() implies #[trigger] p[k]
                != #[trigger] p[l] by {
                if k != pos && l != pos {
                    let ok = if k < pos {
                        k
                    } else {
                        k - 1
                    };
                    let ol = if l < pos {
                        l
                    } else {
                        l - 1
                    };
                    assert(p[k] == old_p[ok]);
                    assert(p[l] == old_p[ol]);
                } else if k == pos {
                    assert(p[l] == old_p[l - 1]);
                } else {
                    assert(p[k] == old_p[k]);
                }
            }
            assert forall|k: int| 0 <= k < out@.len() implies #[trigger] out@[k] == input[p[k]] by {
                if k < pos {
                    assert(p[k] == old_p[k]);
                    assert(out@[k] == old_out[k]);
                } else if k > pos {
                    assert(p[k] == old_p[k - 1]);
                    assert(out@[k] == old_out[k - 1]);
                }
            }
            assert forall|k: int, l: int|
                0 <= k < l < out@.len() && !r.precedes(out@[l], out@[k]) && !r.precedes(
                    out@[k],
                    out@[l],
                ) implies #[trigger] p[k] < #[trigger] p[l] by {
                if k == pos {
                    // An element equivalent to x would precede... it sits after pos, and x came
                    // from earlier in the input than every element already placed.
                    assert(p[l] == old_p[l - 1]);
                } else if l == pos {
                    assert(out@[k] == old_out[k]);
                    assert(r.precedes(old_out[k], x));
                } else {
                    let ok = if k < pos {
                        k
                    } else {
                        k - 1
                    };
                    let ol = if l < pos {
                        l
                    } else {
                        l - 1
                    };
                    assert(p[k] == old_p[ok]);
                    assert(p[l] == old_p[ol]);
                    assert(out@[k] == old_out[ok]);
                    assert(out@[l] == old_out[ol]);
                }
            }
        }
    }
    proof {
        assert(stable_arrangement(r, input, out@, p));
    }
    out
}

} // verus!
