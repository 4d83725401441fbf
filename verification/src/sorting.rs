use vstd::prelude::*;

verus! {

broadcast use {vstd::seq_lib::group_to_multiset_ensures, vstd::multiset::group_multiset_axioms};

/// The elements of `v`, read as indices into `keys`, come in ascending order of their key.
pub open spec fn sorted_by_keys(v: Seq<usize>, keys: Seq<i128>) -> bool {
    forall|i: int, j: int| 0 <= i <= j < v.len() ==> keys[v[i] as int] <= keys[v[j] as int]
}

/// Every element of `v` is an index into `keys`.
pub open spec fn indices_below(v: Seq<usize>, n: int) -> bool {
    forall|i: int| 0 <= i < v.len() ==> v[i] < n
}

fn merge(a: Vec<usize>, b: Vec<usize>, keys: &Vec<i128>) -> (r: Vec<usize>)
    requires
        indices_below(a@, keys@.len() as int),
        indices_below(b@, keys@.len() as int),
        sorted_by_keys(a@, keys@),
        sorted_by_keys(b@, keys@),
    ensures
        r@.to_multiset() == a@.to_multiset().add(b@.to_multiset()),
        sorted_by_keys(r@, keys@),
        indices_below(r@, keys@.len() as int),
{
    let mut out: Vec<usize> = Vec::new();
    let mut i: usize = 0;
    let mut j: usize = 0;
    while i < a.len() || j < b.len()
        invariant
            i <= a.len(),
            j <= b.len(),
            indices_below(a@, keys@.len() as int),
            indices_below(b@, keys@.len() as int),
            sorted_by_keys(a@, keys@),
            sorted_by_keys(b@, keys@),
            sorted_by_keys(out@, keys@),
            indices_below(out@, keys@.len() as int),
            out@.to_multiset() == a@.take(i as int).to_multiset().add(
                b@.take(j as int).to_multiset(),
            ),
            out@.len() > 0 && i < a.len() ==> keys[out@.last() as int] <= keys[a@[i as int] as int],
            out@.len() > 0 && j < b.len() ==> keys[out@.last() as int] <= keys[b@[j as int] as int],
        decreases a.len() + b.len() - i - j,
    {
        let take_a = if i == a.len() {
            false
        } else if j == b.len() {
            true
        } else {
            keys[a[i]] <= keys[b[j]]
        };
        if take_a {
            let x = a[i];
            assert(a@.take(i as int + 1) =~= a@.take(i as int).push(x));
            out.push(x);
            i = i + 1;
        } else {
            let x = b[j];
            assert(b@.take(j as int + 1) =~= b@.take(j as int).push(x));
            out.push(x);
            j = j + 1;
        }
    }
    assert(a@.take(a.len() as int) =~= a@);
    assert(b@.take(b.len() as int) =~= b@);
    out
}

/// Sorts `v`, a list of indices into `keys`, by ascending key.
pub fn sort_by_keys(v: Vec<usize>, keys: &Vec<i128>) -> (r: Vec<usize>)
    requires
        indices_below(v@, keys@.len() as int),
    ensures
        r@.to_multiset() == v@.to_multiset(),
        r@.len() == v@.len(),
        sorted_by_keys(r@, keys@),
        indices_below(r@, keys@.len() as int),
    decreases v.len(),
{
    if v.len() <= 1 {
        return v;
    }
    let mut left = v;
    let ghost whole = left@;
    let mid = left.len() / 2;
    let right = left.split_off(mid);
    assert(whole =~= left@ + right@);
    proof {
        vstd::seq_lib::lemma_multiset_commutative(left@, right@);
    }
    let l = sort_by_keys(left, keys);
    let r = sort_by_keys(right, keys);
    let out = merge(l, r, keys);
    proof {
        out@.to_multiset_ensures();
        whole.to_multiset_ensures();
    }
    out
}

} // verus!
