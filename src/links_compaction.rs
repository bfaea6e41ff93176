use vstd::prelude::*;

verus! {

/// Chains laid end to end.
pub open spec fn flat(chains: Seq<Seq<usize>>) -> Seq<usize>
    decreases chains.len(),
{
    if chains.len() == 0 {
        Seq::empty()
    } else {
        flat(chains.drop_last()) + chains.last()
    }
}

pub open spec fn chains_view(c: Seq<Vec<usize>>) -> Seq<Seq<usize>> {
    c.map_values(|v: Vec<usize>| v@)
}

/// Each entry of `chain` after the first is the link of the one before it.
pub open spec fn follows_links(chain: Seq<usize>, next: Seq<Option<usize>>) -> bool {
    forall|t: int| 0 <= t < chain.len() - 1 ==> #[trigger] next[chain[t] as int] == Some(chain[t + 1])
}

/// Every link points at an endpoint.
pub open spec fn links_in_range(next: Seq<Option<usize>>) -> bool {
    forall|i: int| 0 <= i < next.len() ==> (#[trigger] next[i] matches Some(j) ==> j < next.len())
}

pub open spec fn count_true(s: Seq<bool>) -> nat
    decreases s.len(),
{
    if s.len() == 0 {
        0
    } else {
        count_true(s.drop_last()) + if s.last() { 1nat } else { 0nat }
    }
}

proof fn lemma_count_true(s: Seq<bool>, i: int)
    requires
        0 <= i < s.len(),
        !s[i],
    ensures
        count_true(s.update(i, true)) == count_true(s) + 1,
        count_true(s) < s.len(),
    decreases s.len(),
{
    let u = s.update(i, true);
    if i == s.len() - 1 {
        assert(u.drop_last() =~= s.drop_last());
        lemma_count_le(s.drop_last());
    } else {
        assert(u.drop_last() =~= s.drop_last().update(i, true));
        lemma_count_true(s.drop_last(), i);
    }
}

proof fn lemma_count_le(s: Seq<bool>)
    ensures
        count_true(s) <= s.len(),
    decreases s.len(),
{
    if s.len() > 0 {
        lemma_count_le(s.drop_last());
    }
}

/// Resolved chains: each endpoint in exactly one chain, every chain
/// following the links, and the entries marked that the chains hold.
pub open spec fn resolved(chains: Seq<Seq<usize>>, next: Seq<Option<usize>>, marked: Seq<bool>) -> bool {
    &&& flat(chains).no_duplicates()
    &&& forall|x: int| 0 <= x < marked.len() ==> (#[trigger] marked[x] <==> flat(chains).contains(x as usize))
    &&& forall|q: int| 0 <= q < flat(chains).len() ==> #[trigger] flat(chains)[q] < marked.len()
    &&& forall|c: int| 0 <= c < chains.len() ==> (#[trigger] chains[c]).len() > 0 && follows_links(chains[c], next)
}

/// Follows the links from `start` until they end or reach an endpoint that
/// already has its chain, and adds the chain so found.
fn walk(next: &Vec<Option<usize>>, start: usize, marked: &mut Vec<bool>, chains: &mut Vec<Vec<usize>>)
    requires
        links_in_range(next@),
        start < next@.len(),
        old(marked)@.len() == next@.len(),
        !old(marked)@[start as int],
        resolved(chains_view(old(chains)@), next@, old(marked)@),
    ensures
        final(marked)@.len() == next@.len(),
        resolved(chains_view(final(chains)@), next@, final(marked)@),
        final(marked)@[start as int],
        forall|x: int| 0 <= x < next@.len() && old(marked)@[x] ==> final(marked)@[x],
{
    let ghost done = flat(chains_view(chains@));
    let n = next.len();
    let mut chain: Vec<usize> = Vec::new();
    proof {
        lemma_count_true(marked@, start as int);
    }
    marked.set(start, true);
    chain.push(start);
    let mut cur: usize = start;
    proof {
        assert forall|x: int| 0 <= x < n implies (#[trigger] marked@[x] <==> (done + chain@).contains(x as usize)) by {
            if x == start as int {
                assert((done + chain@)[done.len() as int] == start);
            } else if marked@[x] {
                let q = choose|q: int| 0 <= q < done.len() && done[q] == x as usize;
                assert((done + chain@)[q] == x as usize);
            } else {
                if (done + chain@).contains(x as usize) {
                    let q = choose|q: int| 0 <= q < (done + chain@).len() && (done + chain@)[q] == x as usize;
                    if q < done.len() {
                        assert(done.contains(x as usize));
                    }
                }
            }
        }
    }
    loop
        invariant
            n == next@.len(),
            n == marked@.len(),
            links_in_range(next@),
            chains_view(chains@) == chains_view(old(chains)@),
            done == flat(chains_view(chains@)),
            resolved(chains_view(old(chains)@), next@, old(marked)@),
            chain@.len() > 0,
            chain@[0] == start,
            cur == chain@.last(),
            cur < n,
            start < n,
            old(marked)@.len() == n,
            marked@[start as int],
            follows_links(chain@, next@),
            (done + chain@).no_duplicates(),
            forall|q: int| 0 <= q < (done + chain@).len() ==> #[trigger] (done + chain@)[q] < n,
            forall|x: int| 0 <= x < n ==> (#[trigger] marked@[x] <==> (done + chain@).contains(x as usize)),
            forall|x: int| 0 <= x < n && old(marked)@[x] ==> marked@[x],
        decreases n - count_true(marked@),
    {
        let step = next[cur];
        match step {
            Some(j) => {
                if marked[j] {
                    break;
                }
                let ghost before = chain@;
                let ghost m0 = marked@;
                proof {
                    lemma_count_true(marked@, j as int);
                    assert(!(done + chain@).contains(j));
                }
                marked.set(j, true);
                chain.push(j);
                cur = j;
                proof {
                    assert(done + chain@ =~= (done + before).push(j));
                    assert forall|t: int| 0 <= t < chain@.len() - 1 implies #[trigger] next@[chain@[t] as int] == Some(chain@[t + 1]) by {
                        if t < before.len() - 1 {
                            assert(next@[before[t] as int] == Some(before[t + 1]));
                        }
                    }
                    assert forall|x: int| 0 <= x < n implies (#[trigger] marked@[x] <==> (done + chain@).contains(x as usize)) by {
                        if x == j as int {
                            assert((done + chain@)[(done + before).len() as int] == j);
                        } else {
                            if (done + chain@).contains(x as usize) {
                                let q = choose|q: int| 0 <= q < (done + chain@).len() && (done + chain@)[q] == x as usize;
                                assert((done + before)[q] == x as usize);
                            }
                            if m0[x] {
                                assert((done + before).contains(x as usize));
                                let q = choose|q: int| 0 <= q < (done + before).len() && (done + before)[q] == x as usize;
                                assert((done + chain@)[q] == x as usize);
                            }
                        }
                    }
                }
            },
            None => {
                break;
            },
        }
    }
    let ghost prev = chains_view(chains@);
    chains.push(chain);
    proof {
        let cv = chains_view(chains@);
        assert(cv =~= prev.push(chain@));
        assert(cv.drop_last() =~= prev);
        assert(flat(cv) == done + chain@);
        assert forall|c: int| 0 <= c < cv.len() implies (#[trigger] cv[c]).len() > 0 && follows_links(cv[c], next@) by {
            if c < prev.len() {
                assert(cv[c] == prev[c]);
            }
        }
    }
}

/// Splits the endpoints `0..next.len()` into chains along their links.
/// Chains start at endpoints that no link reaches; what is left forms
/// loops, each started at its smallest endpoint.
pub fn resolve_chains(next: &Vec<Option<usize>>) -> (r: Vec<Vec<usize>>)
    requires
        links_in_range(next@),
    ensures
        flat(chains_view(r@)).no_duplicates(),
        forall|x: usize| x < next@.len() ==> flat(chains_view(r@)).contains(x),
        forall|q: int| 0 <= q < flat(chains_view(r@)).len() ==> #[trigger] flat(chains_view(r@))[q] < next@.len(),
        forall|c: int| 0 <= c < r@.len() ==> (#[trigger] r@[c])@.len() > 0 && follows_links(r@[c]@, next@),
{
    let n = next.len();
    let mut has_pred: Vec<bool> = Vec::new();
    let mut marked: Vec<bool> = Vec::new();
    let mut i: usize = 0;
    while i < n
        invariant
            i <= n,
            n == next@.len(),
            has_pred@.len() == i,
            marked@.len() == i,
            forall|x: int| 0 <= x < i ==> !(#[trigger] marked@[x]),
        decreases n - i,
    {
        has_pred.push(false);
        marked.push(false);
        i += 1;
    }
    i = 0;
    while i < n
        invariant
            i <= n,
            n == next@.len(),
            has_pred@.len() == n,
            links_in_range(next@),
        decreases n - i,
    {
        match next[i] {
            Some(j) => {
                has_pred.set(j, true);
            },
            None => {},
        }
        i += 1;
    }
    let mut chains: Vec<Vec<usize>> = Vec::new();
    proof {
        assert(chains_view(chains@) =~= Seq::<Seq<usize>>::empty());
        assert(flat(chains_view(chains@)) =~= Seq::<usize>::empty());
    }
    let mut pass: usize = 0;
    while pass < 2
        invariant
            n == next@.len(),
            n == marked@.len(),
            has_pred@.len() == n,
            links_in_range(next@),
            resolved(chains_view(chains@), next@, marked@),
            pass <= 2,
            pass == 2 ==> forall|x: int| 0 <= x < n ==> #[trigger] marked@[x],
        decreases 2 - pass,
    {
        i = 0;
        while i < n
            invariant
                n == next@.len(),
                n == marked@.len(),
                has_pred@.len() == n,
                i <= n,
                pass < 2,
                links_in_range(next@),
                resolved(chains_view(chains@), next@, marked@),
                pass == 1 ==> forall|x: int| 0 <= x < i ==> #[trigger] marked@[x],
            decreases n - i,
        {
            if !marked[i] && (pass == 1 || !has_pred[i]) {
                walk(next, i, &mut marked, &mut chains);
            }
            i += 1;
        }
        pass += 1;
    }
    proof {
        let f = flat(chains_view(chains@));
        assert forall|x: usize| x < n implies f.contains(x) by {
            assert(marked@[x as int]);
        }
        assert forall|c: int| 0 <= c < chains@.len() implies (#[trigger] chains@[c])@.len() > 0 && follows_links(chains@[c]@, next@) by {
            assert(chains_view(chains@)[c] == chains@[c]@);
        }
    }
    chains
}

/// A chain is circular when the link of its last endpoint leads back to its first.
pub fn is_circular_chain(chain: &Vec<usize>, next: &Vec<Option<usize>>) -> (r: bool)
    requires
        chain@.len() > 0,
        forall|q: int| 0 <= q < chain@.len() ==> #[trigger] chain@[q] < next@.len(),
    ensures
        r == (next@[chain@.last() as int] == Some(chain@[0])),
{
    let last = chain[chain.len() - 1];
    match next[last] {
        Some(j) => j == chain[0],
        None => false,
    }
}

} // verus!
