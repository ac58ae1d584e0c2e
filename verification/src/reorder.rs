//! The pure reordering rule.
//!
//! Given `n` input positions, the output order is: the last position first,
//! then windows of up to two consecutive positions anchored at
//! `n - 3, n - 7, n - 11, ...` (each window internally ascending, windows
//! emitted in descending anchor order), and finally every position not yet
//! taken, in ascending original order.

use vstd::prelude::*;

verus! {

/// The indices one window contributes: the window anchored at `start` is two
/// indices wide exactly when `start + 1 < n`, and one otherwise; each index
/// is bounds-checked against `n`.
pub open spec fn window_indices(n: int, start: int) -> Seq<int> {
    if start + 1 < n {
        seq![start, start + 1]
    } else if start < n {
        seq![start]
    } else {
        Seq::empty()
    }
}

/// All window indices contributed by anchors `start, start - 4, start - 8, ...`
/// while the anchor is still at least zero.
pub open spec fn windows_from(n: int, start: int) -> Seq<int>
    decreases start + 4,
{
    if start < 0 {
        Seq::empty()
    } else {
        window_indices(n, start) + windows_from(n, start - 4)
    }
}

/// The window indices of the whole rule: anchors start at `n - 3`.
pub open spec fn taken_indices(n: int) -> Seq<int> {
    windows_from(n, n - 3)
}

/// An index is processed when it is the last index or some window took it.
pub open spec fn is_processed(n: int, i: int) -> bool {
    i == n - 1 || taken_indices(n).contains(i)
}

/// The identity index sequence `0, 1, ..., n - 1`.
pub open spec fn index_seq(n: int) -> Seq<int> {
    Seq::new(n as nat, |i: int| i)
}

/// Predicate picking the indices no window (and not the last-element step)
/// processed.
pub open spec fn not_processed_pred(n: int) -> spec_fn(int) -> bool {
    |i: int| !is_processed(n, i)
}

/// The skipped indices, in ascending original order.
pub open spec fn skipped_indices(n: int) -> Seq<int> {
    index_seq(n).filter(not_processed_pred(n))
}

/// The complete output order, as a sequence of input indices.
pub open spec fn perm_indices(n: int) -> Seq<int> {
    if n <= 0 {
        Seq::empty()
    } else {
        seq![n - 1] + taken_indices(n) + skipped_indices(n)
    }
}

/// Reads the elements of `s` at the positions listed in `idxs`.
pub open spec fn gather<A>(s: Seq<A>, idxs: Seq<int>) -> Seq<A> {
    idxs.map_values(|i: int| s[i])
}

/// What the reordering rule produces on any finite sequence.
pub open spec fn reorder_seq<A>(s: Seq<A>) -> Seq<A> {
    gather(s, perm_indices(s.len() as int))
}

/// Gathering distributes over concatenation of index sequences.
pub proof fn lemma_gather_add<A>(s: Seq<A>, a: Seq<int>, b: Seq<int>)
    ensures
        gather(s, a + b) == gather(s, a) + gather(s, b),
{
    assert(gather(s, a + b) =~= gather(s, a) + gather(s, b));
}

/// Gathering commutes with pushing one index.
pub proof fn lemma_gather_push<A>(s: Seq<A>, idxs: Seq<int>, i: int)
    ensures
        gather(s, idxs.push(i)) == gather(s, idxs).push(s[i]),
{
    assert(gather(s, idxs.push(i)) =~= gather(s, idxs).push(s[i]));
}

/// Predicate picking the indices the rule processed before the skipped scan.
pub open spec fn processed_pred(n: int) -> spec_fn(int) -> bool {
    |i: int| is_processed(n, i)
}

/// Every window index is in bounds and no window index repeats.
proof fn lemma_windows_from_props(n: int, start: int)
    ensures
        forall|x: int| #[trigger] windows_from(n, start).contains(x) ==> 0 <= x < n && x <= start
            + 1,
        windows_from(n, start).no_duplicates(),
    decreases start + 4,
{
    if start >= 0 {
        lemma_windows_from_props(n, start - 4);
        let w = window_indices(n, start);
        let rest = windows_from(n, start - 4);
        assert(windows_from(n, start) == w + rest);
        assert forall|x: int| #[trigger] (w + rest).contains(x) implies 0 <= x < n && x <= start
            + 1 by {
            let idx = choose|idx: int| 0 <= idx < (w + rest).len() && (w + rest)[idx] == x;
            if idx < w.len() {
                assert(w[idx] == x);
            } else {
                assert(rest[idx - w.len()] == x);
                assert(rest.contains(x));
            }
        }
        assert forall|i: int, j: int|
            (0 <= i < (w + rest).len() && 0 <= j < (w + rest).len() && i != j) implies (w + rest)[i]
            != (w + rest)[j] by {
            if i >= w.len() && j >= w.len() {
                assert(rest[i - w.len()] != rest[j - w.len()]);
            } else if i < w.len() && j >= w.len() {
                assert(rest.contains(rest[j - w.len()]));
            } else if i >= w.len() && j < w.len() {
                assert(rest.contains(rest[i - w.len()]));
            }
        }
    }
}

/// Splitting a sequence by a predicate and its negation splits its multiset.
proof fn lemma_filter_partition<A>(s: Seq<A>, p: spec_fn(A) -> bool, q: spec_fn(A) -> bool)
    requires
        forall|x: A| #[trigger] q(x) <==> !p(x),
    ensures
        s.to_multiset() =~= s.filter(p).to_multiset().add(s.filter(q).to_multiset()),
    decreases s.len(),
{
    broadcast use vstd::seq_lib::group_to_multiset_ensures;
    broadcast use vstd::multiset::group_multiset_axioms;

    if s.len() == 0 {
        reveal(Seq::filter);
    } else {
        let s0 = s.drop_last();
        let x = s.last();
        lemma_filter_partition(s0, p, q);
        assert(s =~= s0.push(x));
        s0.lemma_filter_push(x, p);
        s0.lemma_filter_push(x, q);
        assert(s.to_multiset() =~= s0.to_multiset().insert(x));
        assert forall|y: A|
            s.to_multiset().count(y) == #[trigger] s.filter(p).to_multiset().add(
                s.filter(q).to_multiset(),
            ).count(y) by {
            if p(x) {
                assert(s.filter(p).to_multiset() =~= s0.filter(p).to_multiset().insert(x));
            } else {
                assert(s.filter(q).to_multiset() =~= s0.filter(q).to_multiset().insert(x));
            }
        }
    }
}

/// Two index sequences with equal multisets read out equal multisets of
/// elements.
proof fn lemma_gather_multiset<A>(s: Seq<A>, p: Seq<int>, q: Seq<int>)
    requires
        p.to_multiset() == q.to_multiset(),
        forall|k: int| 0 <= k < p.len() ==> 0 <= #[trigger] p[k] < s.len(),
        forall|k: int| 0 <= k < q.len() ==> 0 <= #[trigger] q[k] < s.len(),
    ensures
        gather(s, p).to_multiset() == gather(s, q).to_multiset(),
    decreases p.len(),
{
    broadcast use vstd::seq_lib::group_to_multiset_ensures;
    broadcast use vstd::multiset::group_multiset_axioms;

    if p.len() == 0 {
        assert(q.to_multiset().len() == 0);
        assert(q.len() == 0);
        assert(gather(s, p) =~= Seq::<A>::empty());
        assert(gather(s, q) =~= Seq::<A>::empty());
    } else {
        let x = p.last();
        let p0 = p.drop_last();
        assert(p =~= p0.push(x));
        assert(p.to_multiset() =~= p0.to_multiset().insert(x));
        assert(p[p.len() - 1] == x);
        assert(p.contains(x));
        assert(q.to_multiset().count(x) > 0);
        assert(q.contains(x));
        let k = choose|k: int| 0 <= k < q.len() && q[k] == x;
        let q0 = q.remove(k);
        assert(q0.to_multiset() =~= q.to_multiset().remove(x));
        assert(p0.to_multiset() =~= q0.to_multiset()) by {
            assert forall|y: int| p0.to_multiset().count(y) == q0.to_multiset().count(y) by {
                assert(p.to_multiset().count(y) == p0.to_multiset().insert(x).count(y));
            }
        }
        assert(q0.len() == q.len() - 1);
        assert forall|kk: int| 0 <= kk < q0.len() implies 0 <= #[trigger] q0[kk] < s.len() by {
            q.remove_ensures(k);
            if kk < k {
                assert(q0[kk] == q[kk]);
            } else {
                assert(q0[kk] == q[kk + 1]);
            }
        }
        lemma_gather_multiset(s, p0, q0);
        assert(gather(s, p) =~= gather(s, p0).push(s[x]));
        assert(gather(s, p).to_multiset() =~= gather(s, p0).to_multiset().insert(s[x]));
        assert(gather(s, q0) =~= gather(s, q).remove(k)) by {
            q.remove_ensures(k);
            gather(s, q).remove_ensures(k);
        }
        assert(gather(s, q)[k] == s[x]);
        assert(gather(s, q).remove(k).to_multiset() =~= gather(s, q).to_multiset().remove(s[x]));
        assert(gather(s, q).contains(s[x]));
        assert(gather(s, q).to_multiset().count(s[x]) > 0);
        assert forall|y: A|
            gather(s, p).to_multiset().count(y) == gather(s, q).to_multiset().count(y) by {
            assert(gather(s, q).to_multiset().count(y) == gather(s, q).to_multiset().remove(
                s[x],
            ).insert(s[x]).count(y));
        }
        assert(gather(s, p).to_multiset() =~= gather(s, q).to_multiset());
    }
}

/// The output order lists every input position exactly once.
proof fn lemma_perm_indices_multiset(n: int)
    requires
        n >= 1,
    ensures
        perm_indices(n).to_multiset() == index_seq(n).to_multiset(),
{
    broadcast use vstd::seq_lib::group_to_multiset_ensures;
    broadcast use vstd::multiset::group_multiset_axioms;
    broadcast use vstd::seq_lib::group_filter_ensures;

    let taken = taken_indices(n);
    let skipped = skipped_indices(n);
    let front = seq![n - 1] + taken;
    let ident = index_seq(n);
    let p = processed_pred(n);
    let q = not_processed_pred(n);
    let filt = ident.filter(p);

    lemma_windows_from_props(n, n - 3);

    // The front is duplicate-free: windows are, and none takes the last index.
    assert(front.no_duplicates()) by {
        assert forall|i: int, j: int|
            (0 <= i < front.len() && 0 <= j < front.len() && i != j) implies front[i]
            != front[j] by {
            if i >= 1 && j >= 1 {
                assert(taken[i - 1] != taken[j - 1]);
            } else if i == 0 && j >= 1 {
                assert(taken.contains(taken[j - 1]));
            } else if j == 0 && i >= 1 {
                assert(taken.contains(taken[i - 1]));
            }
        }
    }
    assert(ident.no_duplicates());
    front.lemma_multiset_has_no_duplicates();
    ident.lemma_multiset_has_no_duplicates();

    assert(forall|x: int| #[trigger] q(x) <==> !p(x));
    lemma_filter_partition(ident, p, q);

    // The filtered processed indices and the front agree, member for member.
    assert forall|x: int| front.to_multiset().count(x) == filt.to_multiset().count(x) by {
        assert(filt.to_multiset().count(x) + ident.filter(q).to_multiset().count(x)
            == ident.to_multiset().count(x));
        if front.contains(x) {
            let idx = choose|idx: int| 0 <= idx < front.len() && front[idx] == x;
            if idx == 0 {
                assert(x == n - 1);
            } else {
                assert(taken[idx - 1] == x);
                assert(taken.contains(x));
            }
            assert(0 <= x < n && p(x));
            assert(ident[x] == x);
            assert(filt.contains(x));
            assert(front.to_multiset().count(x) == 1);
            assert(filt.to_multiset().count(x) > 0);
            assert(ident.to_multiset().count(x) <= 1);
        } else {
            assert(front.to_multiset().count(x) == 0);
            if filt.contains(x) {
                let idx = choose|idx: int| 0 <= idx < filt.len() && filt[idx] == x;
                assert(p(filt[idx]));
                assert(x == n - 1 || taken.contains(x));
                if x == n - 1 {
                    assert(front[0] == x);
                    assert(front.contains(x));
                } else {
                    let widx = choose|widx: int| 0 <= widx < taken.len() && taken[widx] == x;
                    assert(front[widx + 1] == x);
                    assert(front.contains(x));
                }
            }
            assert(filt.to_multiset().count(x) == 0);
        }
    }
    assert(front.to_multiset() =~= filt.to_multiset());

    // Assemble: output indices = front + skipped, identity = processed + skipped.
    assert(perm_indices(n) == front + skipped) by {
        assert(seq![n - 1] + taken + skipped =~= front + skipped);
    }
    vstd::seq_lib::lemma_multiset_commutative(front, skipped);
    assert(perm_indices(n).to_multiset() =~= ident.to_multiset());
}

/// The reordering rule is a true permutation: on any finite sequence the
/// output keeps the length and contains exactly the same elements, with
/// multiplicity.
pub proof fn lemma_reorder_seq_permutation<A>(s: Seq<A>)
    ensures
        reorder_seq(s).len() == s.len(),
        reorder_seq(s).to_multiset() == s.to_multiset(),
{
    broadcast use vstd::seq_lib::group_to_multiset_ensures;
    broadcast use vstd::seq_lib::group_filter_ensures;

    let n = s.len() as int;
    let perm = perm_indices(n);
    let ident = index_seq(n);
    if n == 0 {
        assert(reorder_seq(s) =~= Seq::<A>::empty());
        assert(s =~= Seq::<A>::empty());
    } else {
        lemma_perm_indices_multiset(n);
        lemma_windows_from_props(n, n - 3);
        assert forall|k: int| 0 <= k < perm.len() implies 0 <= #[trigger] perm[k] < n by {
            let taken = taken_indices(n);
            let skipped = skipped_indices(n);
            if k == 0 {
            } else if k <= taken.len() {
                assert(perm[k] == taken[k - 1]);
                assert(taken.contains(taken[k - 1]));
            } else {
                assert(perm[k] == skipped[k - 1 - taken.len()]);
                assert(skipped.contains(perm[k]));
                ident.lemma_filter_contains_rev(not_processed_pred(n), perm[k]);
                assert(ident.contains(perm[k]));
                let idx = choose|idx: int| 0 <= idx < ident.len() && ident[idx] == perm[k];
            }
        }
        assert forall|k: int| 0 <= k < ident.len() implies 0 <= #[trigger] ident[k] < n by {}
        lemma_gather_multiset(s, perm, ident);
        assert(gather(s, ident) =~= s);
        assert(reorder_seq(s).to_multiset() == s.to_multiset());
        assert(reorder_seq(s).to_multiset().len() == s.to_multiset().len());
    }
}

/// Applies the reordering rule to a list of file paths.  The output is
/// exactly `reorder_seq` of the input; in particular it is a permutation.
pub fn reorder_files(files: &Vec<String>) -> (result: Vec<String>)
    ensures
        result@ == reorder_seq(files@),
        result@.len() == files@.len(),
        result@.to_multiset() == files@.to_multiset(),
{
    proof {
        lemma_reorder_seq_permutation(files@);
    }
    let n = files.len();
    let mut result: Vec<String> = Vec::new();
    if n == 0 {
        proof {
            assert(result@ =~= reorder_seq(files@));
        }
        return result;
    }

    // The last element comes first.
    result.push(files[n - 1].clone());

    // Track which indices have been taken.
    let mut processed: Vec<bool> = Vec::new();
    let mut k: usize = 0;
    while k < n
        invariant
            processed@.len() == k <= n,
            forall|j: int| 0 <= j < k ==> !processed@[j],
        decreases n - k,
    {
        processed.push(false);
        k += 1;
    }
    processed.set(n - 1, true);

    let ghost mut done: Seq<int> = Seq::empty();
    proof {
        assert(result@ =~= seq![files@[n - 1]] + gather(files@, done));
        assert forall|j: int| 0 <= j < n implies ((#[trigger] processed@[j]) <==> (j == n - 1
            || done.contains(j))) by {
            assert(!done.contains(j));
        }
    }

    if n >= 3 {
        let mut start: usize = n - 3;
        loop
            invariant_except_break
                n == files@.len(),
                3 <= n,
                start <= n - 3,
                processed@.len() == n,
                result@ == seq![files@[n - 1]] + gather(files@, done),
                taken_indices(n as int) == done + windows_from(n as int, start as int),
                forall|j: int| 0 <= j < n ==> ((#[trigger] processed@[j]) <==> (j == n - 1 || done.contains(j))),
            ensures
                n == files@.len(),
                processed@.len() == n,
                result@ == seq![files@[n - 1]] + gather(files@, done),
                done == taken_indices(n as int),
                forall|j: int| 0 <= j < n ==> ((#[trigger] processed@[j]) <==> (j == n - 1 || done.contains(j))),
            decreases start,
        {
            let ghost prev_done = done;
            let ghost pre_processed = processed@;
            let ghost w = window_indices(n as int, start as int);
            // The window is two indices wide exactly when start + 1 < n;
            // each index is pushed only after a bounds check against n.
            if start + 1 < n {
                result.push(files[start].clone());
                processed.set(start, true);
                result.push(files[start + 1].clone());
                processed.set(start + 1, true);
            } else if start < n {
                result.push(files[start].clone());
                processed.set(start, true);
            }
            proof {
                done = prev_done + w;
                let s0 = start as int;
                assert(windows_from(n as int, s0) == w + windows_from(n as int, s0 - 4));
                assert(taken_indices(n as int) == done + windows_from(n as int, s0 - 4)) by {
                    assert(prev_done + (w + windows_from(n as int, s0 - 4)) =~= (prev_done + w)
                        + windows_from(n as int, s0 - 4));
                }
                if start + 1 < n {
                    assert(w =~= seq![s0, s0 + 1]);
                    assert(gather(files@, w) =~= seq![files@[s0], files@[s0 + 1]]);
                    assert(processed@ =~= pre_processed.update(s0, true).update(s0 + 1, true));
                } else {
                    assert(w =~= seq![s0]);
                    assert(gather(files@, w) =~= seq![files@[s0]]);
                    assert(processed@ =~= pre_processed.update(s0, true));
                }
                assert(result@ =~= seq![files@[n - 1]] + gather(files@, done)) by {
                    lemma_gather_add(files@, prev_done, w);
                }
                assert forall|j: int| 0 <= j < n implies ((#[trigger] processed@[j]) <==> (j == n - 1
                    || done.contains(j))) by {
                    if processed@[j] {
                        if j == s0 {
                            assert(done[prev_done.len() as int] == j);
                            assert(done.contains(j));
                        } else if start + 1 < n && j == s0 + 1 {
                            assert(done[prev_done.len() as int + 1] == j);
                            assert(done.contains(j));
                        } else {
                            assert(pre_processed[j]);
                            if prev_done.contains(j) {
                                let idx = choose|idx: int|
                                    0 <= idx < prev_done.len() && prev_done[idx] == j;
                                assert(done[idx] == j);
                                assert(done.contains(j));
                            }
                        }
                    }
                    if j == n - 1 {
                        assert(pre_processed[j]);
                        assert(processed@[j]);
                    }
                    if done.contains(j) {
                        let idx = choose|idx: int| 0 <= idx < done.len() && done[idx] == j;
                        if idx < prev_done.len() {
                            assert(prev_done[idx] == j);
                            assert(prev_done.contains(j));
                            assert(pre_processed[j]);
                            assert(processed@[j]);
                        } else {
                            assert(w[idx - prev_done.len()] == j);
                            assert(j == s0 || j == s0 + 1);
                            assert(processed@[j]);
                        }
                    }
                }
            }
            if start >= 4 {
                start = start - 4;
            } else {
                proof {
                    assert(windows_from(n as int, start as int - 4) =~= Seq::<int>::empty());
                    assert(done + windows_from(n as int, start as int - 4) =~= done);
                }
                break ;
            }
        }
    } else {
        proof {
            assert(taken_indices(n as int) =~= Seq::<int>::empty());
            assert(done == taken_indices(n as int));
        }
    }

    proof {
        assert forall|j: int| 0 <= j < n implies ((#[trigger] processed@[j]) <==> is_processed(
            n as int,
            j,
        )) by {
            assert(processed@[j] <==> (j == n - 1 || done.contains(j)));
            assert(done == taken_indices(n as int));
        }
        assert(result@ == seq![files@[n - 1]] + gather(files@, taken_indices(n as int)) + gather(
            files@,
            index_seq(0).filter(not_processed_pred(n as int)),
        )) by {
            assert(index_seq(0) =~= Seq::<int>::empty());
            assert(index_seq(0).filter(not_processed_pred(n as int)) =~= Seq::<int>::empty());
            assert(gather(files@, Seq::<int>::empty()) =~= Seq::<String>::empty());
            assert(result@ =~= result@ + Seq::<String>::empty());
        }
    }

    // Append the skipped indices in ascending original order.
    let mut i: usize = 0;
    while i < n
        invariant
            n == files@.len(),
            1 <= n,
            processed@.len() == n,
            i <= n,
            forall|j: int| 0 <= j < n ==> ((#[trigger] processed@[j]) <==> is_processed(n as int, j)),
            result@ == seq![files@[n - 1]] + gather(files@, taken_indices(n as int)) + gather(
                files@,
                index_seq(i as int).filter(not_processed_pred(n as int)),
            ),
        decreases n - i,
    {
        let ghost prev_filtered = index_seq(i as int).filter(not_processed_pred(n as int));
        proof {
            assert(index_seq(i + 1 as int) =~= index_seq(i as int).push(i as int));
            index_seq(i as int).lemma_filter_push(i as int, not_processed_pred(n as int));
            assert(index_seq(i + 1 as int).filter(not_processed_pred(n as int)) == index_seq(
                i as int,
            ).push(i as int).filter(not_processed_pred(n as int)));
        }
        if !processed[i] {
            result.push(files[i].clone());
            proof {
                assert(not_processed_pred(n as int)(i as int));
                assert(index_seq(i + 1 as int).filter(not_processed_pred(n as int))
                    == prev_filtered.push(i as int));
                lemma_gather_push(files@, prev_filtered, i as int);
                assert(result@ =~= seq![files@[n - 1]] + gather(
                    files@,
                    taken_indices(n as int),
                ) + gather(files@, index_seq(i + 1 as int).filter(not_processed_pred(n as int))));
            }
        } else {
            proof {
                assert(!not_processed_pred(n as int)(i as int));
                assert(index_seq(i + 1 as int).filter(not_processed_pred(n as int))
                    == prev_filtered);
            }
        }
        i += 1;
    }

    proof {
        assert(index_seq(n as int).filter(not_processed_pred(n as int)) == skipped_indices(
            n as int,
        ));
        lemma_gather_add(files@, seq![n as int - 1] + taken_indices(n as int), skipped_indices(n as int));
        lemma_gather_add(files@, seq![n as int - 1], taken_indices(n as int));
        assert(gather(files@, seq![n as int - 1]) =~= seq![files@[n - 1]]);
        assert(perm_indices(n as int) == (seq![n as int - 1] + taken_indices(n as int))
            + skipped_indices(n as int)) by {
            assert(seq![n as int - 1] + taken_indices(n as int) + skipped_indices(n as int) =~= (
            seq![n as int - 1] + taken_indices(n as int)) + skipped_indices(n as int));
        }
        assert(result@ =~= reorder_seq(files@));
    }
    result
}

} // verus!
