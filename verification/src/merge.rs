//! Generic merge of two individually sorted sequences into one, failing
//! closed: the merge refuses to return anything rather than emit a
//! misordered timeline.  It splices a log-derived chat timeline together
//! with an older, database-sourced one.

use vstd::prelude::*;

verus! {

/// A value the merge can order: it carries an integer sort key (here, a
/// timestamp).
pub trait SortKeyed {
    /// The key in specifications.
    spec fn key_spec(&self) -> i64;

    /// The key at run time.
    fn key(&self) -> (k: i64)
        ensures
            k == self.key_spec(),
    ;
}

impl SortKeyed for i64 {
    open spec fn key_spec(&self) -> i64 {
        *self
    }

    fn key(&self) -> (k: i64)
        ensures
            k == self.key_spec(),
    {
        *self
    }
}

/// The sequence never decreases in key.
pub open spec fn sorted_by_key<T: SortKeyed>(s: Seq<T>) -> bool {
    forall|i: int, j: int|
        #![trigger s[i].key_spec(), s[j].key_spec()]
        0 <= i < j < s.len() ==> s[i].key_spec() <= s[j].key_spec()
}

/// The deterministic interleave: always take the head with the smaller
/// key, ties toward `a`.
pub open spec fn merge_spec<T: SortKeyed>(a: Seq<T>, b: Seq<T>) -> Seq<T>
    decreases a.len() + b.len(),
{
    if a.len() == 0 {
        b
    } else if b.len() == 0 {
        a
    } else if a[0].key_spec() <= b[0].key_spec() {
        seq![a[0]] + merge_spec(a.drop_first(), b)
    } else {
        seq![b[0]] + merge_spec(a, b.drop_first())
    }
}

/// The interleave rearranges its inputs and invents nothing: the output
/// is exactly as long as both inputs together and carries exactly their
/// elements.
pub proof fn lemma_merge_spec_elements<T: SortKeyed>(a: Seq<T>, b: Seq<T>)
    ensures
        merge_spec(a, b).len() == a.len() + b.len(),
        merge_spec(a, b).to_multiset() == a.to_multiset().add(b.to_multiset()),
    decreases a.len() + b.len(),
{
    broadcast use vstd::seq_lib::lemma_multiset_commutative;
    broadcast use vstd::multiset::group_multiset_axioms;

    if a.len() == 0 {
        assert(a + b =~= b);
        assert(merge_spec(a, b).to_multiset() =~= a.to_multiset().add(b.to_multiset()));
    } else if b.len() == 0 {
        assert(a + b =~= a);
        assert(merge_spec(a, b).to_multiset() =~= a.to_multiset().add(b.to_multiset()));
    } else if a[0].key_spec() <= b[0].key_spec() {
        lemma_merge_spec_elements(a.drop_first(), b);
        assert(seq![a[0]] + a.drop_first() =~= a);
        assert(merge_spec(a, b).to_multiset() =~= a.to_multiset().add(b.to_multiset()));
    } else {
        lemma_merge_spec_elements(a, b.drop_first());
        assert(seq![b[0]] + b.drop_first() =~= b);
        assert(merge_spec(a, b).to_multiset() =~= a.to_multiset().add(b.to_multiset()));
    }
}

proof fn lemma_merge_spec_lower_bound<T: SortKeyed>(a: Seq<T>, b: Seq<T>, k: i64)
    requires
        forall|i: int| 0 <= i < a.len() ==> k <= (#[trigger] a[i]).key_spec(),
        forall|i: int| 0 <= i < b.len() ==> k <= (#[trigger] b[i]).key_spec(),
    ensures
        forall|i: int|
            0 <= i < merge_spec(a, b).len() ==> k <= (#[trigger] merge_spec(a, b)[i]).key_spec(),
    decreases a.len() + b.len(),
{
    let m = merge_spec(a, b);
    if a.len() == 0 {
        assert(forall|i: int| 0 <= i < m.len() ==> k <= (#[trigger] m[i]).key_spec());
    } else if b.len() == 0 {
        assert(forall|i: int| 0 <= i < m.len() ==> k <= (#[trigger] m[i]).key_spec());
    } else if a[0].key_spec() <= b[0].key_spec() {
        assert(forall|i: int|
            0 <= i < a.drop_first().len() ==> k <= (#[trigger] a.drop_first()[i]).key_spec());
        lemma_merge_spec_lower_bound(a.drop_first(), b, k);
        let rest = merge_spec(a.drop_first(), b);
        assert forall|i: int| 0 <= i < m.len() implies k <= (#[trigger] m[i]).key_spec() by {
            if i == 0 {
                assert(m[0] == a[0]);
            } else {
                assert(m[i] == rest[i - 1]);
            }
        }
    } else {
        assert(forall|i: int|
            0 <= i < b.drop_first().len() ==> k <= (#[trigger] b.drop_first()[i]).key_spec());
        lemma_merge_spec_lower_bound(a, b.drop_first(), k);
        let rest = merge_spec(a, b.drop_first());
        assert forall|i: int| 0 <= i < m.len() implies k <= (#[trigger] m[i]).key_spec() by {
            if i == 0 {
                assert(m[0] == b[0]);
            } else {
                assert(m[i] == rest[i - 1]);
            }
        }
    }
}

/// Merging two sorted inputs yields a sorted output.
pub proof fn lemma_merge_spec_sorted<T: SortKeyed>(a: Seq<T>, b: Seq<T>)
    requires
        sorted_by_key(a),
        sorted_by_key(b),
    ensures
        sorted_by_key(merge_spec(a, b)),
    decreases a.len() + b.len(),
{
    if a.len() == 0 || b.len() == 0 {
    } else {
        let take_a = a[0].key_spec() <= b[0].key_spec();
        let h = if take_a {
            a[0]
        } else {
            b[0]
        };
        let rest = if take_a {
            merge_spec(a.drop_first(), b)
        } else {
            merge_spec(a, b.drop_first())
        };
        if take_a {
            assert(sorted_by_key(a.drop_first())) by {
                assert(forall|i: int, j: int|
                    #![trigger a.drop_first()[i].key_spec(), a.drop_first()[j].key_spec()]
                    0 <= i < j < a.drop_first().len() ==> a.drop_first()[i].key_spec()
                        <= a.drop_first()[j].key_spec());
            }
            lemma_merge_spec_sorted(a.drop_first(), b);
            assert(forall|i: int|
                0 <= i < a.drop_first().len()
                    ==> h.key_spec() <= (#[trigger] a.drop_first()[i]).key_spec());
            lemma_merge_spec_lower_bound(a.drop_first(), b, h.key_spec());
        } else {
            assert(sorted_by_key(b.drop_first())) by {
                assert(forall|i: int, j: int|
                    #![trigger b.drop_first()[i].key_spec(), b.drop_first()[j].key_spec()]
                    0 <= i < j < b.drop_first().len() ==> b.drop_first()[i].key_spec()
                        <= b.drop_first()[j].key_spec());
            }
            lemma_merge_spec_sorted(a, b.drop_first());
            assert(forall|i: int|
                0 <= i < b.drop_first().len()
                    ==> h.key_spec() <= (#[trigger] b.drop_first()[i]).key_spec());
            lemma_merge_spec_lower_bound(a, b.drop_first(), h.key_spec());
        }
        let whole = seq![h] + rest;
        assert(merge_spec(a, b) == whole);
        assert forall|i: int, j: int|
            #![trigger whole[i].key_spec(), whole[j].key_spec()]
            0 <= i < j < whole.len() implies whole[i].key_spec() <= whole[j].key_spec() by {
            if i == 0 {
                assert(whole[j] == rest[j - 1]);
            } else {
                assert(whole[i] == rest[i - 1]);
                assert(whole[j] == rest[j - 1]);
                assert(rest[i - 1].key_spec() <= rest[j - 1].key_spec());
            }
        }
    }
}

/// Consumes a vector and returns it back to front.
pub(crate) fn reversed<T>(v: Vec<T>) -> (r: Vec<T>)
    ensures
        r@ == v@.reverse(),
{
    let ghost orig = v@;
    let mut v = v;
    let mut r: Vec<T> = Vec::new();
    proof {
        assert(orig.take(orig.len() as int) =~= orig);
        assert(orig.skip(orig.len() as int) =~= Seq::<T>::empty());
        assert(Seq::<T>::empty().reverse() =~= Seq::<T>::empty());
    }
    while v.len() > 0
        invariant
            v@.len() <= orig.len(),
            v@ == orig.take(v@.len() as int),
            r@ == orig.skip(v@.len() as int).reverse(),
        decreases v.len(),
    {
        let ghost k = v@.len() as int;
        let ghost oldv = v@;
        let x = v.pop().unwrap();
        r.push(x);
        proof {
            assert(v@ == oldv.subrange(0, k - 1));
            assert(v@ =~= orig.take(k - 1));
            assert(r@ =~= orig.skip(k - 1).reverse());
        }
    }
    proof {
        assert(orig.take(0) =~= Seq::<T>::empty());
        assert(orig.skip(0) =~= orig);
    }
    r
}

/// Merges two sequences, each claimed sorted by key, into one sorted
/// sequence, always taking the head with the smaller key and breaking
/// ties toward `a`.  Returns `None`, not a partial result, exactly when
/// one of the inputs was not sorted.
#[verifier::loop_isolation(false)]
#[verifier::rlimit(100)]
pub fn merge<T: SortKeyed>(a: Vec<T>, b: Vec<T>) -> (r: Option<Vec<T>>)
    ensures
        r is Some <==> sorted_by_key(a@) && sorted_by_key(b@),
        r is Some ==> r.unwrap()@ == merge_spec(a@, b@),
{
    let ghost aseq = a@;
    let ghost bseq = b@;
    let mut ar = reversed(a);
    let mut br = reversed(b);
    let mut res: Vec<T> = Vec::new();
    let mut prev: Option<i64> = None;
    let ghost mut i: int = 0;
    let ghost mut j: int = 0;

    proof {
        assert(aseq.skip(0) =~= aseq);
        assert(bseq.skip(0) =~= bseq);
        assert(Seq::<T>::empty() + merge_spec(aseq, bseq) =~= merge_spec(aseq, bseq));
    }
    while ar.len() > 0 || br.len() > 0
        invariant
            0 <= i <= aseq.len(),
            0 <= j <= bseq.len(),
            ar@ == aseq.skip(i).reverse(),
            br@ == bseq.skip(j).reverse(),
            merge_spec(aseq, bseq) == res@ + merge_spec(aseq.skip(i), bseq.skip(j)),
            sorted_by_key(aseq.take(i)),
            sorted_by_key(bseq.take(j)),
            match prev {
                None => i == 0 && j == 0 && res@.len() == 0,
                Some(p) => res@.len() > 0 && (i > 0 ==> aseq[i - 1].key_spec() <= p) && (j > 0
                    ==> bseq[j - 1].key_spec() <= p),
            },
            (sorted_by_key(aseq) && sorted_by_key(bseq)) ==> (match prev {
                None => true,
                Some(p) => (i < aseq.len() ==> p <= aseq[i].key_spec()) && (j < bseq.len() ==> p
                    <= bseq[j].key_spec()),
            }),
        decreases ar.len() + br.len(),
    {
        let take_a: bool;
        if ar.len() == 0 {
            take_a = false;
        } else if br.len() == 0 {
            take_a = true;
        } else {
            let ka = ar[ar.len() - 1].key();
            let kb = br[br.len() - 1].key();
            take_a = ka <= kb;
        }
        proof {
            assert(ar@.len() == aseq.len() - i);
            assert(br@.len() == bseq.len() - j);
            if ar@.len() > 0 {
                assert(ar@[ar@.len() - 1] == aseq.skip(i)[0]);
                assert(aseq.skip(i)[0] == aseq[i]);
            }
            if br@.len() > 0 {
                assert(br@[br@.len() - 1] == bseq.skip(j)[0]);
                assert(bseq.skip(j)[0] == bseq[j]);
            }
        }
        let ghost old_prev = prev;
        let item = if take_a {
            ar.pop().unwrap()
        } else {
            br.pop().unwrap()
        };
        let k = item.key();
        proof {
            if take_a {
                assert(item == aseq[i]);
            } else {
                assert(item == bseq[j]);
            }
        }
        match prev {
            Some(p) => {
                if k < p {
                    proof {
                        // were both inputs sorted, the invariant would
                        // bound p by this head's key
                        assert(!(sorted_by_key(aseq) && sorted_by_key(bseq)));
                    }
                    return None;
                }
            },
            None => {},
        }
        res.push(item);
        prev = Some(k);
        proof {
            let old_i = i;
            let old_j = j;
            if take_a {
                i = i + 1;
                assert(ar@ =~= aseq.skip(i).reverse());
                // every already-consumed key of `a` is at most k
                assert forall|m: int| 0 <= m < old_i implies #[trigger] aseq[m].key_spec()
                    <= k by {
                    let p = old_prev.unwrap();
                    assert(aseq.take(old_i)[old_i - 1] == aseq[old_i - 1]);
                    assert(aseq.take(old_i)[m] == aseq[m]);
                    if m < old_i - 1 {
                        assert(aseq.take(old_i)[m].key_spec() <= aseq.take(old_i)[old_i
                            - 1].key_spec());
                    }
                }
                assert forall|m: int, n: int|
                    #![trigger aseq.take(i)[m].key_spec(), aseq.take(i)[n].key_spec()]
                    0 <= m < n < i implies aseq.take(i)[m].key_spec() <= aseq.take(
                    i,
                )[n].key_spec() by {
                    assert(aseq.take(i)[m] == aseq[m]);
                    assert(aseq.take(i)[n] == aseq[n]);
                    if n < old_i {
                        assert(aseq.take(old_i)[m].key_spec() <= aseq.take(old_i)[n].key_spec());
                        assert(aseq.take(old_i)[m] == aseq[m]);
                        assert(aseq.take(old_i)[n] == aseq[n]);
                    }
                }
                assert(sorted_by_key(aseq.take(i)));
            } else {
                j = j + 1;
                assert(br@ =~= bseq.skip(j).reverse());
                assert forall|m: int| 0 <= m < old_j implies #[trigger] bseq[m].key_spec()
                    <= k by {
                    let p = old_prev.unwrap();
                    assert(bseq.take(old_j)[old_j - 1] == bseq[old_j - 1]);
                    assert(bseq.take(old_j)[m] == bseq[m]);
                    if m < old_j - 1 {
                        assert(bseq.take(old_j)[m].key_spec() <= bseq.take(old_j)[old_j
                            - 1].key_spec());
                    }
                }
                assert forall|m: int, n: int|
                    #![trigger bseq.take(j)[m].key_spec(), bseq.take(j)[n].key_spec()]
                    0 <= m < n < j implies bseq.take(j)[m].key_spec() <= bseq.take(
                    j,
                )[n].key_spec() by {
                    assert(bseq.take(j)[m] == bseq[m]);
                    assert(bseq.take(j)[n] == bseq[n]);
                    if n < old_j {
                        assert(bseq.take(old_j)[m].key_spec() <= bseq.take(old_j)[n].key_spec());
                        assert(bseq.take(old_j)[m] == bseq[m]);
                        assert(bseq.take(old_j)[n] == bseq[n]);
                    }
                }
                assert(sorted_by_key(bseq.take(j)));
            }
            // one unfolding of the interleave absorbs the emitted head
            if take_a {
                assert(aseq.skip(old_i).drop_first() =~= aseq.skip(i));
                assert(seq![aseq[old_i]] + aseq.skip(i) =~= aseq.skip(old_i));
                assert(merge_spec(aseq.skip(old_i), bseq.skip(old_j)) == seq![aseq[old_i]]
                    + merge_spec(aseq.skip(i), bseq.skip(old_j)));
            } else {
                assert(bseq.skip(old_j).drop_first() =~= bseq.skip(j));
                assert(seq![bseq[old_j]] + bseq.skip(j) =~= bseq.skip(old_j));
                assert(merge_spec(aseq.skip(old_i), bseq.skip(old_j)) == seq![bseq[old_j]]
                    + merge_spec(aseq.skip(old_i), bseq.skip(j)));
            }
            assert(res@ + merge_spec(aseq.skip(i), bseq.skip(j)) =~= merge_spec(aseq, bseq));
        }
    }
    proof {
        assert(i == aseq.len() && j == bseq.len());
        assert(aseq.skip(i) =~= Seq::<T>::empty());
        assert(bseq.skip(j) =~= Seq::<T>::empty());
        assert(aseq.take(i) =~= aseq);
        assert(bseq.take(j) =~= bseq);
        assert(res@ + merge_spec(aseq.skip(i), bseq.skip(j)) =~= res@);
    }
    Some(res)
}

} // verus!
