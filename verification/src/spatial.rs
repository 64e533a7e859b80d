//! Radial scanning: grouping the sectors around a point that look like gap
//! openings.

use vstd::prelude::*;

verus! {

/// Number of sectors of a radial scan.
pub const SCAN_SECTORS: usize = 36;

/// Length of the run of candidate sectors that starts at sector `i`.
pub open spec fn run_len(cand: Seq<bool>, i: int) -> nat
    decreases SCAN_SECTORS - i,
{
    if 0 <= i < SCAN_SECTORS && cand[i] {
        1 + run_len(cand, i + 1)
    } else {
        0
    }
}

/// The sectors `start, start + 1, .., start + n - 1`.
pub open spec fn sector_range(start: int, n: nat) -> Seq<usize> {
    Seq::new(n, |k: int| (start + k) as usize)
}

/// The maximal runs of candidate sectors at or after sector `i`, left to
/// right.
pub open spec fn runs_from(cand: Seq<bool>, i: int) -> Seq<Seq<usize>>
    decreases SCAN_SECTORS - i,
{
    if i < 0 || i >= SCAN_SECTORS {
        Seq::empty()
    } else if !cand[i] {
        runs_from(cand, i + 1)
    } else {
        proof {
            assert(run_len(cand, i) == 1 + run_len(cand, i + 1));
            lemma_run_len_bound(cand, i);
        }
        seq![sector_range(i, run_len(cand, i))] + runs_from(cand, i + run_len(cand, i))
    }
}

/// The gap clusters of a scan: the maximal runs of candidate sectors, in
/// order, where a run that ends at the last sector and one that starts at
/// sector `0` form one opening across the wrap and come first, the last run
/// before the first.
pub open spec fn gap_clusters(cand: Seq<bool>) -> Seq<Seq<usize>> {
    let rs = runs_from(cand, 0);
    if rs.len() >= 2 && cand[0] && cand[SCAN_SECTORS - 1] {
        seq![rs.last() + rs[0]] + rs.subrange(1, rs.len() - 1)
    } else {
        rs
    }
}

/// A run that starts inside the scan ends inside it.
pub proof fn lemma_run_len_bound(cand: Seq<bool>, i: int)
    requires
        0 <= i <= SCAN_SECTORS,
    ensures
        i + run_len(cand, i) <= SCAN_SECTORS,
    decreases SCAN_SECTORS - i,
{
    if i < SCAN_SECTORS && cand[i] {
        lemma_run_len_bound(cand, i + 1);
    }
}

proof fn lemma_deep_view_flat(v: Vec<usize>)
    ensures
        v.deep_view() == v@,
{
    assert(v.deep_view() =~= v@);
}

/// Group adjacent candidate sectors into clusters, merging any wrap-around
/// cluster that straddles the 0/`SCAN_SECTORS` boundary.
pub fn cluster_gap_sectors(candidate: &[bool; 36]) -> (r: Vec<Vec<usize>>)
    ensures
        r.deep_view() == gap_clusters(candidate@),
{
    let ghost cand = candidate@;
    let mut clusters: Vec<Vec<usize>> = Vec::new();
    let mut i: usize = 0;
    while i < SCAN_SECTORS
        invariant
            cand == candidate@,
            cand.len() == SCAN_SECTORS,
            i <= SCAN_SECTORS,
            clusters.deep_view() + runs_from(cand, i as int) == runs_from(cand, 0),
        decreases SCAN_SECTORS - i,
    {
        if !candidate[i] {
            i = i + 1;
            continue;
        }
        let start = i;
        let mut cluster: Vec<usize> = Vec::new();
        proof {
            lemma_run_len_bound(cand, start as int);
        }
        while i < SCAN_SECTORS && candidate[i]
            invariant
                cand == candidate@,
                cand.len() == SCAN_SECTORS,
                start < SCAN_SECTORS,
                cand[start as int],
                start <= i <= SCAN_SECTORS,
                run_len(cand, start as int) == (i - start) + run_len(cand, i as int),
                cluster@ == sector_range(start as int, (i - start) as nat),
            decreases SCAN_SECTORS - i,
        {
            cluster.push(i);
            i = i + 1;
            proof {
                assert(cluster@ =~= sector_range(start as int, (i - start) as nat));
            }
        }
        let ghost n = run_len(cand, start as int);
        let ghost old_dv = clusters.deep_view();
        proof {
            assert(run_len(cand, i as int) == 0);
            assert(n > 0);
            assert(runs_from(cand, start as int) == seq![sector_range(start as int, n)] + runs_from(
                cand,
                i as int,
            ));
        }
        proof {
            lemma_deep_view_flat(cluster);
        }
        clusters.push(cluster);
        proof {
            assert(clusters.deep_view() =~= old_dv.push(sector_range(start as int, n)));
            assert(old_dv.push(sector_range(start as int, n)) + runs_from(cand, i as int) =~= old_dv
                + runs_from(cand, start as int));
        }
    }
    let ghost rs = runs_from(cand, 0);
    proof {
        assert(runs_from(cand, SCAN_SECTORS as int) =~= Seq::<Seq<usize>>::empty());
        assert(clusters.deep_view() =~= rs);
    }
    if clusters.len() >= 2 && candidate[0] && candidate[SCAN_SECTORS - 1] {
        let ghost k = clusters.len() as int;
        let ghost vs = clusters@;
        proof {
            assert forall|j: int| 0 <= j < k implies #[trigger] vs[j]@ == rs[j] by {
                lemma_deep_view_flat(vs[j]);
                assert(clusters.deep_view()[j] == vs[j].deep_view());
            }
        }
        let mut tail = match clusters.pop() {
            Some(t) => t,
            None => Vec::new(),
        };
        let mut head = clusters.remove(0);
        proof {
            assert(tail@ == rs[k - 1]);
            assert(head@ == rs[0]);
        }
        tail.append(&mut head);
        clusters.insert(0, tail);
        proof {
            let cs = clusters@;
            assert forall|j: int| 0 <= j < cs.len() implies #[trigger] cs[j].deep_view() == cs[j]@ by {
                lemma_deep_view_flat(cs[j]);
            }
            assert(cs[0]@ =~= rs.last() + rs[0]);
            assert forall|j: int| 1 <= j < cs.len() implies #[trigger] cs[j]@ == rs[j] by {
                assert(cs[j] == vs[j]);
            }
            assert(clusters.deep_view() =~= seq![rs.last() + rs[0]] + rs.subrange(1, k - 1));
        }
    }
    clusters
}

} // verus!
