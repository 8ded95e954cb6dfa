//! What a full buffer keeps, stated over the ranks alone.
//!
//! A tick is a row of ranks, one per node; `keep` holds one exponent per node. A row is claimed by
//! every node whose rank in it is above that node's exponent, and the backbone is the rows somebody
//! claims. While the backbone is over its ceiling, the exponent of the node claiming most of it is
//! raised: a node that never dominates never loses a fire.
use vstd::prelude::*;

use crate::rank::FIRST;

verus! {

/// Node `i` claims the row.
pub open spec fn claims(row: Seq<u8>, keep: Seq<u8>, i: int) -> bool {
    0 <= i < row.len() && i < keep.len() && row[i] > keep[i]
}

/// Some node claims the row.
pub open spec fn claimed(row: Seq<u8>, keep: Seq<u8>) -> bool {
    exists|i: int| claims(row, keep, i)
}

/// How many rows node `i` claims.
pub open spec fn share(rows: Seq<Seq<u8>>, keep: Seq<u8>, i: int) -> nat
    decreases rows.len(),
{
    if rows.len() == 0 {
        0
    } else {
        share(rows.drop_last(), keep, i) + if claims(rows.last(), keep, i) {
            1nat
        } else {
            0nat
        }
    }
}

/// How many rows are claimed at all.
pub open spec fn backbone(rows: Seq<Seq<u8>>, keep: Seq<u8>) -> nat
    decreases rows.len(),
{
    if rows.len() == 0 {
        0
    } else {
        backbone(rows.drop_last(), keep) + if claimed(rows.last(), keep) {
            1nat
        } else {
            0nat
        }
    }
}

/// Every node's share.
pub open spec fn shares(rows: Seq<Seq<u8>>, keep: Seq<u8>) -> Seq<nat> {
    Seq::new(keep.len(), |i: int| share(rows, keep, i))
}

/// The position of the largest entry, the last of them where several are.
pub open spec fn greediest(s: Seq<nat>) -> int
    decreases s.len(),
{
    if s.len() <= 1 {
        0
    } else {
        let g = greediest(s.drop_last());
        if s.last() >= s[g] {
            s.len() - 1
        } else {
            g
        }
    }
}

/// How far the exponents are from the top, all nodes together.
pub open spec fn slack(keep: Seq<u8>) -> nat
    decreases keep.len(),
{
    if keep.len() == 0 {
        0
    } else {
        slack(keep.drop_last()) + if keep.last() < FIRST {
            (FIRST - keep.last()) as nat
        } else {
            0
        }
    }
}

/// The exponents with node `g`'s raised by one.
pub open spec fn raised(keep: Seq<u8>, g: int) -> Seq<u8> {
    keep.update(g, (keep[g] + 1) as u8)
}

/// The exponents once the backbone fits under `limit`: the greediest node's is raised until it does.
pub open spec fn squeezed(rows: Seq<Seq<u8>>, keep: Seq<u8>, limit: nat) -> Seq<u8>
    decreases slack(keep),
{
    let g = greediest(shares(rows, keep));
    if backbone(rows, keep) <= limit || !(0 <= g < keep.len()) || keep[g] >= FIRST {
        keep
    } else {
        proof {
            lemma_raised_slack(keep, g);
        }
        squeezed(rows, raised(keep, g), limit)
    }
}

/// Every rank is one a fire can have.
pub open spec fn ranked(rows: Seq<Seq<u8>>) -> bool {
    forall|p: int, i: int|
        #![trigger rows[p][i]]
        0 <= p < rows.len() && 0 <= i < rows[p].len() ==> rows[p][i] <= FIRST
}

/// The sum of a sequence.
pub open spec fn total(s: Seq<nat>) -> nat
    decreases s.len(),
{
    if s.len() == 0 {
        0
    } else {
        total(s.drop_last()) + s.last()
    }
}

/// Every entry cut down to `f`: what each node could hold if none were given more than `f`.
pub open spec fn levelled(s: Seq<nat>, f: nat) -> Seq<nat> {
    Seq::new(
        s.len(),
        |i: int|
            if s[i] <= f {
                s[i]
            } else {
                f
            },
    )
}

/// Pointwise at most.
pub open spec fn at_most(a: Seq<nat>, b: Seq<nat>) -> bool {
    a.len() == b.len() && forall|i: int| #![trigger a[i]] 0 <= i < a.len() ==> a[i] <= b[i]
}

/// No exponent of `a` is above that of `b`.
pub open spec fn below(a: Seq<u8>, b: Seq<u8>) -> bool {
    a.len() == b.len() && forall|i: int| #![trigger b[i]] 0 <= i < b.len() ==> a[i] <= b[i]
}

/// Raising an exponent brings the exponents nearer the top.
pub proof fn lemma_raised_slack(keep: Seq<u8>, g: int)
    requires
        0 <= g < keep.len(),
        keep[g] < FIRST,
    ensures
        slack(raised(keep, g)) < slack(keep),
    decreases keep.len(),
{
    let r = raised(keep, g);
    if g == keep.len() - 1 {
        assert(r.drop_last() =~= keep.drop_last());
    } else {
        lemma_raised_slack(keep.drop_last(), g);
        assert(r.drop_last() =~= raised(keep.drop_last(), g));
    }
}

/// The greediest entry is in range, nothing is above it and nothing after it equals it.
pub proof fn lemma_greediest(s: Seq<nat>)
    requires
        s.len() > 0,
    ensures
        0 <= greediest(s) < s.len(),
        forall|j: int| #![trigger s[j]] 0 <= j < s.len() ==> s[j] <= s[greediest(s)],
        forall|j: int| #![trigger s[j]] greediest(s) < j < s.len() ==> s[j] < s[greediest(s)],
    decreases s.len(),
{
    if s.len() > 1 {
        let d = s.drop_last();
        lemma_greediest(d);
        let g = greediest(d);
        assert forall|j: int| #![trigger s[j]] 0 <= j < s.len() implies s[j] <= s[greediest(s)] by {
            if j < d.len() {
                assert(d[j] == s[j]);
            }
        }
        assert forall|j: int| #![trigger s[j]] greediest(s) < j < s.len() implies s[j]
            < s[greediest(s)] by {
            if j < d.len() {
                assert(d[j] == s[j]);
            }
        }
    }
}

/// The position with that property is the greediest.
pub proof fn lemma_greediest_unique(s: Seq<nat>, g: int)
    requires
        0 <= g < s.len(),
        forall|j: int| #![trigger s[j]] 0 <= j < s.len() ==> s[j] <= s[g],
        forall|j: int| #![trigger s[j]] g < j < s.len() ==> s[j] < s[g],
    ensures
        g == greediest(s),
{
    lemma_greediest(s);
    let h = greediest(s);
    assert(s[h] <= s[g] && s[g] <= s[h]);
}

/// Sums follow their terms.
pub proof fn lemma_total_at_most(a: Seq<nat>, b: Seq<nat>)
    requires
        at_most(a, b),
    ensures
        total(a) <= total(b),
    decreases a.len(),
{
    if a.len() > 0 {
        assert(a.last() <= b.last()) by {
            assert(a[a.len() - 1] <= b[a.len() - 1]);
        }
        assert(at_most(a.drop_last(), b.drop_last())) by {
            assert forall|i: int|
                #![trigger a.drop_last()[i]]
                0 <= i < a.drop_last().len() implies a.drop_last()[i] <= b.drop_last()[i] by {
                assert(a[i] <= b[i]);
            }
        }
        lemma_total_at_most(a.drop_last(), b.drop_last());
    }
}

proof fn lemma_total_above(a: Seq<nat>, b: Seq<nat>, i: int)
    requires
        at_most(a, b),
        0 <= i < a.len(),
        a[i] < b[i],
    ensures
        total(a) < total(b),
    decreases a.len(),
{
    assert forall|j: int|
        #![trigger a.drop_last()[j]]
        0 <= j < a.drop_last().len() implies a.drop_last()[j] <= b.drop_last()[j] by {
        assert(a[j] <= b[j]);
    }
    if i == a.len() - 1 {
        lemma_total_at_most(a.drop_last(), b.drop_last());
    } else {
        assert(a[a.len() - 1] <= b[a.len() - 1]);
        lemma_total_above(a.drop_last(), b.drop_last(), i);
    }
}

/// A claimed row is claimed by somebody, so the shares together cover the backbone.
pub proof fn lemma_backbone_covered(rows: Seq<Seq<u8>>, keep: Seq<u8>)
    ensures
        backbone(rows, keep) <= total(shares(rows, keep)),
    decreases rows.len(),
{
    if rows.len() > 0 {
        let a = shares(rows.drop_last(), keep);
        let b = shares(rows, keep);
        lemma_backbone_covered(rows.drop_last(), keep);
        assert(at_most(a, b));
        lemma_total_at_most(a, b);
        if claimed(rows.last(), keep) {
            let i = choose|i: int| claims(rows.last(), keep, i);
            assert(a[i] < b[i]);
            lemma_total_above(a, b, i);
        }
    }
}

/// With higher exponents a node claims no more, and neither do all of them together.
pub proof fn lemma_squeeze_shrinks(rows: Seq<Seq<u8>>, lo: Seq<u8>, hi: Seq<u8>)
    requires
        below(lo, hi),
    ensures
        backbone(rows, hi) <= backbone(rows, lo),
        at_most(shares(rows, hi), shares(rows, lo)),
    decreases rows.len(),
{
    if rows.len() > 0 {
        lemma_squeeze_shrinks(rows.drop_last(), lo, hi);
        let row = rows.last();
        assert forall|i: int| claims(row, hi, i) implies claims(row, lo, i) by {
            assert(lo[i] <= hi[i]);
        }
        let a = shares(rows.drop_last(), hi);
        let b = shares(rows.drop_last(), lo);
        assert forall|i: int|
            #![trigger shares(rows, hi)[i]]
            0 <= i < shares(rows, hi).len() implies shares(rows, hi)[i] <= shares(rows, lo)[i] by {
            assert(a[i] <= b[i]);
        }
    }
}

/// A node's share is at most the rows there are.
pub proof fn lemma_share_bound(rows: Seq<Seq<u8>>, keep: Seq<u8>, i: int)
    ensures
        share(rows, keep, i) <= rows.len(),
    decreases rows.len(),
{
    if rows.len() > 0 {
        lemma_share_bound(rows.drop_last(), keep, i);
    }
}

/// The backbone is at most the rows there are.
pub proof fn lemma_backbone_bound(rows: Seq<Seq<u8>>, keep: Seq<u8>)
    ensures
        backbone(rows, keep) <= rows.len(),
    decreases rows.len(),
{
    if rows.len() > 0 {
        lemma_backbone_bound(rows.drop_last(), keep);
    }
}

/// A node that claims anything has an exponent left to raise.
pub proof fn lemma_share_raisable(rows: Seq<Seq<u8>>, keep: Seq<u8>, i: int)
    requires
        ranked(rows),
        share(rows, keep, i) > 0,
    ensures
        0 <= i < keep.len(),
        keep[i] < FIRST,
    decreases rows.len(),
{
    if claims(rows.last(), keep, i) {
        assert(rows[rows.len() - 1][i] <= FIRST);
    } else {
        assert forall|p: int, j: int|
            #![trigger rows.drop_last()[p][j]]
            0 <= p < rows.drop_last().len() && 0 <= j
                < rows.drop_last()[p].len() implies rows.drop_last()[p][j] <= FIRST by {
            assert(rows[p][j] <= FIRST);
        }
        lemma_share_raisable(rows.drop_last(), keep, i);
    }
}

/// A backbone over the ceiling has a greediest node, and that node's exponent can be raised.
pub proof fn lemma_over_raisable(rows: Seq<Seq<u8>>, keep: Seq<u8>, limit: nat)
    requires
        ranked(rows),
        backbone(rows, keep) > limit,
    ensures
        0 <= greediest(shares(rows, keep)) < keep.len(),
        keep[greediest(shares(rows, keep))] < FIRST,
        share(rows, keep, greediest(shares(rows, keep))) > 0,
{
    lemma_backbone_covered(rows, keep);
    let s = shares(rows, keep);
    if s.len() == 0 {
        assert(total(s) == 0);
    }
    lemma_greediest(s);
    let g = greediest(s);
    if s[g] == 0 {
        lemma_total_zero(s);
    }
    lemma_share_raisable(rows, keep, g);
}

proof fn lemma_total_zero(s: Seq<nat>)
    requires
        forall|j: int| #![trigger s[j]] 0 <= j < s.len() ==> s[j] == 0,
    ensures
        total(s) == 0,
    decreases s.len(),
{
    if s.len() > 0 {
        assert(s[s.len() - 1] == 0);
        assert forall|j: int|
            #![trigger s.drop_last()[j]]
            0 <= j < s.drop_last().len() implies s.drop_last()[j] == 0 by {
            assert(s[j] == 0);
        }
        lemma_total_zero(s.drop_last());
    }
}

/// Exponents only ever rise, and a squeeze ends with the backbone under its ceiling.
pub proof fn squeeze_fits(rows: Seq<Seq<u8>>, keep: Seq<u8>, limit: nat)
    requires
        ranked(rows),
        forall|i: int| #![trigger keep[i]] 0 <= i < keep.len() ==> keep[i] <= FIRST,
    ensures
        below(keep, squeezed(rows, keep, limit)),
        forall|i: int|
            #![trigger squeezed(rows, keep, limit)[i]]
            0 <= i < keep.len() ==> squeezed(rows, keep, limit)[i] <= FIRST,
        backbone(rows, squeezed(rows, keep, limit)) <= limit,
    decreases slack(keep),
{
    if backbone(rows, keep) > limit {
        let g = greediest(shares(rows, keep));
        lemma_over_raisable(rows, keep, limit);
        lemma_raised_slack(keep, g);
        let next = raised(keep, g);
        squeeze_fits(rows, next, limit);
        let end = squeezed(rows, keep, limit);
        assert(end == squeezed(rows, next, limit));
        assert forall|i: int| #![trigger end[i]] 0 <= i < end.len() implies keep[i] <= end[i] by {
            assert(next[i] <= end[i]);
        }
    }
}

/// A squeeze has one exponent per node before and after.
pub proof fn lemma_squeezed_len(rows: Seq<Seq<u8>>, keep: Seq<u8>, limit: nat)
    ensures
        squeezed(rows, keep, limit).len() == keep.len(),
    decreases slack(keep),
{
    let g = greediest(shares(rows, keep));
    if !(backbone(rows, keep) <= limit || !(0 <= g < keep.len()) || keep[g] >= FIRST) {
        lemma_raised_slack(keep, g);
        lemma_squeezed_len(rows, raised(keep, g), limit);
    }
}

/// Max-min fairness: a node whose share fits the level `f` at which the levelled shares of all nodes
/// fit the ceiling keeps its exponent, whatever the others claim.
pub proof fn squeeze_is_fair(rows: Seq<Seq<u8>>, keep: Seq<u8>, limit: nat, i: int, f: nat)
    requires
        ranked(rows),
        0 <= i < keep.len(),
        share(rows, keep, i) <= f,
        total(levelled(shares(rows, keep), f)) <= limit,
    ensures
        squeezed(rows, keep, limit)[i] == keep[i],
    decreases slack(keep),
{
    if backbone(rows, keep) > limit {
        let s = shares(rows, keep);
        let g = greediest(s);
        lemma_over_raisable(rows, keep, limit);
        lemma_raised_slack(keep, g);
        if g == i {
            lemma_greediest(s);
            assert(s[g] <= f);
            assert(levelled(s, f) =~= s) by {
                assert forall|j: int| 0 <= j < s.len() implies levelled(s, f)[j] == s[j] by {
                    assert(s[j] <= s[g]);
                }
            }
            lemma_backbone_covered(rows, keep);
            assert(false);
        }
        let next = raised(keep, g);
        lemma_squeeze_shrinks(rows, keep, next);
        let t = shares(rows, next);
        assert(t[i] <= s[i]);
        assert(at_most(levelled(t, f), levelled(s, f))) by {
            assert forall|j: int|
                #![trigger levelled(t, f)[j]]
                0 <= j < levelled(t, f).len() implies levelled(t, f)[j] <= levelled(s, f)[j] by {
                assert(t[j] <= s[j]);
            }
        }
        lemma_total_at_most(levelled(t, f), levelled(s, f));
        squeeze_is_fair(rows, next, limit, i, f);
    }
}

/// Node `i` is at some point of the squeeze the one that claims most.
pub open spec fn dominates(rows: Seq<Seq<u8>>, keep: Seq<u8>, limit: nat, i: int) -> bool
    decreases slack(keep),
{
    let g = greediest(shares(rows, keep));
    if backbone(rows, keep) <= limit || !(0 <= g < keep.len()) || keep[g] >= FIRST {
        false
    } else {
        proof {
            lemma_raised_slack(keep, g);
        }
        g == i || dominates(rows, raised(keep, g), limit, i)
    }
}

/// A node that never dominates never loses a fire: a squeeze leaves its exponent as it is, so it claims
/// every row it claimed.
pub proof fn a_node_that_never_dominates_loses_nothing(
    rows: Seq<Seq<u8>>,
    keep: Seq<u8>,
    limit: nat,
    i: int,
    row: Seq<u8>,
)
    requires
        0 <= i < keep.len(),
        !dominates(rows, keep, limit, i),
    ensures
        squeezed(rows, keep, limit)[i] == keep[i],
        claims(row, keep, i) ==> claims(row, squeezed(rows, keep, limit), i),
    decreases slack(keep),
{
    lemma_squeezed_len(rows, keep, limit);
    let g = greediest(shares(rows, keep));
    if !(backbone(rows, keep) <= limit || !(0 <= g < keep.len()) || keep[g] >= FIRST) {
        lemma_raised_slack(keep, g);
        a_node_that_never_dominates_loses_nothing(rows, raised(keep, g), limit, i, row);
    }
}

/// How many rows hold node `i`'s first fire.
pub open spec fn firsts(rows: Seq<Seq<u8>>, i: int) -> nat
    decreases rows.len(),
{
    if rows.len() == 0 {
        0
    } else {
        firsts(rows.drop_last(), i) + if 0 <= i < rows.last().len() && rows.last()[i] == FIRST {
            1nat
        } else {
            0nat
        }
    }
}

/// At the last exponent a node claims its first fire and nothing else.
proof fn lemma_share_of_firsts(rows: Seq<Seq<u8>>, keep: Seq<u8>, i: int)
    requires
        ranked(rows),
        0 <= i < keep.len(),
        keep[i] == FIRST - 1,
    ensures
        share(rows, keep, i) <= firsts(rows, i),
    decreases rows.len(),
{
    if rows.len() > 0 {
        assert forall|p: int, j: int|
            #![trigger rows.drop_last()[p][j]]
            0 <= p < rows.drop_last().len() && 0 <= j
                < rows.drop_last()[p].len() implies rows.drop_last()[p][j] <= FIRST by {
            assert(rows[p][j] <= FIRST);
        }
        lemma_share_of_firsts(rows.drop_last(), keep, i);
        if claims(rows.last(), keep, i) {
            assert(rows[rows.len() - 1][i] <= FIRST);
        }
    }
}

/// The row holds some node's first fire.
pub open spec fn debut(row: Seq<u8>) -> bool {
    exists|i: int| #![trigger row[i]] 0 <= i < row.len() && row[i] == FIRST
}

/// How many rows hold a first fire.
pub open spec fn debuts(rows: Seq<Seq<u8>>) -> nat
    decreases rows.len(),
{
    if rows.len() == 0 {
        0
    } else {
        debuts(rows.drop_last()) + if debut(rows.last()) {
            1nat
        } else {
            0nat
        }
    }
}

/// Row `q` holds node `i`'s first fire.
pub open spec fn opens(rows: Seq<Seq<u8>>, i: int, q: int) -> bool {
    0 <= q < rows.len() && 0 <= i < rows[q].len() && rows[q][i] == FIRST
}

/// A node that is on any row has its first fire on one.
pub open spec fn rooted(rows: Seq<Seq<u8>>) -> bool {
    forall|p: int, i: int|
        #![trigger rows[p][i]]
        0 <= p < rows.len() && 0 <= i < rows[p].len() && rows[p][i] > 0 ==> exists|q: int|
            opens(rows, i, q)
}

/// A node that claims two rows has a share of two.
proof fn lemma_share_two(rows: Seq<Seq<u8>>, keep: Seq<u8>, i: int, p: int, q: int)
    requires
        0 <= p < q < rows.len(),
        claims(rows[p], keep, i),
        claims(rows[q], keep, i),
    ensures
        share(rows, keep, i) >= 2,
    decreases rows.len(),
{
    let d = rows.drop_last();
    if q == rows.len() - 1 {
        lemma_share_one(d, keep, i, p);
    } else {
        lemma_share_two(d, keep, i, p, q);
    }
}

proof fn lemma_share_one(rows: Seq<Seq<u8>>, keep: Seq<u8>, i: int, p: int)
    requires
        0 <= p < rows.len(),
        claims(rows[p], keep, i),
    ensures
        share(rows, keep, i) >= 1,
    decreases rows.len(),
{
    if p < rows.len() - 1 {
        lemma_share_one(rows.drop_last(), keep, i, p);
    }
}

/// Where every claimed row holds a first fire, the backbone is no more than the rows that do.
proof fn lemma_backbone_of_debuts(rows: Seq<Seq<u8>>, keep: Seq<u8>)
    requires
        forall|p: int|
            #![trigger rows[p]]
            0 <= p < rows.len() && claimed(rows[p], keep) ==> debut(rows[p]),
    ensures
        backbone(rows, keep) <= debuts(rows),
    decreases rows.len(),
{
    if rows.len() > 0 {
        let d = rows.drop_last();
        assert forall|p: int| #![trigger d[p]] 0 <= p < d.len() && claimed(
            d[p],
            keep,
        ) implies debut(d[p]) by {
            assert(rows[p] == d[p]);
        }
        lemma_backbone_of_debuts(d, keep);
        assert(rows[rows.len() - 1] == rows.last());
    }
}

/// While the rows that hold a first fire fit the ceiling, no squeeze reaches the exponent that would
/// drop one.
pub proof fn squeeze_spares_firsts(rows: Seq<Seq<u8>>, keep: Seq<u8>, limit: nat)
    requires
        ranked(rows),
        rooted(rows),
        debuts(rows) <= limit,
        forall|i: int| #![trigger keep[i]] 0 <= i < keep.len() ==> keep[i] < FIRST,
        forall|i: int| #![trigger firsts(rows, i)] 0 <= i < keep.len() ==> firsts(rows, i) <= 1,
    ensures
        squeezed(rows, keep, limit).len() == keep.len(),
        forall|i: int|
            #![trigger squeezed(rows, keep, limit)[i]]
            0 <= i < keep.len() ==> squeezed(rows, keep, limit)[i] < FIRST,
    decreases slack(keep),
{
    if backbone(rows, keep) > limit {
        let s = shares(rows, keep);
        let g = greediest(s);
        lemma_over_raisable(rows, keep, limit);
        lemma_raised_slack(keep, g);
        if keep[g] == FIRST - 1 {
            lemma_share_of_firsts(rows, keep, g);
            assert(firsts(rows, g) <= 1);
            lemma_greediest(s);
            assert forall|p: int|
                #![trigger rows[p]]
                0 <= p < rows.len() && claimed(rows[p], keep) implies debut(rows[p]) by {
                let i = choose|i: int| claims(rows[p], keep, i);
                assert(rows[p][i] > 0);
                let q = choose|q: int| opens(rows, i, q);
                assert(claims(rows[q], keep, i));
                assert(s[i] <= s[g]);
                if p < q {
                    lemma_share_two(rows, keep, i, p, q);
                } else if q < p {
                    lemma_share_two(rows, keep, i, q, p);
                }
                assert(rows[p][i] == FIRST);
            }
            lemma_backbone_of_debuts(rows, keep);
            assert(false);
        }
        squeeze_spares_firsts(rows, raised(keep, g), limit);
    }
}

} // verus!
