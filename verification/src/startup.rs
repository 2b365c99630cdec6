//! Construction-time plumbing that is pure computation: splitting a
//! comma-separated broker address list into individual endpoints, and
//! mapping the start-from-beginning flag to a start-offset policy.

use vstd::prelude::*;

verus! {

/// Where a newly created consumer begins reading: the earliest retained
/// message, or only newly arriving ones. Fixed at construction time.
#[derive(Clone, Copy, Debug, PartialEq, Eq, Structural)]
pub enum StartOffset {
    Earliest,
    Latest,
}

/// The start-offset policy chosen by the construction flag.
pub open spec fn policy_of(from_beginning: bool) -> StartOffset {
    if from_beginning {
        StartOffset::Earliest
    } else {
        StartOffset::Latest
    }
}

/// Maps the boolean construction flag to the two-valued start-offset policy.
pub fn offset_policy(from_beginning: bool) -> (p: StartOffset)
    ensures
        p == policy_of(from_beginning),
{
    if from_beginning {
        StartOffset::Earliest
    } else {
        StartOffset::Latest
    }
}

/// The two construction flags choose observably different start-offset
/// policies.
pub proof fn lemma_offset_policies_distinct()
    ensures
        policy_of(true) != policy_of(false),
{
}

/// The byte on which a broker address list is split into endpoints.
pub const SEPARATOR: u8 = 44;

/// The views of a sequence of endpoint byte strings.
pub open spec fn host_views(hosts: Seq<Vec<u8>>) -> Seq<Seq<u8>> {
    hosts.map_values(|h: Vec<u8>| h@)
}

/// The endpoints of a comma-separated address list: the maximal runs of
/// bytes between separators, in order. An empty list holds one empty
/// endpoint, and every separator opens a new one.
pub open spec fn split_commas(s: Seq<u8>) -> Seq<Seq<u8>>
    decreases s.len(),
{
    if s.len() == 0 {
        seq![Seq::<u8>::empty()]
    } else if s.last() == SEPARATOR {
        split_commas(s.drop_last()).push(Seq::<u8>::empty())
    } else {
        let prev = split_commas(s.drop_last());
        prev.update(prev.len() - 1, prev.last().push(s.last()))
    }
}

/// A split address list always holds at least one endpoint.
pub proof fn lemma_split_commas_nonempty(s: Seq<u8>)
    ensures
        split_commas(s).len() >= 1,
    decreases s.len(),
{
    if s.len() > 0 {
        lemma_split_commas_nonempty(s.drop_last());
    }
}

/// No endpoint of a split address list contains the separator byte.
pub proof fn lemma_split_commas_no_separator(s: Seq<u8>)
    ensures
        forall|i: int|
            0 <= i < split_commas(s).len() ==> !(#[trigger] split_commas(s)[i]).contains(
                SEPARATOR,
            ),
    decreases s.len(),
{
    if s.len() == 0 {
        assert(!split_commas(s)[0].contains(SEPARATOR));
    } else {
        lemma_split_commas_no_separator(s.drop_last());
        lemma_split_commas_nonempty(s.drop_last());
        let prev = split_commas(s.drop_last());
        if s.last() == SEPARATOR {
            assert forall|i: int| 0 <= i < split_commas(s).len() implies !(split_commas(
                s,
            )[i]).contains(SEPARATOR) by {
                if i == prev.len() {
                    assert(!Seq::<u8>::empty().contains(SEPARATOR));
                }
            }
        } else {
            let stretched = prev.last().push(s.last());
            assert(!stretched.contains(SEPARATOR)) by {
                assert(!prev[prev.len() - 1].contains(SEPARATOR));
                if stretched.contains(SEPARATOR) {
                    let j = choose|j: int| 0 <= j < stretched.len() && stretched[j] == SEPARATOR;
                    if j < prev.last().len() {
                        assert(prev.last()[j] == SEPARATOR);
                    } else {
                        assert(stretched[j] == s.last());
                    }
                }
            }
        }
    }
}

/// Splitting around a separator splits each side independently: the
/// endpoints of `a ++ "," ++ b` are the endpoints of `a` followed by the
/// endpoints of `b`.
pub proof fn lemma_split_commas_separator(a: Seq<u8>, b: Seq<u8>)
    ensures
        split_commas(a + seq![SEPARATOR] + b) == split_commas(a) + split_commas(b),
    decreases b.len(),
{
    let c = a + seq![SEPARATOR] + b;
    if b.len() == 0 {
        assert(c =~= a.push(SEPARATOR));
        assert(c.drop_last() =~= a);
        assert(split_commas(c) =~= split_commas(a) + split_commas(b));
    } else {
        assert(c.drop_last() =~= a + seq![SEPARATOR] + b.drop_last());
        assert(c.last() == b.last());
        lemma_split_commas_separator(a, b.drop_last());
        lemma_split_commas_nonempty(b.drop_last());
        let x = split_commas(a);
        let y = split_commas(b.drop_last());
        if b.last() == SEPARATOR {
            assert(split_commas(c) =~= x + split_commas(b));
        } else {
            assert((x + y).last() == y.last());
            assert((x + y).update(x.len() + y.len() - 1, y.last().push(b.last())) =~= x + y.update(
                y.len() - 1,
                y.last().push(b.last()),
            ));
            assert(split_commas(c) =~= x + split_commas(b));
        }
    }
}

/// Splits a comma-separated broker address list into its endpoints, in
/// order, exactly as [`split_commas`] states.
pub fn split_hosts(brokers: &Vec<u8>) -> (hosts: Vec<Vec<u8>>)
    ensures
        host_views(hosts@) == split_commas(brokers@),
{
    let mut hosts: Vec<Vec<u8>> = Vec::new();
    hosts.push(Vec::new());
    proof {
        assert(brokers@.take(0) =~= Seq::<u8>::empty());
        assert(host_views(hosts@) =~= split_commas(brokers@.take(0)));
    }
    let mut i: usize = 0;
    while i < brokers.len()
        invariant
            i <= brokers@.len(),
            hosts@.len() >= 1,
            host_views(hosts@) =~= split_commas(brokers@.take(i as int)),
        decreases brokers@.len() - i,
    {
        let ghost views_before = host_views(hosts@);
        let b = brokers[i];
        proof {
            assert(brokers@.take(i as int + 1).drop_last() =~= brokers@.take(i as int));
            assert(brokers@.take(i as int + 1).last() == b);
        }
        if b == SEPARATOR {
            hosts.push(Vec::new());
            proof {
                assert(host_views(hosts@) =~= views_before.push(Seq::<u8>::empty()));
            }
        } else {
            let mut chunk = match hosts.pop() {
                Some(c) => c,
                None => Vec::new(),
            };
            chunk.push(b);
            hosts.push(chunk);
            proof {
                assert(host_views(hosts@) =~= views_before.update(
                    views_before.len() - 1,
                    views_before.last().push(b),
                ));
            }
        }
        i = i + 1;
    }
    proof {
        assert(brokers@.take(i as int) =~= brokers@);
    }
    hosts
}

} // verus!
